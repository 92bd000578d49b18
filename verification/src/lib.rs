//! Core of a sheet-music practice instrument: turning a score or a MIDI file
//! into an indexable sequence of time slices, and deciding which notes sound
//! when a slice is triggered.

pub mod bits;
pub mod components;
pub mod note_name;
pub mod opensheetmusicdisplay_bindings;
pub mod ordering;
pub mod playback_manager;
pub mod sampler;
pub mod song;
pub mod song_data;
pub mod timestamp;
