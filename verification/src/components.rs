//! What the controls of the instrument decide: which action a key stands for,
//! how the positions move, which voices sound, and how a cursor catches up.

pub mod keyboard_listener;
pub mod mobile_controls;
pub mod sheet_music;
pub mod voice_control;
