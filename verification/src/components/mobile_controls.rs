//! The on-screen controls: stepping through the song one position at a time.

use crate::components::keyboard_listener::Positions;
use vstd::prelude::*;

verus! {

/// What the on-screen controls remember between presses.
#[derive(Clone, Copy, Debug, PartialEq, Eq, Structural)]
pub struct MobileControls {
    /// Whether "next" has been pressed since the last reset. The first press
    /// plays the current position instead of moving on.
    pub has_moved_next: bool,
}

impl MobileControls {
    /// The controls before any press.
    pub fn new() -> (r: MobileControls)
        ensures
            !r.has_moved_next,
    {
        MobileControls { has_moved_next: false }
    }

    /// Goes back to the start position. Returns the position whose place in the
    /// score is to be shown.
    pub fn reset(&mut self, positions: &mut Positions) -> (show: usize)
        ensures
            !final(self).has_moved_next,
            final(positions).start_song_index == old(positions).start_song_index,
            final(positions).most_recent_song_index == old(positions).start_song_index,
            show == old(positions).start_song_index,
    {
        positions.most_recent_song_index = positions.start_song_index;
        self.has_moved_next = false;
        positions.start_song_index
    }

    /// Makes the position played last the start position.
    pub fn set_start(&self, positions: &mut Positions)
        ensures
            final(positions).start_song_index == old(positions).most_recent_song_index,
            final(positions).most_recent_song_index == old(positions).most_recent_song_index,
    {
        positions.start_song_index = positions.most_recent_song_index;
    }

    /// Steps one position back, staying at the first. Returns the position to play.
    pub fn previous(&self, positions: &mut Positions) -> (play: usize)
        ensures
            play == if old(positions).most_recent_song_index == 0 {
                0
            } else {
                old(positions).most_recent_song_index - 1
            },
            final(positions).most_recent_song_index == play,
            final(positions).start_song_index == old(positions).start_song_index,
    {
        let new_index = if positions.most_recent_song_index == 0 {
            0
        } else {
            positions.most_recent_song_index - 1
        };
        positions.most_recent_song_index = new_index;
        new_index
    }

    /// Steps one position on; the first press after a reset stays where it is.
    /// Returns the position to play.
    pub fn next(&mut self, positions: &mut Positions) -> (play: usize)
        requires
            old(self).has_moved_next ==> old(positions).most_recent_song_index < usize::MAX,
        ensures
            final(self).has_moved_next,
            play == if old(self).has_moved_next {
                old(positions).most_recent_song_index + 1
            } else {
                old(positions).most_recent_song_index as int
            },
            final(positions).most_recent_song_index == play,
            final(positions).start_song_index == old(positions).start_song_index,
    {
        if self.has_moved_next {
            let new_index = positions.most_recent_song_index + 1;
            positions.most_recent_song_index = new_index;
            new_index
        } else {
            self.has_moved_next = true;
            positions.most_recent_song_index
        }
    }
}

} // verus!
