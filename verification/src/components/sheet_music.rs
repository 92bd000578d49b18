//! The sheet: how a cursor catches up with the position it is to show, and
//! which letter is written above which position.

use crate::components::keyboard_listener::{same_text, LETTERS};
use crate::song_data::SongData;
use vstd::prelude::*;
use vstd::string::StringSliceAdditionalSpecFns;

verus! {

/// How to bring a cursor from the step it shows to the step it is to show.
#[derive(Clone, Copy, Debug, PartialEq, Eq, Structural)]
pub enum CursorMove {
    /// The cursor is where it is to be.
    Stay,
    /// Step forward so many times.
    Forward(usize),
    /// Step back so many times.
    Back(usize),
    /// Go to the start of the score, then step forward so many times.
    ResetThenForward(usize),
}

/// How to bring a cursor from `index_last_shown` to `desired_index`. A cursor far
/// into the song that is to show a step near the beginning starts over instead
/// of stepping all the way back.
pub fn cursor_move(desired_index: usize, index_last_shown: usize) -> (r: CursorMove)
    ensures
        r == if desired_index == index_last_shown {
            CursorMove::Stay
        } else if desired_index < 20 && index_last_shown > 50 {
            CursorMove::ResetThenForward(desired_index)
        } else if desired_index > index_last_shown {
            CursorMove::Forward((desired_index - index_last_shown) as usize)
        } else {
            CursorMove::Back((index_last_shown - desired_index) as usize)
        },
{
    if desired_index == index_last_shown {
        CursorMove::Stay
    } else if desired_index < 20 && index_last_shown > 50 {
        CursorMove::ResetThenForward(desired_index)
    } else if desired_index > index_last_shown {
        CursorMove::Forward(desired_index - index_last_shown)
    } else {
        CursorMove::Back(index_last_shown - desired_index)
    }
}

/// Whether slice `i` is the first slice of the song at the given cursor index.
pub open spec fn is_first_at(song: &SongData, cursor_index: usize, i: int) -> bool {
    &&& 0 <= i < song.slices@.len()
    &&& song.slices@[i].cursor_index == cursor_index
    &&& forall|j: int| 0 <= j < i ==> (#[trigger] song.slices@[j]).cursor_index != cursor_index
}

/// The first slice of the song at the given cursor index.
pub fn song_index_at(song: &SongData, cursor_index: usize) -> (r: Option<usize>)
    ensures
        r matches Some(i) ==> is_first_at(song, cursor_index, i as int),
        r is None ==> forall|j: int|
            0 <= j < song.slices@.len() ==> (#[trigger] song.slices@[j]).cursor_index != cursor_index,
{
    let mut i: usize = 0;
    while i < song.slices.len()
        invariant
            i <= song.slices@.len(),
            forall|j: int| 0 <= j < i ==> (#[trigger] song.slices@[j]).cursor_index != cursor_index,
        decreases song.slices@.len() - i,
    {
        if song.slices[i].cursor_index == cursor_index {
            return Some(i);
        }
        i += 1;
    }
    None
}

/// The letters to write above the score when the start stands at the given
/// cursor index: each letter with the cursor index of the position it plays.
/// The first letter plays the first slice at the start's cursor index, the next
/// letter the slice after it, and so on to the last letter or the end of the
/// song. `None` where the song has no slice at that cursor index.
pub fn key_hints(song: &SongData, start_cursor_index: usize) -> (r: Option<Vec<(u8, usize)>>)
    ensures
        r is None <==> forall|j: int|
            0 <= j < song.slices@.len() ==> (#[trigger] song.slices@[j]).cursor_index != start_cursor_index,
        r matches Some(hints) ==> exists|start: int|
            {
                &&& #[trigger] is_first_at(song, start_cursor_index, start)
                &&& hints@.len() == if LETTERS.spec_bytes().len() <= song.slices@.len() - start {
                    LETTERS.spec_bytes().len() as int
                } else {
                    song.slices@.len() - start
                }
                &&& forall|k: int|
                    0 <= k < hints@.len() ==> #[trigger] hints@[k] == (
                        LETTERS.spec_bytes()[k],
                        song.slices@[start + k].cursor_index,
                    )
            },
{
    let start = match song_index_at(song, start_cursor_index) {
        Some(start) => start,
        None => { return None; },
    };
    let letters = LETTERS.as_bytes();
    let total = song.slices.len();
    let left = total - start;
    let mut hints: Vec<(u8, usize)> = Vec::new();
    let mut k: usize = 0;
    while k < letters.len() && k < left
        invariant
            k <= letters@.len(),
            k <= left,
            left == total - start,
            total == song.slices@.len(),
            letters@ == LETTERS.spec_bytes(),
            hints@.len() == k,
            forall|j: int|
                0 <= j < k ==> #[trigger] hints@[j] == (letters@[j], song.slices@[start + j].cursor_index),
        decreases letters@.len() - k,
    {
        hints.push((letters[k], song.slices[start + k].cursor_index));
        k += 1;
    }
    assert(is_first_at(song, start_cursor_index, start as int));
    Some(hints)
}

/// The colour of the notes of a voice that sounds.
pub const ACTIVE_COLOR: &'static str = "#000000";

/// The colour of the notes of a voice that is silent.
pub const SILENT_COLOR: &'static str = "#aaaaaa";

/// The colour in which to draw the notes of a voice.
pub fn note_color(active: bool) -> (color: &'static str)
    ensures
        color == if active {
            ACTIVE_COLOR
        } else {
            SILENT_COLOR
        },
{
    if active {
        ACTIVE_COLOR
    } else {
        SILENT_COLOR
    }
}

/// Whether a stroke or a fill is drawn at all, and so is to take the colour of
/// its voice: the attribute is set, and not to `none`.
pub fn is_painted(attribute: Option<&str>) -> (r: bool)
    ensures
        r == match attribute {
            Some(paint) => paint.spec_bytes() != "none".spec_bytes(),
            None => false,
        },
{
    match attribute {
        Some(paint) => !same_text(paint, "none"),
        None => false,
    }
}

} // verus!
