//! The keyboard: each letter key plays a position of the song, counted from a
//! start position that other keys move.

use vstd::prelude::*;
use vstd::string::StringSliceAdditionalSpecFns;

verus! {

/// The keys that play positions, in the order of the positions they play: three
/// rows of four for the left hand, then three rows of four for the right.
pub const LETTERS: &'static str = "qwerasdfzxcvuiopjkl;m,./";

/// Whether `needle` occurs in `hay` at index `i`.
pub open spec fn occurs_at(hay: Seq<u8>, needle: Seq<u8>, i: int) -> bool {
    0 <= i && i + needle.len() <= hay.len() && hay.subrange(i, i + needle.len()) == needle
}

/// Whether `i` is the first index at which `needle` occurs in `hay`.
pub open spec fn first_occurrence(hay: Seq<u8>, needle: Seq<u8>, i: int) -> bool {
    occurs_at(hay, needle, i) && forall|j: int| 0 <= j < i ==> !occurs_at(hay, needle, j)
}

/// Whether `needle` occurs in `hay` at all.
pub open spec fn occurs(hay: Seq<u8>, needle: Seq<u8>) -> bool {
    exists|i: int| occurs_at(hay, needle, i)
}

/// Whether the bytes `hay[at..]` start with `needle`.
fn starts_with_at(hay: &[u8], needle: &[u8], at: usize) -> (r: bool)
    requires
        at + needle@.len() <= hay@.len(),
    ensures
        r == occurs_at(hay@, needle@, at as int),
{
    let total = hay.len();
    let mut k: usize = 0;
    while k < needle.len()
        invariant
            k <= needle@.len(),
            at + needle@.len() <= hay@.len() == total,
            forall|j: int| 0 <= j < k ==> hay@[at + j] == needle@[j],
        decreases needle@.len() - k,
    {
        if hay[at + k] != needle[k] {
            assert(hay@.subrange(at as int, at + needle@.len())[k as int] != needle@[k as int]);
            return false;
        }
        k += 1;
    }
    assert(hay@.subrange(at as int, at + needle@.len()) =~= needle@);
    true
}

/// The first index at which `needle` occurs in `hay`.
fn find_bytes(hay: &[u8], needle: &[u8]) -> (r: Option<usize>)
    ensures
        r matches Some(i) ==> first_occurrence(hay@, needle@, i as int),
        r is None ==> !occurs(hay@, needle@),
{
    if needle.len() > hay.len() {
        return None;
    }
    let last = hay.len() - needle.len();
    let mut at: usize = 0;
    loop
        invariant
            at <= last,
            last + needle@.len() == hay@.len(),
            forall|j: int| 0 <= j < at ==> !occurs_at(hay@, needle@, j),
        decreases last - at,
    {
        if starts_with_at(hay, needle, at) {
            return Some(at);
        }
        if at == last {
            return None;
        }
        at += 1;
    }
}

/// Whether two strings are the same.
pub(crate) fn same_text(a: &str, b: &str) -> (r: bool)
    ensures
        r == (a.spec_bytes() == b.spec_bytes()),
{
    let x = a.as_bytes();
    let y = b.as_bytes();
    if x.len() != y.len() {
        return false;
    }
    let r = starts_with_at(x, y, 0);
    assert(x@.subrange(0, x@.len() as int) =~= x@);
    r
}

/// The position, counted from the start position, that a key plays: the first
/// place at which the key's text occurs among the letters.
pub fn letter_offset(key: &str) -> (r: Option<usize>)
    ensures
        r matches Some(offset) ==> first_occurrence(LETTERS.spec_bytes(), key.spec_bytes(), offset as int),
        r is None ==> !occurs(LETTERS.spec_bytes(), key.spec_bytes()),
{
    find_bytes(LETTERS.as_bytes(), key.as_bytes())
}

/// What a key asks for.
#[derive(Clone, Copy, Debug, PartialEq, Eq, Structural)]
pub enum Action {
    /// Move the start to just after the position played last.
    MoveStartPastRecent,
    /// Move the start one position back.
    MoveStartBack,
    /// Move the start one position on.
    MoveStartOn,
    /// Move the start to the beginning of the song.
    ResetStart,
    /// Play the position that lies `offset` after the start.
    PlayAtOffset { offset: usize },
}

/// An action, and whether a key that is held down takes it again and again.
#[derive(Clone, Copy, Debug, PartialEq, Eq, Structural)]
pub struct KeyAction {
    pub action: Action,
    pub allow_repeats: bool,
}

impl KeyAction {
    /// An action that a held key takes once.
    pub fn new(action: Action) -> (r: KeyAction)
        ensures
            r == (KeyAction { action, allow_repeats: false }),
    {
        KeyAction { action, allow_repeats: false }
    }

    /// An action that a held key repeats.
    pub fn new_with_repeats(action: Action) -> (r: KeyAction)
        ensures
            r == (KeyAction { action, allow_repeats: true }),
    {
        KeyAction { action, allow_repeats: true }
    }
}

/// The action of a key that is pressed without a modifier, as a function of the
/// key's text: the space bar, the two arrows, the backtick, and else a letter.
pub open spec fn key_action(key: Seq<u8>) -> Option<KeyAction> {
    if key == " ".spec_bytes() {
        Some(KeyAction { action: Action::MoveStartPastRecent, allow_repeats: false })
    } else if key == "ArrowLeft".spec_bytes() {
        Some(KeyAction { action: Action::MoveStartBack, allow_repeats: true })
    } else if key == "ArrowRight".spec_bytes() {
        Some(KeyAction { action: Action::MoveStartOn, allow_repeats: true })
    } else if key == "`".spec_bytes() {
        Some(KeyAction { action: Action::ResetStart, allow_repeats: false })
    } else if occurs(LETTERS.spec_bytes(), key) {
        Some(
            KeyAction {
                action: Action::PlayAtOffset {
                    offset: (choose|i: int| first_occurrence(LETTERS.spec_bytes(), key, i)) as usize,
                },
                allow_repeats: false,
            },
        )
    } else {
        None
    }
}

/// The action of a key that is pressed without a modifier, or `None` where the
/// key has none.
pub fn get_no_modifiers_key_action(key: &str) -> (r: Option<KeyAction>)
    ensures
        r == key_action(key.spec_bytes()),
{
    if same_text(key, " ") {
        Some(KeyAction::new(Action::MoveStartPastRecent))
    } else if same_text(key, "ArrowLeft") {
        Some(KeyAction::new_with_repeats(Action::MoveStartBack))
    } else if same_text(key, "ArrowRight") {
        Some(KeyAction::new_with_repeats(Action::MoveStartOn))
    } else if same_text(key, "`") {
        Some(KeyAction::new(Action::ResetStart))
    } else {
        match letter_offset(key) {
            Some(offset) => {
                proof {
                    let hay = LETTERS.spec_bytes();
                    let needle = key.spec_bytes();
                    assert(occurs_at(hay, needle, offset as int));
                    let chosen = choose|i: int| first_occurrence(hay, needle, i);
                    assert(first_occurrence(hay, needle, chosen));
                    assert(chosen == offset);
                }
                Some(KeyAction::new(Action::PlayAtOffset { offset }))
            },
            None => None,
        }
    }
}

/// What to do about a key that went down.
#[derive(Clone, Copy, Debug, PartialEq, Eq, Structural)]
pub struct KeyResponse {
    /// Whether the key is ours, so that the browser must not act on it too.
    pub prevent_default: bool,
    /// The action to take now, if any.
    pub action: Option<KeyAction>,
}

/// What to do about a key that went down. A key pressed with a modifier is left
/// alone. A key with an action is ours; the action is taken unless the key is
/// only repeating and the action is not one that repeats.
pub fn key_down(has_modifier: bool, key: &str, repeat: bool) -> (r: KeyResponse)
    ensures
        r.prevent_default == (!has_modifier && key_action(key.spec_bytes()) is Some),
        r.action == if has_modifier {
            None
        } else {
            match key_action(key.spec_bytes()) {
                Some(action) if !repeat || action.allow_repeats => Some(action),
                _ => None,
            }
        },
{
    if has_modifier {
        return KeyResponse { prevent_default: false, action: None };
    }
    match get_no_modifiers_key_action(key) {
        None => KeyResponse { prevent_default: false, action: None },
        Some(action) => {
            if repeat && !action.allow_repeats {
                KeyResponse { prevent_default: true, action: None }
            } else {
                KeyResponse { prevent_default: true, action: Some(action) }
            }
        },
    }
}

/// The position that a key event plays where every letter plays the position of
/// its own place: none for a key pressed with a modifier, for a key that is no
/// letter, and for a key that is only repeating.
pub fn event_to_song_index(has_modifier: bool, key: &str, repeat: bool) -> (r: Option<usize>)
    ensures
        r matches Some(index) ==> !has_modifier && !repeat && first_occurrence(
            LETTERS.spec_bytes(),
            key.spec_bytes(),
            index as int,
        ),
        r is None ==> has_modifier || repeat || !occurs(LETTERS.spec_bytes(), key.spec_bytes()),
{
    if has_modifier {
        return None;
    }
    let song_index = match letter_offset(key) {
        Some(index) => index,
        None => { return None; },
    };
    if repeat {
        return None;
    }
    Some(song_index)
}

/// Where the player stands in the song.
#[derive(Clone, Copy, Debug, PartialEq, Eq, Structural)]
pub struct Positions {
    /// The position that the first letter plays.
    pub start_song_index: usize,
    /// The position that was played last.
    pub most_recent_song_index: usize,
}

impl Positions {
    /// The positions at the beginning of a song.
    pub fn new() -> (r: Positions)
        ensures
            r == (Positions { start_song_index: 0, most_recent_song_index: 0 }),
    {
        Positions { start_song_index: 0, most_recent_song_index: 0 }
    }

    /// Whether an action can be taken without a position passing the largest
    /// number there is.
    pub open spec fn admits(&self, action: Action) -> bool {
        match action {
            Action::MoveStartPastRecent => self.most_recent_song_index < usize::MAX,
            Action::MoveStartOn => self.start_song_index < usize::MAX,
            Action::PlayAtOffset { offset } => self.start_song_index + offset <= usize::MAX,
            _ => true,
        }
    }

    /// The positions after an action.
    pub open spec fn after(&self, action: Action) -> Positions {
        match action {
            Action::MoveStartPastRecent => Positions {
                start_song_index: (self.most_recent_song_index + 1) as usize,
                ..*self
            },
            Action::MoveStartBack => Positions {
                start_song_index: if self.start_song_index == 0 {
                    0
                } else {
                    (self.start_song_index - 1) as usize
                },
                ..*self
            },
            Action::MoveStartOn => Positions {
                start_song_index: (self.start_song_index + 1) as usize,
                ..*self
            },
            Action::ResetStart => Positions { start_song_index: 0, ..*self },
            Action::PlayAtOffset { offset } => Positions {
                most_recent_song_index: (self.start_song_index + offset) as usize,
                ..*self
            },
        }
    }

    /// Whether an action can be taken.
    pub fn can_take(&self, action: Action) -> (r: bool)
        ensures
            r == self.admits(action),
    {
        match action {
            Action::MoveStartPastRecent => self.most_recent_song_index < usize::MAX,
            Action::MoveStartOn => self.start_song_index < usize::MAX,
            Action::PlayAtOffset { offset } => offset <= usize::MAX - self.start_song_index,
            _ => true,
        }
    }

    /// Takes an action. Returns the position to play, where the action plays one.
    pub fn take(&mut self, action: Action) -> (play: Option<usize>)
        requires
            old(self).admits(action),
        ensures
            *final(self) == old(self).after(action),
            play == match action {
                Action::PlayAtOffset { offset } => Some((old(self).start_song_index + offset) as usize),
                _ => None,
            },
    {
        match action {
            Action::MoveStartPastRecent => {
                self.start_song_index = self.most_recent_song_index + 1;
                None
            },
            Action::MoveStartBack => {
                self.start_song_index = if self.start_song_index == 0 {
                    0
                } else {
                    self.start_song_index - 1
                };
                None
            },
            Action::MoveStartOn => {
                self.start_song_index = self.start_song_index + 1;
                None
            },
            Action::ResetStart => {
                self.start_song_index = 0;
                None
            },
            Action::PlayAtOffset { offset } => {
                let song_index = self.start_song_index + offset;
                self.most_recent_song_index = song_index;
                Some(song_index)
            },
        }
    }

    /// Keeps the start within the song: a start past the last position moves
    /// back to it.
    pub fn keep_start_within(&mut self, max_song_index: Option<usize>)
        ensures
            final(self).most_recent_song_index == old(self).most_recent_song_index,
            final(self).start_song_index == match max_song_index {
                Some(max) if max < old(self).start_song_index => max,
                _ => old(self).start_song_index,
            },
    {
        match max_song_index {
            Some(max) => {
                if max < self.start_song_index {
                    self.start_song_index = max;
                }
            },
            None => {},
        }
    }
}

} // verus!
