//! Time slices of a rendered score: for every cursor position at which a note
//! starts, the pitches that each voice is sounding.

use crate::bits::{bit_set_of, members};
use crate::ordering::{
    as_ints, enumerates, in_order, ints_of, lemma_in_order, lemma_integer_orders,
    lemma_listing_exists, pair_lt, pair_set, sorted_distinct,
};
use crate::timestamp::{lemma_same_number, Fraction, Ratio, Time};
use bit_set::BitSet;
use vstd::prelude::*;

verus! {

/// A tie as the notation engine describes it: where its first note starts (the
/// start of that note's measure, and the note's place within the measure), the
/// voice and the half tone of that note, and how long the tied notes last together.
#[derive(Clone, Copy, Debug, PartialEq, Eq, Structural)]
pub struct Tie {
    pub measure_timestamp: Fraction,
    pub entry_timestamp: Fraction,
    pub voice_id: u32,
    pub half_tone: u32,
    pub duration: Fraction,
}

/// One notated note or rest. A rest has no half tone.
#[derive(Clone, Copy, Debug, PartialEq, Eq, Structural)]
pub struct Note {
    pub half_tone: Option<u32>,
    pub length: Fraction,
    pub tie: Option<Tie>,
}

/// The notes that one voice of one staff starts at a cursor position.
#[derive(Clone, Debug)]
pub struct VoiceEntry {
    pub staff_id: u32,
    pub voice_id: u32,
    pub notes: Vec<Note>,
}

/// One position of the cursor: the time it stands at and the voice entries there.
#[derive(Clone, Debug)]
pub struct CursorStep {
    pub timestamp: Fraction,
    pub voice_entries: Vec<VoiceEntry>,
}

/// A staff of the score and the voices it declares.
#[derive(Clone, Debug)]
pub struct Staff {
    pub id: u32,
    pub voice_ids: Vec<u32>,
}

/// What the score slices are built from: the staves of the score, and every
/// position that the cursor takes from the start of the score to its end.
#[derive(Clone, Debug)]
pub struct Sheet {
    pub staves: Vec<Staff>,
    pub steps: Vec<CursorStep>,
}

/// The place of a note in a sheet: the cursor step, the voice entry within the
/// step, and the note within the entry.
pub struct Place {
    pub step: int,
    pub entry: int,
    pub note: int,
}

/// Whether the cursor reaches `p` before `q`.
pub open spec fn precedes(p: Place, q: Place) -> bool {
    p.step < q.step || (p.step == q.step && (p.entry < q.entry || (p.entry == q.entry && p.note
        < q.note)))
}

impl Tie {
    /// The time at which the first note of the tie starts.
    pub open spec fn start(&self) -> Ratio {
        self.measure_timestamp.ratio().plus(self.entry_timestamp.ratio())
    }

    /// Whether the fractions of the tie stand for numbers.
    pub open spec fn has_values(&self) -> bool {
        self.measure_timestamp.has_value() && self.entry_timestamp.has_value()
            && self.duration.has_value()
    }

    /// Whether two descriptions are of one tie: the same start, voice, half tone
    /// and duration.
    pub open spec fn same_tie(&self, other: &Tie) -> bool {
        &&& self.start().same(other.start())
        &&& self.voice_id == other.voice_id
        &&& self.half_tone == other.half_tone
        &&& self.duration.ratio().same(other.duration.ratio())
    }
}

impl Note {
    /// Whether the builder can read the note: its pitch, twelve above the half
    /// tone, stays below the largest `u32`, and the fractions it reads (of the tie
    /// where the note is tied, else the note's length) stand for numbers. Nothing
    /// is read of a rest.
    pub open spec fn readable(&self) -> bool {
        match self.half_tone {
            None => true,
            Some(half_tone) => half_tone + 12 < u32::MAX && match self.tie {
                Some(tie) => tie.has_values(),
                None => self.length.has_value(),
            },
        }
    }
}

impl Sheet {
    /// Whether `p` is the place of a note of the sheet.
    pub open spec fn holds(&self, p: Place) -> bool {
        &&& 0 <= p.step < self.steps@.len()
        &&& 0 <= p.entry < self.steps@[p.step].voice_entries@.len()
        &&& 0 <= p.note < self.steps@[p.step].voice_entries@[p.entry].notes@.len()
    }

    /// The voice entry of the note at `p`.
    pub open spec fn entry_at(&self, p: Place) -> VoiceEntry {
        self.steps@[p.step].voice_entries@[p.entry]
    }

    /// The note at `p`.
    pub open spec fn note_at(&self, p: Place) -> Note {
        self.steps@[p.step].voice_entries@[p.entry].notes@[p.note]
    }

    /// The time at which cursor step `c` stands.
    pub open spec fn time_at(&self, c: int) -> Ratio {
        self.steps@[c].timestamp.ratio()
    }

    /// Whether the note at `p` is a tied note with a pitch.
    pub open spec fn is_tied(&self, p: Place) -> bool {
        self.holds(p) && self.note_at(p).half_tone is Some && self.note_at(p).tie is Some
    }

    /// Whether the note at `p` carries on a tie that an earlier note started.
    pub open spec fn continues_tie(&self, p: Place) -> bool {
        &&& self.is_tied(p)
        &&& exists|q: Place|
            precedes(q, p) && #[trigger] self.is_tied(q) && self.note_at(q).tie.unwrap().same_tie(
                &self.note_at(p).tie.unwrap(),
            )
    }

    /// Whether the note at `p` starts a sound: it has a pitch and does not carry
    /// on a tie. A tie sounds once, at its first note.
    pub open spec fn sounds(&self, p: Place) -> bool {
        self.holds(p) && self.note_at(p).half_tone is Some && !self.continues_tie(p)
    }

    /// The pitch of the sound that the note at `p` starts.
    pub open spec fn pitch(&self, p: Place) -> int {
        self.note_at(p).half_tone.unwrap() + 12
    }

    /// How long the sound lasts that the note at `p` starts: as long as the whole
    /// tie where the note is tied, else as long as the note.
    pub open spec fn sound_length(&self, p: Place) -> Ratio {
        match self.note_at(p).tie {
            Some(tie) => tie.duration.ratio(),
            None => self.note_at(p).length.ratio(),
        }
    }

    /// The time at which the sound ends that the note at `p` starts.
    pub open spec fn sound_end(&self, p: Place) -> Ratio {
        self.time_at(p.step).plus(self.sound_length(p))
    }

    /// Whether the sound of the note at `p` is still on at step `c`: every step
    /// after the note's, up to `c`, stands at a time before the sound's end.
    pub open spec fn lasts_to(&self, p: Place, c: int) -> bool {
        forall|d: int| p.step < d <= c ==> (#[trigger] self.time_at(d)).lt(self.sound_end(p))
    }

    /// Whether the note at `p` started a sound that is on at step `c`.
    pub open spec fn sounding(&self, p: Place, c: int) -> bool {
        self.sounds(p) && p.step <= c && self.lasts_to(p, c)
    }

    /// The pairs of staff and voice that the staves declare.
    pub open spec fn voice_key_set(&self) -> Set<(int, int)> {
        Set::new(
            |k: (int, int)|
                exists|s: int, v: int|
                    0 <= s < self.staves@.len() && 0 <= v < self.staves@[s].voice_ids@.len() && k == (
                        self.staves@[s].id as int,
                        #[trigger] self.staves@[s].voice_ids@[v] as int,
                    ),
        )
    }

    /// The voices of the score: the declared pairs of staff and voice, by staff
    /// and then by voice. A voice's index is its place in this sequence.
    pub open spec fn voice_keys(&self) -> Seq<(int, int)> {
        in_order(self.voice_key_set(), pair_lt())
    }

    /// The index of the voice that the note at `p` belongs to.
    pub open spec fn voice(&self, p: Place) -> int {
        self.voice_keys().index_of((self.entry_at(p).staff_id as int, self.entry_at(p).voice_id as int))
    }

    /// The pitches that voice `v` is sounding at step `c`.
    pub open spec fn pitches(&self, c: int, v: int) -> Set<usize> {
        Set::new(
            |x: usize|
                exists|p: Place| #[trigger]
                    self.sounding(p, c) && self.voice(p) == v && self.pitch(p) == x,
        )
    }

    /// Whether a sound starts at step `c`. Only such steps give a slice.
    pub open spec fn starts_sound(&self, c: int) -> bool {
        exists|p: Place| #[trigger] self.sounds(p) && p.step == c
    }

    /// The steps below `n` at which a sound starts, in ascending order.
    pub open spec fn slice_steps(&self, n: int) -> Seq<int>
        decreases n,
    {
        if n <= 0 {
            Seq::empty()
        } else if self.starts_sound(n - 1) {
            self.slice_steps(n - 1).push(n - 1)
        } else {
            self.slice_steps(n - 1)
        }
    }

    /// Whether the slices can be built from the sheet: every step's time stands
    /// for a number, every voice entry belongs to a declared voice, and every
    /// note is readable.
    pub open spec fn well_formed(&self) -> bool {
        &&& forall|c: int| 0 <= c < self.steps@.len() ==> (#[trigger] self.steps@[c]).timestamp.has_value()
        &&& forall|c: int, e: int|
            0 <= c < self.steps@.len() && 0 <= e < self.steps@[c].voice_entries@.len()
                ==> self.voice_key_set().contains(
                (
                    (#[trigger] self.steps@[c].voice_entries@[e]).staff_id as int,
                    self.steps@[c].voice_entries@[e].voice_id as int,
                ),
            )
        &&& forall|p: Place| #[trigger] self.holds(p) ==> self.note_at(p).readable()
    }
}

impl Note {
    /// Whether the builder can read the note.
    pub fn is_readable(&self) -> (r: bool)
        ensures
            r == self.readable(),
    {
        match self.half_tone {
            None => true,
            Some(half_tone) => half_tone < u32::MAX - 12 && match &self.tie {
                Some(tie) => tie.measure_timestamp.denominator > 0 && tie.entry_timestamp.denominator
                    > 0 && tie.duration.denominator > 0,
                None => self.length.denominator > 0,
            },
        }
    }
}

impl Sheet {
    /// Whether the staves declare the voice.
    pub fn declares(&self, staff_id: u32, voice_id: u32) -> (r: bool)
        ensures
            r == self.voice_key_set().contains((staff_id as int, voice_id as int)),
    {
        let ghost key = (staff_id as int, voice_id as int);
        let mut s: usize = 0;
        while s < self.staves.len()
            invariant
                s <= self.staves@.len(),
                key == (staff_id as int, voice_id as int),
                forall|a: int, v: int|
                    0 <= a < s && 0 <= v < self.staves@[a].voice_ids@.len() ==> key != (
                        self.staves@[a].id as int,
                        #[trigger] self.staves@[a].voice_ids@[v] as int,
                    ),
            decreases self.staves@.len() - s,
        {
            let staff = &self.staves[s];
            let mut v: usize = 0;
            while v < staff.voice_ids.len()
                invariant
                    v <= staff.voice_ids@.len(),
                    s < self.staves@.len(),
                    *staff == self.staves@[s as int],
                    key == (staff_id as int, voice_id as int),
                    forall|w: int| 0 <= w < v ==> key != (staff.id as int, #[trigger] staff.voice_ids@[w] as int),
                decreases staff.voice_ids@.len() - v,
            {
                if staff.id == staff_id && staff.voice_ids[v] == voice_id {
                    assert(key == (self.staves@[s as int].id as int, self.staves@[s as int].voice_ids@[v as int] as int));
                    return true;
                }
                v += 1;
            }
            s += 1;
        }
        false
    }

    /// The index of a voice, or `None` where the staves do not declare it.
    pub fn voice_index(&self, staff_id: u32, voice_id: u32) -> (r: Option<usize>)
        ensures
            r is Some <==> self.voice_key_set().contains((staff_id as int, voice_id as int)),
            r matches Some(v) ==> v < self.voice_keys().len() && v == self.voice_keys().index_of(
                (staff_id as int, voice_id as int),
            ),
    {
        if !self.declares(staff_id, voice_id) {
            return None;
        }
        let keys = voice_table(self);
        Some(find_voice(&keys, staff_id, voice_id, Ghost(self)))
    }

    /// Whether the slices can be built from the sheet.
    pub fn is_well_formed(&self) -> (r: bool)
        ensures
            r == self.well_formed(),
    {
        let mut c: usize = 0;
        while c < self.steps.len()
            invariant
                c <= self.steps@.len(),
                forall|d: int| 0 <= d < c ==> (#[trigger] self.steps@[d]).timestamp.has_value(),
                forall|d: int, e: int|
                    0 <= d < c && 0 <= e < self.steps@[d].voice_entries@.len()
                        ==> self.voice_key_set().contains(
                        (
                            (#[trigger] self.steps@[d].voice_entries@[e]).staff_id as int,
                            self.steps@[d].voice_entries@[e].voice_id as int,
                        ),
                    ),
                forall|p: Place| #[trigger] self.holds(p) && p.step < c ==> self.note_at(p).readable(),
            decreases self.steps@.len() - c,
        {
            let step = &self.steps[c];
            if step.timestamp.denominator == 0 {
                return false;
            }
            let mut e: usize = 0;
            while e < step.voice_entries.len()
                invariant
                    e <= step.voice_entries@.len(),
                    c < self.steps@.len(),
                    *step == self.steps@[c as int],
                    forall|f: int|
                        0 <= f < e ==> self.voice_key_set().contains(
                            (
                                (#[trigger] step.voice_entries@[f]).staff_id as int,
                                step.voice_entries@[f].voice_id as int,
                            ),
                        ),
                    forall|p: Place| #[trigger]
                        self.holds(p) && p.step == c && p.entry < e ==> self.note_at(p).readable(),
                decreases step.voice_entries@.len() - e,
            {
                let entry = &step.voice_entries[e];
                if !self.declares(entry.staff_id, entry.voice_id) {
                    assert(!self.voice_key_set().contains(
                        (
                            self.steps@[c as int].voice_entries@[e as int].staff_id as int,
                            self.steps@[c as int].voice_entries@[e as int].voice_id as int,
                        ),
                    ));
                    return false;
                }
                let mut n: usize = 0;
                while n < entry.notes.len()
                    invariant
                        n <= entry.notes@.len(),
                        c < self.steps@.len(),
                        e < step.voice_entries@.len(),
                        *step == self.steps@[c as int],
                        *entry == step.voice_entries@[e as int],
                        forall|m: int| 0 <= m < n ==> (#[trigger] entry.notes@[m]).readable(),
                    decreases entry.notes@.len() - n,
                {
                    if !entry.notes[n].is_readable() {
                        let ghost p = place(c as int, e as int, n as int);
                        assert(self.holds(p) && !self.note_at(p).readable());
                        return false;
                    }
                    n += 1;
                }
                assert forall|p: Place| #[trigger]
                    self.holds(p) && p.step == c && p.entry < e + 1 implies self.note_at(p).readable() by {
                    if p.entry == e {
                        assert(entry.notes@[p.note].readable());
                    }
                }
                e += 1;
            }
            c += 1;
        }
        true
    }
}

/// The notes of all voices at one position of a score.
#[derive(Clone, Debug)]
pub struct TimeSlice {
    /// For each voice, the pitches it is sounding.
    pub notes_by_voice: Vec<BitSet>,
    /// The number of cursor steps from the start of the score to this position.
    pub cursor_index: usize,
}

/// A score as a sequence of time slices.
#[derive(Clone, Debug)]
pub struct SongData {
    /// The number of voices; every slice has this many entries.
    pub voices: usize,
    pub slices: Vec<TimeSlice>,
}

impl TimeSlice {
    fn new(notes_by_voice: Vec<BitSet>, cursor_index: usize) -> (slice: TimeSlice)
        ensures
            slice.notes_by_voice == notes_by_voice,
            slice.cursor_index == cursor_index,
    {
        TimeSlice { notes_by_voice, cursor_index }
    }

    /// Whether this is the slice of a sheet at cursor step `c`: it stands at the
    /// step and holds, for each voice, the pitches the voice is sounding there.
    pub open spec fn is_slice_of(&self, sheet: &Sheet, c: int) -> bool {
        &&& self.cursor_index == c
        &&& self.notes_by_voice@.len() == sheet.voice_keys().len()
        &&& forall|v: int|
            0 <= v < self.notes_by_voice@.len() ==> members(#[trigger] self.notes_by_voice@[v])
                == sheet.pitches(c, v)
    }
}

impl SongData {
    /// Whether these are the slices of a sheet: one for every cursor step at which
    /// a sound starts, in the order of the steps.
    pub open spec fn is_song_of(&self, sheet: &Sheet) -> bool {
        let steps = sheet.slice_steps(sheet.steps@.len() as int);
        &&& self.voices == sheet.voice_keys().len()
        &&& self.slices@.len() == steps.len()
        &&& forall|i: int|
            0 <= i < self.slices@.len() ==> (#[trigger] self.slices@[i]).is_slice_of(sheet, steps[i])
    }
}

/// The voices of the sheet, in order.
fn voice_table(sheet: &Sheet) -> (keys: Vec<(u128, u128)>)
    ensures
        ints_of(keys@) == sheet.voice_keys(),
        enumerates(ints_of(keys@), sheet.voice_key_set(), pair_lt()),
{
    let mut pairs: Vec<(u128, u128)> = Vec::new();
    let mut s: usize = 0;
    while s < sheet.staves.len()
        invariant
            s <= sheet.staves@.len(),
            forall|k: (int, int)|
                pair_set(pairs@).contains(k) <==> exists|a: int, v: int|
                    0 <= a < s && 0 <= v < sheet.staves@[a].voice_ids@.len() && k == (
                        sheet.staves@[a].id as int,
                        #[trigger] sheet.staves@[a].voice_ids@[v] as int,
                    ),
        decreases sheet.staves@.len() - s,
    {
        let staff = &sheet.staves[s];
        let ghost before = pairs@;
        let mut v: usize = 0;
        while v < staff.voice_ids.len()
            invariant
                v <= staff.voice_ids@.len(),
                pairs@.len() == before.len() + v,
                forall|i: int| 0 <= i < before.len() ==> pairs@[i] == before[i],
                forall|i: int| 0 <= i < v ==> as_ints(#[trigger] pairs@[before.len() + i]) == (staff.id as int, staff.voice_ids@[i] as int),
            decreases staff.voice_ids@.len() - v,
        {
            pairs.push((staff.id as u128, staff.voice_ids[v] as u128));
            v += 1;
        }
        proof {
            assert forall|k: (int, int)| pair_set(pairs@).contains(k) <==> exists|a: int, v: int|
                0 <= a < s + 1 && 0 <= v < sheet.staves@[a].voice_ids@.len() && k == (
                    sheet.staves@[a].id as int,
                    #[trigger] sheet.staves@[a].voice_ids@[v] as int,
                ) by {
                if pair_set(pairs@).contains(k) {
                    let i = choose|i: int| 0 <= i < pairs@.len() && as_ints(#[trigger] pairs@[i]) == k;
                    if i < before.len() {
                        assert(as_ints(before[i]) == k);
                        assert(pair_set(before).contains(k));
                    } else {
                        let w = i - before.len();
                        assert(as_ints(pairs@[before.len() + w]) == k);
                        assert(k == (sheet.staves@[s as int].id as int, sheet.staves@[s as int].voice_ids@[w] as int));
                    }
                }
                if exists|a: int, v: int|
                    0 <= a < s + 1 && 0 <= v < sheet.staves@[a].voice_ids@.len() && k == (
                        sheet.staves@[a].id as int,
                        #[trigger] sheet.staves@[a].voice_ids@[v] as int,
                    ) {
                    let (a, w) = choose|a: int, v: int|
                        0 <= a < s + 1 && 0 <= v < sheet.staves@[a].voice_ids@.len() && k == (
                            sheet.staves@[a].id as int,
                            #[trigger] sheet.staves@[a].voice_ids@[v] as int,
                        );
                    if a < s {
                        assert(pair_set(before).contains(k));
                        let i = choose|i: int| 0 <= i < before.len() && as_ints(#[trigger] before[i]) == k;
                        assert(as_ints(pairs@[i]) == k);
                    } else {
                        assert(as_ints(pairs@[before.len() + w]) == k);
                    }
                }
            }
        }
        s += 1;
    }
    let ghost listed = pairs@;
    let keys = sorted_distinct(pairs);
    proof {
        assert(pair_set(listed) =~= sheet.voice_key_set());
        lemma_integer_orders();
        lemma_in_order(ints_of(keys@), sheet.voice_key_set(), pair_lt());
    }
    keys
}

/// The index of a declared voice.
fn find_voice(
    keys: &Vec<(u128, u128)>,
    staff_id: u32,
    voice_id: u32,
    Ghost(sheet): Ghost<&Sheet>,
) -> (v: usize)
    requires
        ints_of(keys@) == sheet.voice_keys(),
        enumerates(ints_of(keys@), sheet.voice_key_set(), pair_lt()),
        sheet.voice_key_set().contains((staff_id as int, voice_id as int)),
    ensures
        v < keys@.len(),
        v == sheet.voice_keys().index_of((staff_id as int, voice_id as int)),
{
    let ghost key = (staff_id as int, voice_id as int);
    let count = keys.len();
    let mut v: usize = 0;
    assert(ints_of(keys@).contains(key));
    while keys[v].0 != staff_id as u128 || keys[v].1 != voice_id as u128
        invariant
            v < keys@.len() == count,
            key == (staff_id as int, voice_id as int),
            ints_of(keys@).contains(key),
            forall|u: int| 0 <= u < v ==> ints_of(keys@)[u] != key,
        decreases keys@.len() - v,
    {
        proof {
            let at = choose|at: int| 0 <= at < ints_of(keys@).len() && ints_of(keys@)[at] == key;
            assert(ints_of(keys@)[v as int] != key);
            assert(at != v);
            assert(at < keys@.len());
            assert(v + 1 < keys@.len());
        }
        v += 1;
    }
    proof {
        let s = ints_of(keys@);
        assert(s[v as int] == key);
        let chosen = s.index_of(key);
        assert(0 <= chosen < s.len() && s[chosen] == key);
        if chosen < v {
            assert((pair_lt())(s[chosen], s[v as int]));
        }
        if chosen > v {
            assert((pair_lt())(s[v as int], s[chosen]));
        }
    }
    v
}

/// The place of note `n` of entry `e` of step `c`.
spec fn place(c: int, e: int, n: int) -> Place {
    Place { step: c, entry: e, note: n }
}

/// What identifies a tie, as held while the slices are built.
struct TieKey {
    start: Time,
    voice_id: u32,
    half_tone: u32,
    duration: Time,
}

impl TieKey {
    /// Whether the key was made from the tie.
    spec fn is_key_of(&self, tie: &Tie) -> bool {
        &&& self.start@ == tie.start()
        &&& self.voice_id == tie.voice_id
        &&& self.half_tone == tie.half_tone
        &&& self.duration@ == tie.duration.ratio()
    }

    /// Whether two keys are of one tie.
    spec fn matches(&self, other: &TieKey) -> bool {
        &&& self.start@.same(other.start@)
        &&& self.voice_id == other.voice_id
        &&& self.half_tone == other.half_tone
        &&& self.duration@.same(other.duration@)
    }

    fn from_tie(tie: &Tie) -> (key: TieKey)
        requires
            tie.has_values(),
        ensures
            key.is_key_of(tie),
            key.duration.small(),
    {
        TieKey {
            start: tie.measure_timestamp.plus(&tie.entry_timestamp),
            voice_id: tie.voice_id,
            half_tone: tie.half_tone,
            duration: tie.duration.to_rust_fraction().unwrap(),
        }
    }

    fn is_match(&self, other: &TieKey) -> (r: bool)
        ensures
            r == self.matches(other),
    {
        self.voice_id == other.voice_id && self.half_tone == other.half_tone && self.start.is_same(
            &other.start,
        ) && self.duration.is_same(&other.duration)
    }
}

/// Whether `sounds` lists the sounds of voice `v` that are on at step `c`, among
/// the notes that the cursor has reached before `cursor`: entry `k` is the sound
/// that the note at `places[k]` started.
spec fn voice_tracked(
    sheet: &Sheet,
    sounds: Seq<(u32, Time)>,
    places: Seq<Place>,
    v: int,
    cursor: Place,
    c: int,
) -> bool {
    &&& sounds.len() == places.len()
    &&& forall|k: int|
        0 <= k < places.len() ==> {
            let p = #[trigger] places[k];
            &&& sheet.sounds(p)
            &&& precedes(p, cursor)
            &&& sheet.lasts_to(p, c)
            &&& sheet.voice(p) == v
            &&& sounds[k].0 == sheet.pitch(p)
            &&& sounds[k].1@ == sheet.sound_end(p)
        }
    &&& forall|p: Place| #[trigger]
        sheet.sounds(p) && precedes(p, cursor) && sheet.lasts_to(p, c) && sheet.voice(p) == v
            ==> places.contains(p)
}

/// Whether `seen` holds the keys of the tied notes that the cursor has reached
/// before `cursor`: entry `k` is the key of the tie of the note at `places[k]`.
spec fn ties_tracked(sheet: &Sheet, seen: Seq<TieKey>, places: Seq<Place>, cursor: Place) -> bool {
    &&& seen.len() == places.len()
    &&& forall|k: int|
        0 <= k < places.len() ==> {
            let q = #[trigger] places[k];
            &&& sheet.is_tied(q)
            &&& precedes(q, cursor)
            &&& seen[k].is_key_of(&sheet.note_at(q).tie.unwrap())
        }
    &&& forall|q: Place| #[trigger] sheet.is_tied(q) && precedes(q, cursor) ==> places.contains(q)
}

/// What the builder holds between two notes.
struct Progress {
    /// For each voice, the sounds that are on: pitch and end.
    active: Vec<Vec<(u32, Time)>>,
    /// The keys of the ties met so far.
    seen: Vec<TieKey>,
    /// For each sound that is on, the place of the note that started it.
    places: Ghost<Seq<Seq<Place>>>,
    /// For each key, the place of the note whose tie it is.
    seen_places: Ghost<Seq<Place>>,
}

impl Progress {
    /// Whether the sounds and the keys are those of the notes before `cursor`,
    /// the sounds as far as they last to step `c`.
    spec fn tracks(&self, sheet: &Sheet, cursor: Place, c: int) -> bool {
        &&& self.active@.len() == sheet.voice_keys().len()
        &&& self.places@.len() == self.active@.len()
        &&& forall|v: int|
            0 <= v < self.active@.len() ==> voice_tracked(
                sheet,
                (#[trigger] self.active@[v])@,
                self.places@[v],
                v,
                cursor,
                c,
            )
        &&& ties_tracked(sheet, self.seen@, self.seen_places@, cursor)
    }
}

/// Drops the sounds of one voice that have ended when the cursor stands at `now`.
fn expire_voice(
    sounds: &Vec<(u32, Time)>,
    now: &Time,
    Ghost(sheet): Ghost<&Sheet>,
    Ghost(places): Ghost<Seq<Place>>,
    Ghost(v): Ghost<int>,
    Ghost(c): Ghost<int>,
) -> (r: (Vec<(u32, Time)>, Ghost<Seq<Place>>))
    requires
        0 <= c < sheet.steps@.len(),
        now@ == sheet.time_at(c),
        voice_tracked(sheet, sounds@, places, v, place(c, 0, 0), c - 1),
    ensures
        voice_tracked(sheet, r.0@, r.1@, v, place(c, 0, 0), c),
{
    let mut kept: Vec<(u32, Time)> = Vec::new();
    let ghost mut kept_places: Seq<Place> = Seq::empty();
    let mut k: usize = 0;
    while k < sounds.len()
        invariant
            k <= sounds@.len(),
            0 <= c < sheet.steps@.len(),
            now@ == sheet.time_at(c),
            voice_tracked(sheet, sounds@, places, v, place(c, 0, 0), c - 1),
            kept@.len() == kept_places.len(),
            forall|j: int|
                0 <= j < kept_places.len() ==> {
                    let p = #[trigger] kept_places[j];
                    &&& sheet.sounds(p)
                    &&& precedes(p, place(c, 0, 0))
                    &&& sheet.lasts_to(p, c)
                    &&& sheet.voice(p) == v
                    &&& kept@[j].0 == sheet.pitch(p)
                    &&& kept@[j].1@ == sheet.sound_end(p)
                },
            forall|j: int|
                0 <= j < k && sheet.lasts_to(#[trigger] places[j], c) ==> kept_places.contains(places[j]),
        decreases sounds@.len() - k,
    {
        let sound = sounds[k];
        let ghost p = places[k as int];
        assert(sheet.sounds(p) && sheet.lasts_to(p, c - 1) && precedes(p, place(c, 0, 0)));
        assert(p.step < c);
        if now.is_before(&sound.1) {
            proof {
                assert(sheet.lasts_to(p, c));
                let grown = kept_places.push(p);
                assert forall|j: int| 0 <= j < k + 1 && sheet.lasts_to(#[trigger] places[j], c) implies grown.contains(places[j]) by {
                    if j < k {
                        let i = choose|i: int| 0 <= i < kept_places.len() && kept_places[i] == places[j];
                        assert(grown[i] == places[j]);
                    } else {
                        assert(grown[kept_places.len() as int] == places[j]);
                    }
                }
                kept_places = grown;
            }
            kept.push(sound);
        } else {
            assert(!sheet.time_at(c).lt(sheet.sound_end(p)));
            assert(!sheet.lasts_to(p, c));
        }
        k += 1;
    }
    proof {
        assert forall|p: Place| #[trigger]
            sheet.sounds(p) && precedes(p, place(c, 0, 0)) && sheet.lasts_to(p, c) && sheet.voice(p)
                == v implies kept_places.contains(p) by {
            assert(sheet.lasts_to(p, c - 1));
            assert(places.contains(p));
            let j = choose|j: int| 0 <= j < places.len() && places[j] == p;
            assert(sheet.lasts_to(places[j], c));
        }
    }
    (kept, Ghost(kept_places))
}

impl Progress {
    /// Nothing sounds and no tie has been met.
    fn new(voices: usize, Ghost(sheet): Ghost<&Sheet>) -> (progress: Progress)
        requires
            voices == sheet.voice_keys().len(),
        ensures
            progress.tracks(sheet, place(0, 0, 0), -1),
    {
        let mut active: Vec<Vec<(u32, Time)>> = Vec::new();
        while active.len() < voices
            invariant
                active@.len() <= voices,
                forall|v: int| 0 <= v < active@.len() ==> (#[trigger] active@[v])@.len() == 0,
            decreases voices - active@.len(),
        {
            active.push(Vec::new());
        }
        let ghost places = Seq::new(voices as nat, |v: int| Seq::<Place>::empty());
        let progress = Progress {
            active,
            seen: Vec::new(),
            places: Ghost(places),
            seen_places: Ghost(Seq::empty()),
        };
        proof {
            assert forall|v: int| 0 <= v < progress.active@.len() implies voice_tracked(
                sheet,
                (#[trigger] progress.active@[v])@,
                progress.places@[v],
                v,
                place(0, 0, 0),
                -1,
            ) by {
                assert forall|p: Place| #[trigger] sheet.sounds(p) implies !precedes(p, place(0, 0, 0)) by {}
            }
            assert forall|q: Place| #[trigger] sheet.is_tied(q) implies !precedes(q, place(0, 0, 0)) by {}
        }
        progress
    }

    /// Drops the sounds that have ended when the cursor comes to step `c`, which
    /// stands at `now`.
    fn expire(&mut self, now: &Time, Ghost(sheet): Ghost<&Sheet>, Ghost(c): Ghost<int>)
        requires
            0 <= c < sheet.steps@.len(),
            now@ == sheet.time_at(c),
            old(self).tracks(sheet, place(c, 0, 0), c - 1),
        ensures
            final(self).tracks(sheet, place(c, 0, 0), c),
    {
        let count = self.active.len();
        let mut v: usize = 0;
        while v < count
            invariant
                v <= count == self.active@.len(),
                0 <= c < sheet.steps@.len(),
                now@ == sheet.time_at(c),
                self.active@.len() == sheet.voice_keys().len(),
                self.places@.len() == self.active@.len(),
                ties_tracked(sheet, self.seen@, self.seen_places@, place(c, 0, 0)),
                forall|u: int|
                    0 <= u < v ==> voice_tracked(
                        sheet,
                        (#[trigger] self.active@[u])@,
                        self.places@[u],
                        u,
                        place(c, 0, 0),
                        c,
                    ),
                forall|u: int|
                    v <= u < count ==> voice_tracked(
                        sheet,
                        (#[trigger] self.active@[u])@,
                        self.places@[u],
                        u,
                        place(c, 0, 0),
                        c - 1,
                    ),
            decreases count - v,
        {
            let ghost voice_places = self.places@[v as int];
            let ghost before = self.active@;
            let ghost places_before = self.places@;
            assert(voice_tracked(sheet, self.active@[v as int]@, voice_places, v as int, place(c, 0, 0), c - 1));
            let (kept, Ghost(kept_places)) = expire_voice(
                &self.active[v],
                now,
                Ghost(sheet),
                Ghost(voice_places),
                Ghost(v as int),
                Ghost(c),
            );
            self.active.set(v, kept);
            proof {
                self.places = Ghost(places_before.update(v as int, kept_places));
                assert forall|u: int| 0 <= u < v + 1 implies voice_tracked(
                    sheet,
                    (#[trigger] self.active@[u])@,
                    self.places@[u],
                    u,
                    place(c, 0, 0),
                    c,
                ) by {
                    if u < v {
                        assert(self.active@[u] == before[u]);
                    }
                }
                assert forall|u: int| v + 1 <= u < count implies voice_tracked(
                    sheet,
                    (#[trigger] self.active@[u])@,
                    self.places@[u],
                    u,
                    place(c, 0, 0),
                    c - 1,
                ) by {
                    assert(self.active@[u] == before[u]);
                }
            }
            v += 1;
        }
    }

    /// Whether the key of a tie has been met.
    fn has_seen(&self, key: &TieKey) -> (found: bool)
        ensures
            found == exists|k: int| 0 <= k < self.seen@.len() && (#[trigger] self.seen@[k]).matches(key),
    {
        let mut k: usize = 0;
        while k < self.seen.len()
            invariant
                k <= self.seen@.len(),
                forall|j: int| 0 <= j < k ==> !(#[trigger] self.seen@[j]).matches(key),
            decreases self.seen@.len() - k,
        {
            if self.seen[k].is_match(key) {
                return true;
            }
            k += 1;
        }
        false
    }

    /// Takes in the note at place `(c, e, n)`: where it starts a sound, the sound
    /// is added to its voice. Returns whether it does.
    fn take_note(
        &mut self,
        note: &Note,
        voice: usize,
        now: &Time,
        Ghost(sheet): Ghost<&Sheet>,
        Ghost(p): Ghost<Place>,
    ) -> (added: bool)
        requires
            sheet.holds(p),
            *note == sheet.note_at(p),
            note.readable(),
            voice == sheet.voice(p),
            voice < old(self).active@.len(),
            now@ == sheet.time_at(p.step),
            now.small(),
            old(self).tracks(sheet, p, p.step),
        ensures
            final(self).tracks(sheet, place(p.step, p.entry, p.note + 1), p.step),
            added == sheet.sounds(p),
    {
        let ghost next = place(p.step, p.entry, p.note + 1);
        let ghost c = p.step;
        proof {
            assert forall|q: Place| precedes(q, next) <==> precedes(q, p) || q == p by {}
        }
        let half_tone = match note.half_tone {
            Some(half_tone) => half_tone,
            None => {
                proof {
                    lemma_passed(self, sheet, p, next, c);
                }
                return false;
            },
        };
        let pitch = half_tone + 12;
        let duration = match &note.tie {
            Some(tie) => {
                let key = TieKey::from_tie(tie);
                let found = self.has_seen(&key);
                let duration = key.duration;
                proof {
                    assert(sheet.is_tied(p));
                    if found {
                        let k = choose|k: int| 0 <= k < self.seen@.len() && (#[trigger] self.seen@[k]).matches(&key);
                        let q = self.seen_places@[k];
                        assert(sheet.is_tied(q) && precedes(q, p));
                        assert(sheet.note_at(q).tie.unwrap().same_tie(&sheet.note_at(p).tie.unwrap()));
                        assert(sheet.continues_tie(p));
                    } else {
                        if sheet.continues_tie(p) {
                            let q = choose|q: Place|
                                precedes(q, p) && #[trigger] sheet.is_tied(q) && sheet.note_at(
                                    q,
                                ).tie.unwrap().same_tie(&sheet.note_at(p).tie.unwrap());
                            assert(self.seen_places@.contains(q));
                            let k = choose|k: int| 0 <= k < self.seen_places@.len() && self.seen_places@[k] == q;
                            assert(self.seen@[k].matches(&key));
                        }
                    }
                }
                let ghost seen_before = self.seen@;
                let ghost seen_places_before = self.seen_places@;
                self.seen.push(key);
                proof {
                    self.seen_places = Ghost(seen_places_before.push(p));
                    assert forall|q: Place| #[trigger] sheet.is_tied(q) && precedes(q, next) implies self.seen_places@.contains(q) by {
                        if q == p {
                            assert(self.seen_places@[seen_places_before.len() as int] == p);
                        } else {
                            assert(seen_places_before.contains(q));
                            let k = choose|k: int| 0 <= k < seen_places_before.len() && seen_places_before[k] == q;
                            assert(self.seen_places@[k] == q);
                        }
                    }
                    assert(ties_tracked(sheet, self.seen@, self.seen_places@, next));
                }
                if found {
                    proof {
                        lemma_passed_sounds(self, old(self), sheet, p, next, c);
                    }
                    return false;
                }
                duration
            },
            None => {
                proof {
                    assert forall|q: Place| #[trigger] sheet.is_tied(q) && precedes(q, next) implies self.seen_places@.contains(q) by {}
                    assert(ties_tracked(sheet, self.seen@, self.seen_places@, next));
                }
                note.length.to_rust_fraction().unwrap()
            },
        };
        let end = now.plus(&duration);
        let ghost active_before = self.active@;
        let ghost places_before = self.places@;
        let ghost voice_places = self.places@[voice as int];
        assert(voice_tracked(sheet, self.active@[voice as int]@, voice_places, voice as int, p, c));
        self.active[voice].push((pitch, end));
        proof {
            assert(sheet.sounds(p));
            assert(sheet.lasts_to(p, c));
            let grown = voice_places.push(p);
            self.places = Ghost(places_before.update(voice as int, grown));
            assert forall|v: int| 0 <= v < self.active@.len() implies voice_tracked(
                sheet,
                (#[trigger] self.active@[v])@,
                self.places@[v],
                v,
                next,
                c,
            ) by {
                if v == voice {
                    assert(self.active@[v]@ == active_before[v]@.push((pitch, end)));
                    assert forall|k: int| 0 <= k < grown.len() implies {
                        let r = #[trigger] grown[k];
                        &&& sheet.sounds(r)
                        &&& precedes(r, next)
                        &&& sheet.lasts_to(r, c)
                        &&& sheet.voice(r) == v
                        &&& self.active@[v]@[k].0 == sheet.pitch(r)
                        &&& self.active@[v]@[k].1@ == sheet.sound_end(r)
                    } by {
                        if k < voice_places.len() {
                            assert(grown[k] == voice_places[k]);
                        }
                    }
                    assert forall|r: Place| #[trigger]
                        sheet.sounds(r) && precedes(r, next) && sheet.lasts_to(r, c) && sheet.voice(r)
                            == v implies grown.contains(r) by {
                        if r == p {
                            assert(grown[voice_places.len() as int] == p);
                        } else {
                            assert(voice_places.contains(r));
                            let k = choose|k: int| 0 <= k < voice_places.len() && voice_places[k] == r;
                            assert(grown[k] == r);
                        }
                    }
                } else {
                    assert(self.active@[v] == active_before[v]);
                    assert(voice_tracked(sheet, active_before[v]@, places_before[v], v, p, c));
                    assert forall|r: Place| #[trigger]
                        sheet.sounds(r) && precedes(r, next) && sheet.lasts_to(r, c) && sheet.voice(r)
                            == v implies places_before[v].contains(r) by {
                        assert(r != p);
                    }
                }
            }
        }
        true
    }
}

/// A note that is a rest changes nothing: what was tracked before it is tracked
/// after it.
proof fn lemma_passed(progress: &Progress, sheet: &Sheet, p: Place, next: Place, c: int)
    requires
        progress.tracks(sheet, p, c),
        forall|q: Place| precedes(q, next) <==> precedes(q, p) || q == p,
        !sheet.sounds(p),
        !sheet.is_tied(p),
    ensures
        progress.tracks(sheet, next, c),
{
    assert forall|v: int| 0 <= v < progress.active@.len() implies voice_tracked(
        sheet,
        (#[trigger] progress.active@[v])@,
        progress.places@[v],
        v,
        next,
        c,
    ) by {
        assert(voice_tracked(sheet, progress.active@[v]@, progress.places@[v], v, p, c));
    }
}

/// A note that carries on a tie adds no sound: the sounds tracked before it are
/// the sounds tracked after it.
proof fn lemma_passed_sounds(
    progress: &Progress,
    before: &Progress,
    sheet: &Sheet,
    p: Place,
    next: Place,
    c: int,
)
    requires
        before.tracks(sheet, p, c),
        progress.active == before.active,
        progress.places == before.places,
        ties_tracked(sheet, progress.seen@, progress.seen_places@, next),
        forall|q: Place| precedes(q, next) <==> precedes(q, p) || q == p,
        !sheet.sounds(p),
    ensures
        progress.tracks(sheet, next, c),
{
    assert forall|v: int| 0 <= v < progress.active@.len() implies voice_tracked(
        sheet,
        (#[trigger] progress.active@[v])@,
        progress.places@[v],
        v,
        next,
        c,
    ) by {
        assert(voice_tracked(sheet, before.active@[v]@, before.places@[v], v, p, c));
    }
}

/// What is tracked depends on the cursor only through the notes before it.
proof fn lemma_cursor_moved(progress: &Progress, sheet: &Sheet, a: Place, b: Place, c: int)
    requires
        progress.tracks(sheet, a, c),
        forall|q: Place| #[trigger] sheet.holds(q) ==> (precedes(q, a) <==> precedes(q, b)),
    ensures
        progress.tracks(sheet, b, c),
{
    assert forall|v: int| 0 <= v < progress.active@.len() implies voice_tracked(
        sheet,
        (#[trigger] progress.active@[v])@,
        progress.places@[v],
        v,
        b,
        c,
    ) by {
        let places = progress.places@[v];
        assert(voice_tracked(sheet, progress.active@[v]@, places, v, a, c));
        assert forall|k: int| 0 <= k < places.len() implies precedes(#[trigger] places[k], b) by {
            assert(sheet.holds(places[k]));
        }
        assert forall|p: Place| #[trigger]
            sheet.sounds(p) && precedes(p, b) && sheet.lasts_to(p, c) && sheet.voice(p) == v implies places.contains(
            p,
        ) by {
            assert(sheet.holds(p));
        }
    }
    let seen_places = progress.seen_places@;
    assert forall|k: int| 0 <= k < seen_places.len() implies precedes(#[trigger] seen_places[k], b) by {
        assert(sheet.holds(seen_places[k]));
    }
    assert forall|q: Place| #[trigger] sheet.is_tied(q) && precedes(q, b) implies seen_places.contains(q) by {
        assert(sheet.holds(q));
    }
}

/// Whether a sound starts at step `c` at a note before `cursor`.
spec fn started(sheet: &Sheet, c: int, cursor: Place) -> bool {
    exists|p: Place| #[trigger] sheet.sounds(p) && p.step == c && precedes(p, cursor)
}

/// Takes in the notes of cursor step `c`. Returns whether a sound starts there.
fn take_step(
    progress: &mut Progress,
    step: &CursorStep,
    keys: &Vec<(u128, u128)>,
    now: &Time,
    Ghost(sheet): Ghost<&Sheet>,
    Ghost(c): Ghost<int>,
) -> (added: bool)
    requires
        sheet.well_formed(),
        0 <= c < sheet.steps@.len(),
        *step == sheet.steps@[c],
        ints_of(keys@) == sheet.voice_keys(),
        enumerates(ints_of(keys@), sheet.voice_key_set(), pair_lt()),
        now@ == sheet.time_at(c),
        now.small(),
        old(progress).tracks(sheet, place(c, 0, 0), c),
    ensures
        final(progress).tracks(sheet, place(c + 1, 0, 0), c),
        added == sheet.starts_sound(c),
{
    let mut added = false;
    let mut e: usize = 0;
    while e < step.voice_entries.len()
        invariant
            e <= step.voice_entries@.len(),
            sheet.well_formed(),
            0 <= c < sheet.steps@.len(),
            *step == sheet.steps@[c],
            ints_of(keys@) == sheet.voice_keys(),
            enumerates(ints_of(keys@), sheet.voice_key_set(), pair_lt()),
            now@ == sheet.time_at(c),
            now.small(),
            progress.tracks(sheet, place(c, e as int, 0), c),
            added == started(sheet, c, place(c, e as int, 0)),
        decreases step.voice_entries@.len() - e,
    {
        let entry = &step.voice_entries[e];
        assert(*entry == sheet.steps@[c].voice_entries@[e as int]);
        let voice = find_voice(keys, entry.staff_id, entry.voice_id, Ghost(sheet));
        let mut n: usize = 0;
        while n < entry.notes.len()
            invariant
                n <= entry.notes@.len(),
                e < step.voice_entries@.len(),
                sheet.well_formed(),
                0 <= c < sheet.steps@.len(),
                *step == sheet.steps@[c],
                *entry == sheet.steps@[c].voice_entries@[e as int],
                voice < keys@.len(),
                keys@.len() == sheet.voice_keys().len(),
                voice == sheet.voice_keys().index_of((entry.staff_id as int, entry.voice_id as int)),
                now@ == sheet.time_at(c),
                now.small(),
                progress.tracks(sheet, place(c, e as int, n as int), c),
                added == started(sheet, c, place(c, e as int, n as int)),
            decreases entry.notes@.len() - n,
        {
            let ghost p = place(c, e as int, n as int);
            let ghost next = place(c, e as int, n + 1);
            assert(sheet.holds(p));
            let started_here = progress.take_note(&entry.notes[n], voice, now, Ghost(sheet), Ghost(p));
            proof {
                assert forall|q: Place| precedes(q, next) <==> precedes(q, p) || q == p by {}
                if started(sheet, c, p) || started_here {
                    let w = if started_here {
                        p
                    } else {
                        choose|w: Place| #[trigger] sheet.sounds(w) && w.step == c && precedes(w, p)
                    };
                    assert(sheet.sounds(w) && w.step == c && precedes(w, next));
                }
            }
            added = added || started_here;
            n += 1;
        }
        proof {
            let a = place(c, e as int, n as int);
            let b = place(c, e + 1, 0);
            assert forall|q: Place| #[trigger] sheet.holds(q) implies (precedes(q, a) <==> precedes(q, b)) by {}
            lemma_cursor_moved(progress, sheet, a, b, c);
            if started(sheet, c, a) {
                let w = choose|w: Place| #[trigger] sheet.sounds(w) && w.step == c && precedes(w, a);
                assert(sheet.holds(w));
                assert(precedes(w, b));
            }
            if started(sheet, c, b) {
                let w = choose|w: Place| #[trigger] sheet.sounds(w) && w.step == c && precedes(w, b);
                assert(sheet.holds(w));
                assert(precedes(w, a));
            }
        }
        e += 1;
    }
    proof {
        let a = place(c, e as int, 0);
        let b = place(c + 1, 0, 0);
        assert forall|q: Place| #[trigger] sheet.holds(q) implies (precedes(q, a) <==> precedes(q, b)) by {}
        lemma_cursor_moved(progress, sheet, a, b, c);
        if started(sheet, c, a) {
            let w = choose|w: Place| #[trigger] sheet.sounds(w) && w.step == c && precedes(w, a);
            assert(sheet.starts_sound(c));
        }
        if sheet.starts_sound(c) {
            let w = choose|w: Place| #[trigger] sheet.sounds(w) && w.step == c;
            assert(sheet.holds(w));
            assert(precedes(w, a));
        }
    }
    added
}

/// The pitches that each voice is sounding, as bit sets.
fn pitch_sets(progress: &Progress, Ghost(sheet): Ghost<&Sheet>, Ghost(c): Ghost<int>) -> (sets: Vec<BitSet>)
    requires
        sheet.well_formed(),
        progress.tracks(sheet, place(c + 1, 0, 0), c),
    ensures
        sets@.len() == sheet.voice_keys().len(),
        forall|v: int| 0 <= v < sets@.len() ==> members(#[trigger] sets@[v]) == sheet.pitches(c, v),
{
    let mut sets: Vec<BitSet> = Vec::new();
    let mut v: usize = 0;
    while v < progress.active.len()
        invariant
            v <= progress.active@.len(),
            sets@.len() == v,
            sheet.well_formed(),
            progress.tracks(sheet, place(c + 1, 0, 0), c),
            forall|u: int| 0 <= u < v ==> members(#[trigger] sets@[u]) == sheet.pitches(c, u),
        decreases progress.active@.len() - v,
    {
        let sounds = &progress.active[v];
        let ghost places = progress.places@[v as int];
        assert(voice_tracked(sheet, progress.active@[v as int]@, places, v as int, place(c + 1, 0, 0), c));
        let mut numbers: Vec<usize> = Vec::new();
        let mut k: usize = 0;
        while k < sounds.len()
            invariant
                k <= sounds@.len(),
                numbers@.len() == k,
                sheet.well_formed(),
                voice_tracked(sheet, sounds@, places, v as int, place(c + 1, 0, 0), c),
                forall|j: int| 0 <= j < k ==> #[trigger] numbers@[j] == sheet.pitch(places[j]),
                forall|j: int| 0 <= j < k ==> #[trigger] numbers@[j] < usize::MAX,
            decreases sounds@.len() - k,
        {
            let ghost p = places[k as int];
            assert(sheet.sounds(p));
            assert(sheet.holds(p));
            assert(sheet.note_at(p).readable());
            numbers.push(sounds[k].0 as usize);
            k += 1;
        }
        let set = bit_set_of(&numbers);
        proof {
            assert forall|x: usize| members(set).contains(x) <==> sheet.pitches(c, v as int).contains(x) by {
                if members(set).contains(x) {
                    assert(numbers@.contains(x));
                    let j = choose|j: int| 0 <= j < numbers@.len() && numbers@[j] == x;
                    let p = places[j];
                    assert(sheet.sounds(p) && precedes(p, place(c + 1, 0, 0)));
                    assert(sheet.holds(p));
                    assert(sheet.sounding(p, c) && sheet.voice(p) == v && sheet.pitch(p) == x);
                }
                if sheet.pitches(c, v as int).contains(x) {
                    let p = choose|p: Place| #[trigger]
                        sheet.sounding(p, c) && sheet.voice(p) == v && sheet.pitch(p) == x;
                    assert(sheet.holds(p));
                    assert(precedes(p, place(c + 1, 0, 0)));
                    assert(sheet.sounds(p));
                    assert(places.contains(p));
                    let j = choose|j: int| 0 <= j < places.len() && places[j] == p;
                    assert(numbers@[j] == x);
                    assert(numbers@.contains(x));
                }
            }
            assert(members(set) =~= sheet.pitches(c, v as int));
        }
        sets.push(set);
        v += 1;
    }
    sets
}

impl SongData {
    /// Builds the slices of a score from the positions its cursor takes. The
    /// voices are the pairs of staff and voice that the staves declare. A note
    /// with a pitch starts a sound that lasts as long as the note; a tie sounds
    /// once, from its first note and for the length of the whole tie; rests sound
    /// nothing. There is a slice for every step at which a sound starts, with the
    /// pitches, twelve above the notes' half tones, that each voice is sounding.
    pub fn from_osmd(osmd: &Sheet) -> (song: SongData)
        requires
            osmd.well_formed(),
        ensures
            song.is_song_of(osmd),
    {
        let keys = voice_table(osmd);
        let voices = keys.len();
        let mut progress = Progress::new(voices, Ghost(osmd));
        let mut slices: Vec<TimeSlice> = Vec::new();
        let mut cursor_index: usize = 0;
        while cursor_index < osmd.steps.len()
            invariant
                cursor_index <= osmd.steps@.len(),
                osmd.well_formed(),
                voices == keys@.len(),
                ints_of(keys@) == osmd.voice_keys(),
                enumerates(ints_of(keys@), osmd.voice_key_set(), pair_lt()),
                progress.tracks(osmd, place(cursor_index as int, 0, 0), cursor_index - 1),
                slices@.len() == osmd.slice_steps(cursor_index as int).len(),
                forall|i: int|
                    0 <= i < slices@.len() ==> (#[trigger] slices@[i]).is_slice_of(
                        osmd,
                        osmd.slice_steps(cursor_index as int)[i],
                    ),
            decreases osmd.steps@.len() - cursor_index,
        {
            let step = &osmd.steps[cursor_index];
            let now = step.timestamp.to_rust_fraction().unwrap();
            progress.expire(&now, Ghost(osmd), Ghost(cursor_index as int));
            let added = take_step(&mut progress, step, &keys, &now, Ghost(osmd), Ghost(cursor_index as int));
            if added {
                let sets = pitch_sets(&progress, Ghost(osmd), Ghost(cursor_index as int));
                slices.push(TimeSlice::new(sets, cursor_index));
            }
            cursor_index += 1;
        }
        SongData { voices, slices }
    }
}

/// Building the slices of one sheet twice gives the same slices: as many, at the
/// same cursor steps, with the same pitches for every voice.
pub proof fn lemma_slices_determined(sheet: &Sheet, a: &SongData, b: &SongData)
    requires
        a.is_song_of(sheet),
        b.is_song_of(sheet),
    ensures
        a.voices == b.voices,
        a.slices@.len() == b.slices@.len(),
        forall|i: int|
            0 <= i < a.slices@.len() ==> (#[trigger] a.slices@[i]).cursor_index
                == b.slices@[i].cursor_index,
        forall|i: int, v: int|
            0 <= i < a.slices@.len() && 0 <= v < a.voices ==> a.slices@[i].notes_by_voice@.len()
                == a.voices && b.slices@[i].notes_by_voice@.len() == a.voices && members(
                #[trigger] a.slices@[i].notes_by_voice@[v],
            ) == members(b.slices@[i].notes_by_voice@[v]),
{
    let steps = sheet.slice_steps(sheet.steps@.len() as int);
    assert forall|i: int, v: int| 0 <= i < a.slices@.len() && 0 <= v < a.voices implies a.slices@[i].notes_by_voice@.len()
        == a.voices && b.slices@[i].notes_by_voice@.len() == a.voices && members(
        #[trigger] a.slices@[i].notes_by_voice@[v],
    ) == members(b.slices@[i].notes_by_voice@[v]) by {
        assert(a.slices@[i].is_slice_of(sheet, steps[i]));
        assert(b.slices@[i].is_slice_of(sheet, steps[i]));
    }
    assert forall|i: int| 0 <= i < a.slices@.len() implies (#[trigger] a.slices@[i]).cursor_index
        == b.slices@[i].cursor_index by {
        assert(a.slices@[i].is_slice_of(sheet, steps[i]));
        assert(b.slices@[i].is_slice_of(sheet, steps[i]));
    }
}

/// Of two notes of one tie, the later one starts no sound.
pub proof fn lemma_tie_sounds_once(sheet: &Sheet, p: Place, q: Place)
    requires
        sheet.is_tied(p),
        sheet.is_tied(q),
        precedes(p, q),
        sheet.note_at(p).tie.unwrap().same_tie(&sheet.note_at(q).tie.unwrap()),
    ensures
        !sheet.sounds(q),
{
    assert(sheet.continues_tie(q));
}

/// A tied note before which no note of its tie comes starts a sound, and the
/// sound lasts as long as the whole tie.
pub proof fn lemma_tie_sounds_whole(sheet: &Sheet, p: Place)
    requires
        sheet.is_tied(p),
        forall|q: Place|
            precedes(q, p) && #[trigger] sheet.is_tied(q) ==> !sheet.note_at(q).tie.unwrap().same_tie(
                &sheet.note_at(p).tie.unwrap(),
            ),
    ensures
        sheet.sounds(p),
        sheet.sound_length(p) == sheet.note_at(p).tie.unwrap().duration.ratio(),
        sheet.sound_end(p) == sheet.time_at(p.step).plus(sheet.note_at(p).tie.unwrap().duration.ratio()),
{
}

/// Being of one tie is an equivalence among ties whose fractions stand for numbers.
pub proof fn lemma_same_tie(a: &Tie, b: &Tie, c: &Tie)
    requires
        a.has_values(),
        b.has_values(),
        c.has_values(),
    ensures
        a.same_tie(a),
        a.same_tie(b) ==> b.same_tie(a),
        a.same_tie(b) && b.same_tie(c) ==> a.same_tie(c),
{
    lemma_tie_denominators(a);
    lemma_tie_denominators(b);
    lemma_tie_denominators(c);
    lemma_same_number(a.start(), b.start(), c.start());
    lemma_same_number(a.duration.ratio(), b.duration.ratio(), c.duration.ratio());
}

proof fn lemma_tie_denominators(tie: &Tie)
    requires
        tie.has_values(),
    ensures
        tie.start().den > 0,
        tie.duration.ratio().den > 0,
{
    assert(tie.measure_timestamp.denominator * tie.entry_timestamp.denominator > 0)
        by (nonlinear_arith)
        requires
            tie.measure_timestamp.denominator > 0,
            tie.entry_timestamp.denominator > 0,
    ;
}

/// Every tie sounds exactly once: for every tied note there is a note of its tie,
/// the note itself or one before it, that starts the tie's sound, and every other
/// note of the tie starts none.
pub proof fn lemma_tie_sounds_exactly_once(sheet: &Sheet, q: Place) -> (r: Place)
    requires
        sheet.well_formed(),
        sheet.is_tied(q),
    ensures
        sheet.is_tied(r),
        r == q || precedes(r, q),
        sheet.note_at(r).tie.unwrap().same_tie(&sheet.note_at(q).tie.unwrap()),
        sheet.sounds(r),
        sheet.sound_length(r) == sheet.note_at(r).tie.unwrap().duration.ratio(),
        forall|o: Place|
            #[trigger] sheet.is_tied(o) && o != r && sheet.note_at(o).tie.unwrap().same_tie(
                &sheet.note_at(q).tie.unwrap(),
            ) ==> !sheet.sounds(o),
    decreases q.step, q.entry, q.note,
{
    let tie = sheet.note_at(q).tie.unwrap();
    assert(sheet.note_at(q).readable());
    lemma_same_tie(&tie, &tie, &tie);
    if sheet.continues_tie(q) {
        let earlier = choose|e: Place|
            precedes(e, q) && #[trigger] sheet.is_tied(e) && sheet.note_at(e).tie.unwrap().same_tie(
                &sheet.note_at(q).tie.unwrap(),
            );
        let earlier_tie = sheet.note_at(earlier).tie.unwrap();
        assert(sheet.holds(earlier));
        assert(sheet.note_at(earlier).readable());
        let r = lemma_tie_sounds_exactly_once(sheet, earlier);
        let first = sheet.note_at(r).tie.unwrap();
        assert(sheet.holds(r));
        assert(sheet.note_at(r).readable());
        lemma_same_tie(&first, &earlier_tie, &tie);
        assert forall|o: Place|
            #[trigger] sheet.is_tied(o) && o != r && sheet.note_at(o).tie.unwrap().same_tie(&tie) implies !sheet.sounds(
            o,
        ) by {
            let other = sheet.note_at(o).tie.unwrap();
            assert(sheet.holds(o));
            assert(sheet.note_at(o).readable());
            lemma_same_tie(&other, &tie, &earlier_tie);
            lemma_same_tie(&tie, &earlier_tie, &tie);
            assert(other.same_tie(&earlier_tie));
        }
        r
    } else {
        assert forall|o: Place|
            #[trigger] sheet.is_tied(o) && o != q && sheet.note_at(o).tie.unwrap().same_tie(&tie) implies !sheet.sounds(
            o,
        ) by {
            let other = sheet.note_at(o).tie.unwrap();
            assert(sheet.holds(o));
            assert(sheet.note_at(o).readable());
            lemma_same_tie(&other, &tie, &tie);
            if precedes(o, q) {
                assert(sheet.continues_tie(q));
            } else {
                assert(precedes(q, o));
                assert(tie.same_tie(&other));
                assert(sheet.continues_tie(o));
            }
        }
        q
    }
}

/// The pairs of staff and voice that the first `n` staves declare, staff by staff.
spec fn declared_pairs(sheet: &Sheet, n: int) -> Seq<(int, int)>
    decreases n,
{
    if n <= 0 {
        Seq::empty()
    } else {
        declared_pairs(sheet, n - 1) + Seq::new(
            sheet.staves@[n - 1].voice_ids@.len(),
            |v: int| (sheet.staves@[n - 1].id as int, sheet.staves@[n - 1].voice_ids@[v] as int),
        )
    }
}

proof fn lemma_declared_pairs(sheet: &Sheet, n: int)
    requires
        0 <= n <= sheet.staves@.len(),
    ensures
        forall|k: (int, int)|
            declared_pairs(sheet, n).contains(k) <==> exists|s: int, v: int|
                0 <= s < n && 0 <= v < sheet.staves@[s].voice_ids@.len() && k == (
                    sheet.staves@[s].id as int,
                    #[trigger] sheet.staves@[s].voice_ids@[v] as int,
                ),
    decreases n,
{
    if n > 0 {
        lemma_declared_pairs(sheet, n - 1);
        let earlier = declared_pairs(sheet, n - 1);
        let staff = sheet.staves@[n - 1];
        let added = Seq::new(
            staff.voice_ids@.len(),
            |v: int| (sheet.staves@[n - 1].id as int, sheet.staves@[n - 1].voice_ids@[v] as int),
        );
        let all = declared_pairs(sheet, n);
        assert(all == earlier + added);
        assert forall|k: (int, int)| all.contains(k) <==> exists|s: int, v: int|
            0 <= s < n && 0 <= v < sheet.staves@[s].voice_ids@.len() && k == (
                sheet.staves@[s].id as int,
                #[trigger] sheet.staves@[s].voice_ids@[v] as int,
            ) by {
            if all.contains(k) {
                let i = choose|i: int| 0 <= i < all.len() && all[i] == k;
                if i < earlier.len() {
                    assert(earlier[i] == k);
                    assert(earlier.contains(k));
                } else {
                    let w = i - earlier.len();
                    assert(added[w] == k);
                    assert(k == (sheet.staves@[n - 1].id as int, sheet.staves@[n - 1].voice_ids@[w] as int));
                }
            }
            if exists|s: int, v: int|
                0 <= s < n && 0 <= v < sheet.staves@[s].voice_ids@.len() && k == (
                    sheet.staves@[s].id as int,
                    #[trigger] sheet.staves@[s].voice_ids@[v] as int,
                ) {
                let (a, w) = choose|s: int, v: int|
                    0 <= s < n && 0 <= v < sheet.staves@[s].voice_ids@.len() && k == (
                        sheet.staves@[s].id as int,
                        #[trigger] sheet.staves@[s].voice_ids@[v] as int,
                    );
                if a < n - 1 {
                    assert(earlier.contains(k));
                    let i = choose|i: int| 0 <= i < earlier.len() && earlier[i] == k;
                    assert(all[i] == k);
                } else {
                    assert(added[w] == k);
                    assert(all[earlier.len() + w] == k);
                }
            }
        }
    }
}

/// The voices of a sheet are the declared pairs of staff and voice, each once, in
/// ascending order; and every note of a well-formed sheet belongs to one of them.
pub proof fn lemma_voices_declared(sheet: &Sheet)
    ensures
        enumerates(sheet.voice_keys(), sheet.voice_key_set(), pair_lt()),
        sheet.well_formed() ==> forall|p: Place|
            #[trigger] sheet.holds(p) ==> 0 <= sheet.voice(p) < sheet.voice_keys().len(),
{
    let pairs = declared_pairs(sheet, sheet.staves@.len() as int);
    lemma_declared_pairs(sheet, sheet.staves@.len() as int);
    assert(Set::new(|k: (int, int)| pairs.contains(k)) =~= sheet.voice_key_set());
    lemma_integer_orders();
    lemma_listing_exists(pairs, pair_lt());
    if sheet.well_formed() {
        assert forall|p: Place| #[trigger] sheet.holds(p) implies 0 <= sheet.voice(p)
            < sheet.voice_keys().len() by {
            let entry = sheet.steps@[p.step].voice_entries@[p.entry];
            let key = (entry.staff_id as int, entry.voice_id as int);
            assert(sheet.voice_key_set().contains(key));
            assert(sheet.voice_keys().contains(key));
        }
    }
}

/// The slices of a score follow the cursor: the steps they stand at ascend, and
/// a sound starts at each of them.
pub proof fn lemma_slice_steps_ascend(sheet: &Sheet, n: int)
    ensures
        forall|i: int|
            0 <= i < sheet.slice_steps(n).len() ==> 0 <= (#[trigger] sheet.slice_steps(n)[i]) < n
                && sheet.starts_sound(sheet.slice_steps(n)[i]),
        forall|i: int, j: int|
            0 <= i < j < sheet.slice_steps(n).len() ==> (#[trigger] sheet.slice_steps(n)[i]) < (
            #[trigger] sheet.slice_steps(n)[j]),
        forall|c: int| 0 <= c < n && #[trigger] sheet.starts_sound(c) ==> sheet.slice_steps(n).contains(c),
    decreases n,
{
    if n > 0 {
        lemma_slice_steps_ascend(sheet, n - 1);
        let before = sheet.slice_steps(n - 1);
        let now = sheet.slice_steps(n);
        assert forall|c: int| 0 <= c < n && #[trigger] sheet.starts_sound(c) implies now.contains(c) by {
            if c < n - 1 {
                assert(before.contains(c));
                let i = choose|i: int| 0 <= i < before.len() && before[i] == c;
                assert(now[i] == c);
            } else {
                assert(now[before.len() as int] == c);
            }
        }
    }
}

} // verus!
