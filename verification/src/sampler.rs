//! Which recorded sample plays a note. Samples exist for some notes only; any
//! other note is played from the nearest sample, shifted in pitch.

use crate::note_name::{midi_note, note_name_to_midi_note};
use vstd::prelude::*;
use vstd::string::StringSliceAdditionalSpecFns;

verus! {

/// How far two notes are apart, in semitones.
pub open spec fn distance(a: int, b: int) -> int {
    if a >= b {
        a - b
    } else {
        b - a
    }
}

/// Whether `sample` is the sample to play `note` from: one of the notes that
/// have a sample, none of which is nearer to `note`; of two that are equally
/// near, the higher one.
pub open spec fn is_nearest(samples: Seq<i32>, note: int, sample: int) -> bool {
    &&& exists|i: int| 0 <= i < samples.len() && #[trigger] samples[i] == sample
    &&& forall|i: int|
        0 <= i < samples.len() ==> distance(#[trigger] samples[i] as int, note) > distance(sample, note)
            || (distance(samples[i] as int, note) == distance(sample, note) && samples[i] <= sample)
}

/// The notes that have a sample.
#[derive(Clone, Debug)]
pub struct Sampler {
    notes: Vec<i32>,
}

impl View for Sampler {
    type V = Seq<i32>;

    closed spec fn view(&self) -> Seq<i32> {
        self.notes@
    }
}

impl Sampler {
    /// A sampler for samples named by their notes, such as `A0` or `D#4`. `None`
    /// where a name is not a note name.
    pub fn initialize(note_names: &[&str]) -> (r: Option<Sampler>)
        ensures
            r is Some <==> forall|i: int|
                0 <= i < note_names@.len() ==> midi_note((#[trigger] note_names@[i]).spec_bytes()) is Some,
            r matches Some(sampler) ==> sampler@.len() == note_names@.len() && forall|i: int|
                0 <= i < note_names@.len() ==> midi_note((#[trigger] note_names@[i]).spec_bytes())
                    == Some(sampler@[i] as int),
    {
        let mut notes: Vec<i32> = Vec::new();
        let mut i: usize = 0;
        while i < note_names.len()
            invariant
                i <= note_names@.len(),
                notes@.len() == i,
                forall|j: int|
                    0 <= j < i ==> midi_note((#[trigger] note_names@[j]).spec_bytes()) == Some(
                        notes@[j] as int,
                    ),
            decreases note_names@.len() - i,
        {
            match note_name_to_midi_note(note_names[i]) {
                Some(note) => notes.push(note),
                None => {
                    return None;
                },
            }
            i += 1;
        }
        Some(Sampler { notes })
    }

    /// The number of notes that have a sample.
    pub fn sample_count(&self) -> (n: usize)
        ensures
            n == self@.len(),
    {
        self.notes.len()
    }

    /// The sample to play a note from, and by how many semitones the sample is
    /// to be shifted: the note less the sample's note. There must be a sample.
    pub fn nearest_sample(&self, midi_note: i32) -> (r: (i32, i64))
        requires
            self@.len() > 0,
        ensures
            is_nearest(self@, midi_note as int, r.0 as int),
            r.1 == midi_note - r.0,
    {
        let mut best: i32 = self.notes[0];
        let mut i: usize = 1;
        assert(self.notes@.take(1)[0] == best);
        while i < self.notes.len()
            invariant
                1 <= i <= self.notes@.len(),
                is_nearest(self.notes@.take(i as int), midi_note as int, best as int),
            decreases self.notes@.len() - i,
        {
            let candidate = self.notes[i];
            let far = gap(candidate, midi_note);
            let best_far = gap(best, midi_note);
            let ghost before = best;
            if far < best_far || (far == best_far && candidate >= best) {
                best = candidate;
            }
            proof {
                let seen = self.notes@.take(i as int);
                let grown = self.notes@.take(i + 1);
                let at = choose|at: int| 0 <= at < seen.len() && #[trigger] seen[at] == before;
                assert(grown[at] == before);
                assert(grown[i as int] == candidate);
                assert forall|j: int| 0 <= j < grown.len() implies distance(
                    #[trigger] grown[j] as int,
                    midi_note as int,
                ) > distance(best as int, midi_note as int) || (distance(
                    grown[j] as int,
                    midi_note as int,
                ) == distance(best as int, midi_note as int) && grown[j] <= best) by {
                    if j < i {
                        assert(seen[j] == grown[j]);
                    }
                }
            }
            i += 1;
        }
        assert(self.notes@.take(i as int) =~= self.notes@);
        (best, midi_note as i64 - best as i64)
    }
}

/// How far a note is from another.
fn gap(a: i32, b: i32) -> (r: i64)
    ensures
        r == distance(a as int, b as int),
{
    if a >= b {
        a as i64 - b as i64
    } else {
        b as i64 - a as i64
    }
}

} // verus!
