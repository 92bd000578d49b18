//! Which notes to start when a position of the song is triggered.

use crate::bits::{bits_in_order, has_bit, members};
use crate::ordering::{enumerates, in_order, lemma_in_order, lemma_integer_orders, usize_lt};
use crate::song_data::{SongData, TimeSlice};
use bit_set::BitSet;
use vstd::prelude::*;

verus! {

/// A note to start: its pitch, and the voice through whose gain it is to sound.
#[derive(Clone, Copy, Debug, PartialEq, Eq, Structural)]
pub struct NoteStart {
    pub voice: usize,
    pub pitch: usize,
}

/// The notes of voice `v` of a slice, from the lowest pitch to the highest.
pub open spec fn voice_starts(slice: &TimeSlice, v: int) -> Seq<NoteStart> {
    in_order(members(slice.notes_by_voice@[v]), usize_lt()).map_values(
        |pitch: usize| NoteStart { voice: v as usize, pitch },
    )
}

/// Whether voice `v` is played: it is among the active voices and has a gain.
pub open spec fn plays(active: Set<usize>, gains: int, v: int) -> bool {
    0 <= v < gains && active.contains(v as usize)
}

/// The notes to start for the first `n` voices of a slice: voice by voice, the
/// notes of every voice that is played. A voice that is not played adds nothing.
pub open spec fn starts_upto(slice: &TimeSlice, active: Set<usize>, gains: int, n: int) -> Seq<
    NoteStart,
>
    decreases n,
{
    if n <= 0 {
        Seq::empty()
    } else if plays(active, gains, n - 1) {
        starts_upto(slice, active, gains, n - 1) + voice_starts(slice, n - 1)
    } else {
        starts_upto(slice, active, gains, n - 1)
    }
}

/// Whether a note is one of a voice of the slice that is played, with a pitch
/// that the voice holds in the slice.
pub open spec fn is_played_note(slice: &TimeSlice, active: Set<usize>, gains: int, start: NoteStart) -> bool {
    &&& start.voice < slice.notes_by_voice@.len()
    &&& plays(active, gains, start.voice as int)
    &&& members(slice.notes_by_voice@[start.voice as int]).contains(start.pitch)
}

/// The notes to start for a slice.
pub open spec fn starts(slice: &TimeSlice, active: Set<usize>, gains: int) -> Seq<NoteStart> {
    starts_upto(slice, active, gains, slice.notes_by_voice@.len() as int)
}

/// The number of voices that the instrument gives a gain of their own.
pub const VOICE_GAINS: usize = 4;

/// The song that is loaded, and how many voices can sound.
#[derive(Debug)]
pub struct PlaybackManager {
    voice_gains: usize,
    song_data: Option<SongData>,
}

impl PlaybackManager {
    /// The number of voices that have a gain; the notes of any other voice are
    /// not played.
    pub closed spec fn voice_gains(&self) -> usize {
        self.voice_gains
    }

    /// The song that is loaded, if any.
    pub closed spec fn song_data(&self) -> Option<SongData> {
        self.song_data
    }

    /// A manager without a song, for the given number of voice gains.
    pub fn new(voice_gains: usize) -> (manager: PlaybackManager)
        ensures
            manager.voice_gains() == voice_gains,
            manager.song_data() is None,
    {
        PlaybackManager { voice_gains, song_data: None }
    }

    /// The number of voices that have a gain.
    pub fn voice_gain_count(&self) -> (n: usize)
        ensures
            n == self.voice_gains(),
    {
        self.voice_gains
    }

    /// Whether a voice has a gain. Setting the gain of a voice that has none
    /// does nothing.
    pub fn has_voice_gain(&self, voice: usize) -> (r: bool)
        ensures
            r == (voice < self.voice_gains()),
    {
        voice < self.voice_gains
    }

    /// Puts a song in the place of the one that was loaded.
    pub fn set_song_data(&mut self, song_data: SongData)
        ensures
            final(self).song_data() == Some(song_data),
            final(self).voice_gains() == old(self).voice_gains(),
    {
        self.song_data = Some(song_data);
    }

    /// The notes to start at a position of the song, and the cursor index of the
    /// position. `None` where no song is loaded or the song has no such position.
    /// Only voices in `active_voices` that have a gain are played; every other
    /// voice is left out altogether.
    pub fn start_notes_at_relative_index(&self, song_index: usize, active_voices: &BitSet) -> (r:
        Option<(usize, Vec<NoteStart>)>)
        ensures
            r is None <==> (self.song_data() is None || song_index
                >= self.song_data().unwrap().slices@.len()),
            r matches Some((cursor_index, notes)) ==> {
                let slice = self.song_data().unwrap().slices@[song_index as int];
                &&& cursor_index == slice.cursor_index
                &&& notes@ == starts(&slice, members(*active_voices), self.voice_gains() as int)
                &&& forall|k: int|
                    0 <= k < notes@.len() ==> is_played_note(
                        &slice,
                        members(*active_voices),
                        self.voice_gains() as int,
                        #[trigger] notes@[k],
                    )
                &&& forall|start: NoteStart|
                    is_played_note(&slice, members(*active_voices), self.voice_gains() as int, start)
                        ==> #[trigger] notes@.contains(start)
            },
    {
        let song = match &self.song_data {
            Some(song) => song,
            None => { return None; },
        };
        if song_index >= song.slices.len() {
            return None;
        }
        let slice = &song.slices[song_index];
        let ghost active = members(*active_voices);
        let ghost gains = self.voice_gains as int;
        let mut notes: Vec<NoteStart> = Vec::new();
        let mut voice: usize = 0;
        while voice < slice.notes_by_voice.len()
            invariant
                voice <= slice.notes_by_voice@.len(),
                active == members(*active_voices),
                gains == self.voice_gains,
                notes@ == starts_upto(slice, active, gains, voice as int),
                forall|k: int| 0 <= k < notes@.len() ==> is_played_note(slice, active, gains, #[trigger] notes@[k]),
                forall|start: NoteStart|
                    is_played_note(slice, active, gains, start) && start.voice < voice
                        ==> #[trigger] notes@.contains(start),
            decreases slice.notes_by_voice@.len() - voice,
        {
            if has_bit(active_voices, voice) && voice < self.voice_gains {
                let pitches = bits_in_order(&slice.notes_by_voice[voice]);
                proof {
                    lemma_integer_orders();
                    assert(enumerates(pitches@, members(slice.notes_by_voice@[voice as int]), usize_lt()));
                    lemma_in_order(pitches@, members(slice.notes_by_voice@[voice as int]), usize_lt());
                }
                let ghost before = notes@;
                let mut k: usize = 0;
                while k < pitches.len()
                    invariant
                        k <= pitches@.len(),
                        voice < slice.notes_by_voice@.len(),
                        pitches@ == in_order(members(slice.notes_by_voice@[voice as int]), usize_lt()),
                        notes@ == before + voice_starts(slice, voice as int).take(k as int),
                        plays(active, gains, voice as int),
                        forall|x: usize|
                            pitches@.contains(x) <==> members(slice.notes_by_voice@[voice as int]).contains(x),
                        forall|j: int| 0 <= j < notes@.len() ==> is_played_note(slice, active, gains, #[trigger] notes@[j]),
                        forall|j: int| 0 <= j < before.len() ==> notes@[j] == before[j],
                        forall|j: int|
                            0 <= j < k ==> notes@.contains(
                                NoteStart { voice, pitch: #[trigger] pitches@[j] },
                            ),
                    decreases pitches@.len() - k,
                {
                    let ghost so_far = notes@;
                    notes.push(NoteStart { voice, pitch: pitches[k] });
                    proof {
                        assert(pitches@.contains(pitches@[k as int]));
                        assert forall|j: int| 0 <= j < k + 1 implies notes@.contains(
                            NoteStart { voice, pitch: #[trigger] pitches@[j] },
                        ) by {
                            let wanted = NoteStart { voice, pitch: pitches@[j] };
                            if j < k {
                                assert(so_far.contains(wanted));
                                let at = choose|at: int| 0 <= at < so_far.len() && so_far[at] == wanted;
                                assert(notes@[at] == wanted);
                            } else {
                                assert(notes@[so_far.len() as int] == wanted);
                            }
                        }
                        let all = voice_starts(slice, voice as int);
                        assert(all.take(k + 1) =~= all.take(k as int).push(all[k as int]));
                        assert(notes@ =~= before + all.take(k + 1));
                    }
                    k += 1;
                }
                proof {
                    let all = voice_starts(slice, voice as int);
                    assert(all.take(k as int) =~= all);
                    assert forall|start: NoteStart|
                        is_played_note(slice, active, gains, start) && start.voice < voice + 1 implies #[trigger] notes@.contains(
                        start,
                    ) by {
                        if start.voice < voice {
                            assert(before.contains(start));
                            let at = choose|at: int| 0 <= at < before.len() && before[at] == start;
                            assert(notes@[at] == start);
                        } else {
                            assert(pitches@.contains(start.pitch));
                            let j = choose|j: int| 0 <= j < pitches@.len() && pitches@[j] == start.pitch;
                            assert(notes@.contains(NoteStart { voice, pitch: pitches@[j] }));
                        }
                    }
                }
            }
            voice += 1;
        }
        Some((slice.cursor_index, notes))
    }

    /// The number of positions of the song. `None` where no song is loaded.
    pub fn song_len(&self) -> (r: Option<usize>)
        ensures
            r is None <==> self.song_data() is None,
            r matches Some(len) ==> len == self.song_data().unwrap().slices@.len(),
    {
        match &self.song_data {
            Some(song) => Some(song.slices.len()),
            None => None,
        }
    }

    /// The index of the last position of the song. `None` where no song is loaded.
    /// A song that is loaded must have a position.
    pub fn max_song_index(&self) -> (r: Option<usize>)
        requires
            self.song_data() matches Some(song) ==> song.slices@.len() > 0,
        ensures
            r is None <==> self.song_data() is None,
            r matches Some(index) ==> index == self.song_data().unwrap().slices@.len() - 1,
    {
        match &self.song_data {
            Some(song) => Some(song.slices.len() - 1),
            None => None,
        }
    }

    /// The cursor index of a position of the song. `None` where no song is loaded
    /// or the song has no such position.
    pub fn cursor_index_for_song_index(&self, song_index: usize) -> (r: Option<usize>)
        ensures
            r is None <==> (self.song_data() is None || song_index
                >= self.song_data().unwrap().slices@.len()),
            r matches Some(cursor_index) ==> cursor_index
                == self.song_data().unwrap().slices@[song_index as int].cursor_index,
    {
        match &self.song_data {
            Some(song) => {
                if song_index < song.slices.len() {
                    Some(song.slices[song_index].cursor_index)
                } else {
                    None
                }
            },
            None => None,
        }
    }
}

} // verus!
