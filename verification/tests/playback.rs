use bit_set::BitSet;
use magic_piano::playback_manager::{NoteStart, PlaybackManager};
use magic_piano::sampler::Sampler;
use magic_piano::song_data::{SongData, TimeSlice};

fn set(numbers: &[usize]) -> BitSet {
    numbers.iter().copied().collect()
}

fn slice(cursor_index: usize, voices: &[&[usize]]) -> TimeSlice {
    TimeSlice { notes_by_voice: voices.iter().map(|pitches| set(pitches)).collect(), cursor_index }
}

fn ten_slice_song() -> SongData {
    let mut slices = Vec::new();
    for i in 0..10 {
        if i == 5 {
            slices.push(slice(12, &[&[64, 60], &[67], &[]]));
        } else {
            slices.push(slice(2 * i, &[&[50 + i], &[40 + i], &[30 + i]]));
        }
    }
    SongData { voices: 3, slices }
}

fn manager_with_song() -> PlaybackManager {
    let mut manager = PlaybackManager::new(4);
    manager.set_song_data(ten_slice_song());
    manager
}

fn start(voice: usize, pitch: usize) -> NoteStart {
    NoteStart { voice, pitch }
}

#[test]
fn only_active_voices_are_played() {
    let manager = manager_with_song();
    let (cursor_index, notes) = manager.start_notes_at_relative_index(5, &set(&[0, 2])).unwrap();
    assert_eq!(cursor_index, 12);
    assert_eq!(notes, vec![start(0, 60), start(0, 64)]);
}

#[test]
fn index_past_the_song_gives_nothing() {
    let manager = manager_with_song();
    assert!(manager.start_notes_at_relative_index(999, &set(&[0, 1, 2])).is_none());
    assert!(manager.start_notes_at_relative_index(10, &set(&[0, 1, 2])).is_none());
    assert!(manager.start_notes_at_relative_index(9, &set(&[0, 1, 2])).is_some());
}

#[test]
fn nothing_is_played_before_a_song_is_loaded() {
    let manager = PlaybackManager::new(4);
    assert!(manager.start_notes_at_relative_index(0, &set(&[0])).is_none());
    assert_eq!(manager.max_song_index(), None);
    assert_eq!(manager.cursor_index_for_song_index(0), None);
    assert_eq!(manager.voice_gain_count(), 4);
}

#[test]
fn an_excluded_voice_never_sounds() {
    let manager = manager_with_song();
    for excluded in 0..3usize {
        let active: Vec<usize> = (0..3).filter(|v| *v != excluded).collect();
        for index in 0..10 {
            let (_, notes) = manager.start_notes_at_relative_index(index, &set(&active)).unwrap();
            assert!(notes.iter().all(|note| note.voice != excluded));
        }
    }
    let (_, notes) = manager.start_notes_at_relative_index(5, &BitSet::new()).unwrap();
    assert!(notes.is_empty());
}

#[test]
fn all_voices_play_voice_by_voice_from_the_lowest_pitch() {
    let manager = manager_with_song();
    let (_, notes) = manager.start_notes_at_relative_index(5, &set(&[2, 1, 0, 7])).unwrap();
    assert_eq!(notes, vec![start(0, 60), start(0, 64), start(1, 67)]);
}

#[test]
fn voices_without_a_gain_are_left_out() {
    let mut manager = PlaybackManager::new(2);
    manager.set_song_data(ten_slice_song());
    let (_, notes) = manager.start_notes_at_relative_index(0, &set(&[0, 1, 2])).unwrap();
    assert_eq!(notes, vec![start(0, 50), start(1, 40)]);
}

#[test]
fn a_new_song_takes_the_place_of_the_old() {
    let mut manager = manager_with_song();
    manager.set_song_data(SongData { voices: 1, slices: vec![slice(3, &[&[72]])] });
    assert_eq!(manager.max_song_index(), Some(0));
    let (cursor_index, notes) = manager.start_notes_at_relative_index(0, &set(&[0])).unwrap();
    assert_eq!((cursor_index, notes), (3, vec![start(0, 72)]));
    assert!(manager.start_notes_at_relative_index(5, &set(&[0])).is_none());
}

#[test]
fn lookups_for_the_cursor() {
    let manager = manager_with_song();
    assert_eq!(manager.max_song_index(), Some(9));
    assert_eq!(manager.cursor_index_for_song_index(5), Some(12));
    assert_eq!(manager.cursor_index_for_song_index(9), Some(18));
    assert_eq!(manager.cursor_index_for_song_index(10), None);
}

#[test]
fn sampler_reads_note_names() {
    let sampler = Sampler::initialize(&["A0", "C1", "D#1", "F#1"]).unwrap();
    assert_eq!(sampler.sample_count(), 4);
    assert!(Sampler::initialize(&["A0", "H1"]).is_none());
    assert_eq!(Sampler::initialize(&[]).unwrap().sample_count(), 0);
}

#[test]
fn nearest_sample_and_its_shift() {
    // Samples at 21, 24, 27, 30.
    let sampler = Sampler::initialize(&["A0", "C1", "D#1", "F#1"]).unwrap();
    assert_eq!(sampler.nearest_sample(24), (24, 0));
    assert_eq!(sampler.nearest_sample(25), (24, 1));
    assert_eq!(sampler.nearest_sample(26), (27, -1));
    assert_eq!(sampler.nearest_sample(0), (21, -21));
    assert_eq!(sampler.nearest_sample(100), (30, 70));
    assert_eq!(sampler.nearest_sample(i32::MIN), (21, i32::MIN as i64 - 21));
    assert_eq!(sampler.nearest_sample(i32::MAX), (30, i32::MAX as i64 - 30));
}

#[test]
fn of_two_samples_equally_near_the_higher_is_taken() {
    // Samples at 60 and 64; 62 lies in the middle.
    let sampler = Sampler::initialize(&["E4", "C4"]).unwrap();
    assert_eq!(sampler.nearest_sample(62), (64, -2));
    let sampler = Sampler::initialize(&["C4", "E4", "C4"]).unwrap();
    assert_eq!(sampler.nearest_sample(62), (64, -2));
    assert_eq!(sampler.nearest_sample(61), (60, 1));
}
