use magic_piano::song_data::{CursorStep, Note, Sheet, SongData, Staff, Tie, VoiceEntry};
use magic_piano::timestamp::Fraction;

fn frac(whole_value: u32, numerator: u32, denominator: u32) -> Fraction {
    Fraction { numerator, denominator, whole_value }
}

fn note(half_tone: u32, length: Fraction) -> Note {
    Note { half_tone: Some(half_tone), length, tie: None }
}

fn rest(length: Fraction) -> Note {
    Note { half_tone: None, length, tie: None }
}

fn tied(half_tone: u32, length: Fraction, tie: Tie) -> Note {
    Note { half_tone: Some(half_tone), length, tie: Some(tie) }
}

fn entry(staff_id: u32, voice_id: u32, notes: Vec<Note>) -> VoiceEntry {
    VoiceEntry { staff_id, voice_id, notes }
}

fn step(timestamp: Fraction, voice_entries: Vec<VoiceEntry>) -> CursorStep {
    CursorStep { timestamp, voice_entries }
}

fn one_staff() -> Vec<Staff> {
    vec![Staff { id: 0, voice_ids: vec![1] }]
}

fn slices(song: &SongData) -> Vec<(usize, Vec<Vec<usize>>)> {
    song.slices
        .iter()
        .map(|s| (s.cursor_index, s.notes_by_voice.iter().map(|set| set.iter().collect()).collect()))
        .collect()
}

fn quarter() -> Fraction {
    frac(0, 1, 4)
}

#[test]
fn pitches_are_twelve_above_the_half_tone() {
    let sheet = Sheet { staves: one_staff(), steps: vec![step(frac(0, 0, 1), vec![entry(0, 1, vec![note(48, quarter())])])] };
    assert!(sheet.is_well_formed());
    let song = SongData::from_osmd(&sheet);
    assert_eq!(song.voices, 1);
    assert_eq!(slices(&song), vec![(0, vec![vec![60]])]);
}

#[test]
fn a_note_sounds_until_its_end() {
    // A half note over two quarters in a second voice.
    let sheet = Sheet {
        staves: vec![Staff { id: 0, voice_ids: vec![1, 2] }],
        steps: vec![
            step(frac(0, 0, 1), vec![entry(0, 1, vec![note(48, frac(0, 1, 2))]), entry(0, 2, vec![note(36, quarter())])]),
            step(frac(0, 1, 4), vec![entry(0, 2, vec![note(38, quarter())])]),
            step(frac(0, 1, 2), vec![entry(0, 1, vec![note(50, frac(0, 1, 2))])]),
        ],
    };
    let song = SongData::from_osmd(&sheet);
    assert_eq!(
        slices(&song),
        vec![(0, vec![vec![60], vec![48]]), (1, vec![vec![60], vec![50]]), (2, vec![vec![62], vec![]])]
    );
}

#[test]
fn a_sound_that_ends_at_the_step_is_over() {
    let sheet = Sheet {
        staves: one_staff(),
        steps: vec![
            step(frac(0, 0, 1), vec![entry(0, 1, vec![note(48, quarter())])]),
            step(frac(0, 1, 4), vec![entry(0, 1, vec![note(50, quarter())])]),
        ],
    };
    let song = SongData::from_osmd(&sheet);
    assert_eq!(slices(&song), vec![(0, vec![vec![60]]), (1, vec![vec![62]])]);
}

#[test]
fn steps_without_a_new_note_give_no_slice() {
    let sheet = Sheet {
        staves: one_staff(),
        steps: vec![
            step(frac(0, 0, 1), vec![entry(0, 1, vec![note(48, quarter())])]),
            step(frac(0, 1, 4), vec![entry(0, 1, vec![rest(quarter())])]),
            step(frac(0, 1, 2), vec![]),
            step(frac(0, 3, 4), vec![entry(0, 1, vec![note(50, quarter())])]),
        ],
    };
    let song = SongData::from_osmd(&sheet);
    assert_eq!(slices(&song), vec![(0, vec![vec![60]]), (3, vec![vec![62]])]);
}

#[test]
fn a_tie_sounds_once_for_its_whole_length() {
    // A quarter tied to a quarter, above two quarters of another voice.
    let tie = Tie {
        measure_timestamp: frac(0, 0, 1),
        entry_timestamp: frac(0, 0, 1),
        voice_id: 1,
        half_tone: 48,
        duration: frac(0, 1, 2),
    };
    let sheet = Sheet {
        staves: vec![Staff { id: 0, voice_ids: vec![1] }, Staff { id: 1, voice_ids: vec![1] }],
        steps: vec![
            step(frac(0, 0, 1), vec![entry(0, 1, vec![tied(48, quarter(), tie)]), entry(1, 1, vec![note(36, quarter())])]),
            step(frac(0, 1, 4), vec![entry(0, 1, vec![tied(48, quarter(), tie)]), entry(1, 1, vec![note(38, quarter())])]),
            step(frac(0, 1, 2), vec![entry(1, 1, vec![note(40, quarter())])]),
        ],
    };
    let song = SongData::from_osmd(&sheet);
    assert_eq!(song.voices, 2);
    assert_eq!(
        slices(&song),
        vec![(0, vec![vec![60], vec![48]]), (1, vec![vec![60], vec![50]]), (2, vec![vec![], vec![52]])]
    );
}

#[test]
fn the_same_tie_is_known_by_its_value_not_its_spelling() {
    // The second note writes the same start and length with other fractions.
    let first = Tie {
        measure_timestamp: frac(1, 0, 1),
        entry_timestamp: frac(0, 1, 2),
        voice_id: 1,
        half_tone: 48,
        duration: frac(0, 3, 4),
    };
    let second = Tie {
        measure_timestamp: frac(0, 4, 4),
        entry_timestamp: frac(0, 2, 4),
        voice_id: 1,
        half_tone: 48,
        duration: frac(0, 6, 8),
    };
    let sheet = Sheet {
        staves: one_staff(),
        steps: vec![
            step(frac(1, 1, 2), vec![entry(0, 1, vec![tied(48, frac(0, 1, 2), first)])]),
            step(frac(2, 0, 1), vec![entry(0, 1, vec![tied(48, quarter(), second), note(55, quarter())])]),
        ],
    };
    let song = SongData::from_osmd(&sheet);
    // The tie's sound lasts to 2 1/4, so it is still on at step 1; the second
    // tied note adds nothing.
    assert_eq!(slices(&song), vec![(0, vec![vec![60]]), (1, vec![vec![60, 67]])]);
    assert_eq!(song.slices[1].notes_by_voice[0].len(), 2);
}

#[test]
fn ties_that_differ_in_any_part_are_different() {
    let base = Tie {
        measure_timestamp: frac(0, 0, 1),
        entry_timestamp: frac(0, 0, 1),
        voice_id: 1,
        half_tone: 48,
        duration: frac(1, 0, 1),
    };
    let variants = [
        Tie { measure_timestamp: frac(0, 1, 4), ..base },
        Tie { entry_timestamp: frac(0, 1, 8), ..base },
        Tie { voice_id: 2, ..base },
        Tie { half_tone: 49, ..base },
        Tie { duration: frac(0, 1, 2), ..base },
    ];
    for other in variants {
        let sheet = Sheet {
            staves: one_staff(),
            steps: vec![
                step(frac(0, 0, 1), vec![entry(0, 1, vec![tied(48, quarter(), base)])]),
                step(frac(0, 1, 4), vec![entry(0, 1, vec![tied(50, quarter(), other)])]),
            ],
        };
        let song = SongData::from_osmd(&sheet);
        assert_eq!(song.slices.len(), 2);
        assert_eq!(slices(&song)[1], (1, vec![vec![60, 62]]));
    }
}

#[test]
fn a_tied_rest_does_not_start_the_tie() {
    let tie = Tie {
        measure_timestamp: frac(0, 0, 1),
        entry_timestamp: frac(0, 0, 1),
        voice_id: 1,
        half_tone: 48,
        duration: frac(0, 1, 2),
    };
    let resting = Note { half_tone: None, length: quarter(), tie: Some(tie) };
    let sheet = Sheet {
        staves: one_staff(),
        steps: vec![
            step(frac(0, 0, 1), vec![entry(0, 1, vec![resting])]),
            step(frac(0, 1, 4), vec![entry(0, 1, vec![tied(48, quarter(), tie)])]),
        ],
    };
    let song = SongData::from_osmd(&sheet);
    assert_eq!(slices(&song), vec![(1, vec![vec![60]])]);
}

#[test]
fn voices_are_ordered_by_staff_then_voice() {
    let sheet = Sheet {
        staves: vec![
            Staff { id: 2, voice_ids: vec![5, 1, 5] },
            Staff { id: 1, voice_ids: vec![3] },
            Staff { id: 2, voice_ids: vec![1] },
        ],
        steps: vec![step(
            frac(0, 0, 1),
            vec![
                entry(2, 5, vec![note(10, quarter())]),
                entry(1, 3, vec![note(11, quarter())]),
                entry(2, 1, vec![note(12, quarter()), note(13, quarter())]),
            ],
        )],
    };
    let song = SongData::from_osmd(&sheet);
    assert_eq!(song.voices, 3);
    assert_eq!(slices(&song), vec![(0, vec![vec![23], vec![24, 25], vec![22]])]);
}

#[test]
fn an_empty_score_has_no_slices() {
    let song = SongData::from_osmd(&Sheet { staves: vec![], steps: vec![] });
    assert_eq!(song.voices, 0);
    assert!(song.slices.is_empty());
    let song = SongData::from_osmd(&Sheet { staves: one_staff(), steps: vec![step(frac(0, 0, 1), vec![])] });
    assert_eq!(song.voices, 1);
    assert!(song.slices.is_empty());
}

#[test]
fn the_same_pitch_twice_in_a_voice_is_one_pitch() {
    let sheet = Sheet {
        staves: one_staff(),
        steps: vec![
            step(frac(0, 0, 1), vec![entry(0, 1, vec![note(48, frac(1, 0, 1))])]),
            step(frac(0, 1, 2), vec![entry(0, 1, vec![note(48, quarter())])]),
        ],
    };
    let song = SongData::from_osmd(&sheet);
    assert_eq!(slices(&song), vec![(0, vec![vec![60]]), (1, vec![vec![60]])]);
}

#[test]
fn a_sound_is_over_once_a_step_has_reached_its_end() {
    // The cursor jumps back for a repeat: the first note ended at 1/4 and does
    // not come back when the cursor is before 1/4 again.
    let sheet = Sheet {
        staves: one_staff(),
        steps: vec![
            step(frac(0, 0, 1), vec![entry(0, 1, vec![note(48, quarter())])]),
            step(frac(0, 1, 4), vec![entry(0, 1, vec![note(50, quarter())])]),
            step(frac(0, 0, 1), vec![entry(0, 1, vec![note(52, quarter())])]),
        ],
    };
    let song = SongData::from_osmd(&sheet);
    assert_eq!(slices(&song), vec![(0, vec![vec![60]]), (1, vec![vec![62]]), (2, vec![vec![62, 64]])]);
}

#[test]
fn building_twice_gives_the_same_slices() {
    let tie = Tie {
        measure_timestamp: frac(3, 0, 1),
        entry_timestamp: frac(0, 1, 3),
        voice_id: 1,
        half_tone: 30,
        duration: frac(0, 2, 3),
    };
    let sheet = Sheet {
        staves: vec![Staff { id: 0, voice_ids: vec![1, 2] }],
        steps: vec![
            step(frac(3, 1, 3), vec![entry(0, 1, vec![tied(30, frac(0, 1, 3), tie)]), entry(0, 2, vec![note(20, frac(0, 1, 6))])]),
            step(frac(3, 1, 2), vec![entry(0, 2, vec![note(22, frac(0, 1, 6))])]),
            step(frac(3, 2, 3), vec![entry(0, 1, vec![tied(30, frac(0, 1, 3), tie)]), entry(0, 2, vec![note(24, frac(0, 1, 3))])]),
        ],
    };
    let first = SongData::from_osmd(&sheet);
    let second = SongData::from_osmd(&sheet);
    assert_eq!(slices(&first), slices(&second));
    assert_eq!(first.voices, second.voices);
    assert_eq!(
        slices(&first),
        vec![(0, vec![vec![42], vec![32]]), (1, vec![vec![42], vec![34]]), (2, vec![vec![42], vec![36]])]
    );
}

#[test]
fn well_formedness_is_checked() {
    let good = Sheet { staves: one_staff(), steps: vec![step(frac(0, 0, 1), vec![entry(0, 1, vec![note(48, quarter())])])] };
    assert!(good.is_well_formed());
    assert!(good.declares(0, 1));
    assert!(!good.declares(1, 0));
    let no_time = Sheet { staves: one_staff(), steps: vec![step(frac(0, 0, 0), vec![])] };
    assert!(!no_time.is_well_formed());
    let unknown_voice = Sheet { staves: one_staff(), steps: vec![step(frac(0, 0, 1), vec![entry(0, 2, vec![])])] };
    assert!(!unknown_voice.is_well_formed());
    let no_length = Sheet { staves: one_staff(), steps: vec![step(frac(0, 0, 1), vec![entry(0, 1, vec![note(48, frac(0, 1, 0))])])] };
    assert!(!no_length.is_well_formed());
    let rest_without_length = Sheet { staves: one_staff(), steps: vec![step(frac(0, 0, 1), vec![entry(0, 1, vec![rest(frac(0, 1, 0))])])] };
    assert!(rest_without_length.is_well_formed());
    let too_high = Sheet { staves: one_staff(), steps: vec![step(frac(0, 0, 1), vec![entry(0, 1, vec![note(u32::MAX - 12, quarter())])])] };
    assert!(!too_high.is_well_formed());
    assert!(note(u32::MAX - 13, quarter()).is_readable());
    let bad_tie = Tie {
        measure_timestamp: frac(0, 0, 1),
        entry_timestamp: frac(0, 0, 1),
        voice_id: 1,
        half_tone: 48,
        duration: frac(0, 1, 0),
    };
    assert!(!tied(48, quarter(), bad_tie).is_readable());
}

#[test]
fn voice_index_of_a_declared_voice() {
    let sheet = Sheet {
        staves: vec![Staff { id: 2, voice_ids: vec![5, 1] }, Staff { id: 1, voice_ids: vec![3] }],
        steps: vec![],
    };
    assert_eq!(sheet.voice_index(1, 3), Some(0));
    assert_eq!(sheet.voice_index(2, 1), Some(1));
    assert_eq!(sheet.voice_index(2, 5), Some(2));
    assert_eq!(sheet.voice_index(2, 3), None);
    assert_eq!(sheet.voice_index(1, 1), None);
}
