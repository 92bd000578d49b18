use bit_set::BitSet;
use magic_piano::components::keyboard_listener::{
    event_to_song_index, get_no_modifiers_key_action, key_down, letter_offset, Action, KeyAction, KeyResponse,
    Positions, LETTERS,
};
use magic_piano::components::mobile_controls::MobileControls;
use magic_piano::components::sheet_music::{
    cursor_move, is_painted, key_hints, note_color, song_index_at, CursorMove,
};
use magic_piano::components::voice_control::{
    active_voices, any_voice_solo, toggle_and_disable, voice_name, VoiceName, VoiceState,
};
use magic_piano::opensheetmusicdisplay_bindings::{CursorType, IOSMDOptions, StemDirectionType};
use magic_piano::song::{get_voices, song_index_notes, MidiMessage, Smf, Song, TrackEvent, TrackEventKind};
use magic_piano::song_data::{SongData, TimeSlice};
use std::collections::HashSet;

#[test]
fn letters_play_positions_in_order() {
    assert_eq!(letter_offset("q"), Some(0));
    assert_eq!(letter_offset("w"), Some(1));
    assert_eq!(letter_offset("a"), Some(4));
    assert_eq!(letter_offset(";"), Some(19));
    assert_eq!(letter_offset("/"), Some(23));
    assert_eq!(letter_offset("t"), None);
    assert_eq!(letter_offset("Q"), None);
    assert_eq!(letter_offset("Enter"), None);
    for (offset, letter) in LETTERS.chars().enumerate() {
        assert_eq!(letter_offset(&letter.to_string()), Some(offset));
    }
}

#[test]
fn a_key_is_found_as_text_among_the_letters() {
    for key in ["", "we", "qwer", "l;m", "/", "./", "qe", "\u{e9}", "qwerasdfzxcvuiopjkl;m,./", "qwerasdfzxcvuiopjkl;m,./q"] {
        assert_eq!(letter_offset(key), LETTERS.find(key), "{key:?}");
    }
}

#[test]
fn keys_and_their_actions() {
    assert_eq!(get_no_modifiers_key_action(" "), Some(KeyAction { action: Action::MoveStartPastRecent, allow_repeats: false }));
    assert_eq!(get_no_modifiers_key_action("ArrowLeft"), Some(KeyAction { action: Action::MoveStartBack, allow_repeats: true }));
    assert_eq!(get_no_modifiers_key_action("ArrowRight"), Some(KeyAction { action: Action::MoveStartOn, allow_repeats: true }));
    assert_eq!(get_no_modifiers_key_action("`"), Some(KeyAction { action: Action::ResetStart, allow_repeats: false }));
    assert_eq!(get_no_modifiers_key_action("d"), Some(KeyAction::new(Action::PlayAtOffset { offset: 6 })));
    assert_eq!(get_no_modifiers_key_action("Escape"), None);
    assert_eq!(get_no_modifiers_key_action("ArrowUp"), None);
    assert_eq!(KeyAction::new_with_repeats(Action::ResetStart).allow_repeats, true);
}

#[test]
fn key_down_decides_what_to_do() {
    assert_eq!(key_down(true, "q", false), KeyResponse { prevent_default: false, action: None });
    assert_eq!(key_down(false, "F5", false), KeyResponse { prevent_default: false, action: None });
    assert_eq!(
        key_down(false, "q", false),
        KeyResponse { prevent_default: true, action: Some(KeyAction::new(Action::PlayAtOffset { offset: 0 })) }
    );
    assert_eq!(key_down(false, "q", true), KeyResponse { prevent_default: true, action: None });
    assert_eq!(
        key_down(false, "ArrowLeft", true),
        KeyResponse { prevent_default: true, action: Some(KeyAction::new_with_repeats(Action::MoveStartBack)) }
    );
}

#[test]
fn key_events_of_the_plain_keyboard() {
    assert_eq!(event_to_song_index(false, "e", false), Some(2));
    assert_eq!(event_to_song_index(true, "e", false), None);
    assert_eq!(event_to_song_index(false, "e", true), None);
    assert_eq!(event_to_song_index(false, "5", false), None);
}

#[test]
fn actions_move_the_positions() {
    let mut positions = Positions::new();
    assert_eq!(positions.take(Action::PlayAtOffset { offset: 6 }), Some(6));
    assert_eq!(positions, Positions { start_song_index: 0, most_recent_song_index: 6 });
    assert_eq!(positions.take(Action::MoveStartPastRecent), None);
    assert_eq!(positions.start_song_index, 7);
    assert_eq!(positions.take(Action::PlayAtOffset { offset: 2 }), Some(9));
    positions.take(Action::MoveStartBack);
    assert_eq!(positions.start_song_index, 6);
    positions.take(Action::MoveStartOn);
    positions.take(Action::MoveStartOn);
    assert_eq!(positions.start_song_index, 8);
    positions.take(Action::ResetStart);
    assert_eq!(positions, Positions { start_song_index: 0, most_recent_song_index: 9 });
    positions.take(Action::MoveStartBack);
    assert_eq!(positions.start_song_index, 0);
}

#[test]
fn positions_at_the_largest_number_take_no_step() {
    let positions = Positions { start_song_index: usize::MAX, most_recent_song_index: usize::MAX };
    assert!(!positions.can_take(Action::MoveStartOn));
    assert!(!positions.can_take(Action::MoveStartPastRecent));
    assert!(!positions.can_take(Action::PlayAtOffset { offset: 1 }));
    assert!(positions.can_take(Action::PlayAtOffset { offset: 0 }));
    assert!(positions.can_take(Action::MoveStartBack));
    assert!(positions.can_take(Action::ResetStart));
}

#[test]
fn the_start_stays_within_the_song() {
    let mut positions = Positions { start_song_index: 30, most_recent_song_index: 31 };
    positions.keep_start_within(Some(40));
    assert_eq!(positions.start_song_index, 30);
    positions.keep_start_within(None);
    assert_eq!(positions.start_song_index, 30);
    positions.keep_start_within(Some(9));
    assert_eq!(positions, Positions { start_song_index: 9, most_recent_song_index: 31 });
}

#[test]
fn stepping_with_the_buttons() {
    let mut controls = MobileControls::new();
    let mut positions = Positions { start_song_index: 3, most_recent_song_index: 3 };
    // The first press of "next" plays the current position.
    assert_eq!(controls.next(&mut positions), 3);
    assert_eq!(controls.next(&mut positions), 4);
    assert_eq!(controls.next(&mut positions), 5);
    assert_eq!(controls.previous(&mut positions), 4);
    controls.set_start(&mut positions);
    assert_eq!(positions, Positions { start_song_index: 4, most_recent_song_index: 4 });
    assert_eq!(controls.next(&mut positions), 5);
    assert_eq!(controls.reset(&mut positions), 4);
    assert_eq!(positions.most_recent_song_index, 4);
    assert!(!controls.has_moved_next);
    assert_eq!(controls.next(&mut positions), 4);
    let mut at_start = Positions::new();
    assert_eq!(controls.previous(&mut at_start), 0);
}

fn voice(mute: bool, solo: bool) -> VoiceState {
    let mut state = VoiceState::new("voice".to_string());
    state.mute = mute;
    state.solo = solo;
    state
}

#[test]
fn new_voices_sound_at_volume_seventy() {
    let state = VoiceState::new("Lead".to_string());
    assert_eq!((state.name.as_str(), state.mute, state.solo, state.volume), ("Lead", false, false, 70));
}

#[test]
fn mute_and_solo_decide_which_voices_sound() {
    assert!(!voice(false, false).mute_playback_signal(false));
    assert!(voice(true, false).mute_playback_signal(false));
    assert!(voice(false, false).mute_playback_signal(true));
    assert!(!voice(false, true).mute_playback_signal(true));
    assert!(voice(true, true).mute_playback_signal(true));

    let states = vec![voice(false, false), voice(true, false), voice(false, false)];
    assert!(!any_voice_solo(&states));
    assert_eq!(active_voices(&states), [0usize, 2].into_iter().collect::<BitSet>());
    let states = vec![voice(false, false), voice(false, true), voice(true, false), voice(false, true)];
    assert!(any_voice_solo(&states));
    assert_eq!(active_voices(&states), [1usize, 3].into_iter().collect::<BitSet>());
    assert_eq!(active_voices(&Vec::new()), BitSet::new());
}

#[test]
fn a_voice_is_not_muted_and_solo_at_once() {
    let mut state = voice(false, true);
    state.toggle_mute();
    assert_eq!((state.mute, state.solo), (true, false));
    state.toggle_solo();
    assert_eq!((state.mute, state.solo), (false, true));
    state.toggle_solo();
    assert_eq!((state.mute, state.solo), (false, false));
    let (mut a, mut b) = (true, true);
    toggle_and_disable(&mut a, &mut b);
    assert_eq!((a, b), (false, true));
}

#[test]
fn four_voices_have_names() {
    let names: Vec<VoiceName> = (0..4).map(|v| voice_name(4, v)).collect();
    assert_eq!(names, vec![VoiceName::Tenor, VoiceName::Lead, VoiceName::Bari, VoiceName::Bass]);
    assert_eq!(voice_name(3, 0), VoiceName::Numbered(1));
    assert_eq!(voice_name(5, 4), VoiceName::Numbered(5));
}

#[test]
fn how_a_cursor_catches_up() {
    assert_eq!(cursor_move(7, 7), CursorMove::Stay);
    assert_eq!(cursor_move(9, 7), CursorMove::Forward(2));
    assert_eq!(cursor_move(3, 7), CursorMove::Back(4));
    assert_eq!(cursor_move(19, 51), CursorMove::ResetThenForward(19));
    assert_eq!(cursor_move(0, 80), CursorMove::ResetThenForward(0));
    assert_eq!(cursor_move(20, 51), CursorMove::Back(31));
    assert_eq!(cursor_move(19, 50), CursorMove::Back(31));
}

fn song_with_cursor_indices(indices: &[usize]) -> SongData {
    SongData {
        voices: 0,
        slices: indices.iter().map(|&cursor_index| TimeSlice { notes_by_voice: vec![], cursor_index }).collect(),
    }
}

#[test]
fn letters_above_the_score() {
    let song = song_with_cursor_indices(&[0, 2, 3, 7, 8]);
    assert_eq!(song_index_at(&song, 3), Some(2));
    assert_eq!(song_index_at(&song, 4), None);
    assert_eq!(key_hints(&song, 3), Some(vec![(b'q', 3), (b'w', 7), (b'e', 8)]));
    assert_eq!(key_hints(&song, 1), None);
    let long: Vec<usize> = (0..40).collect();
    let hints = key_hints(&song_with_cursor_indices(&long), 5).unwrap();
    assert_eq!(hints.len(), 24);
    assert_eq!(hints[0], (b'q', 5));
    assert_eq!(hints[23], (b'/', 28));
}

#[test]
fn numbers_of_the_notation_engine() {
    assert_eq!(StemDirectionType::Up.number(), 0);
    assert_eq!(StemDirectionType::Double.number(), 3);
    assert_eq!(StemDirectionType::from_number(2), Some(StemDirectionType::NoStem));
    assert_eq!(StemDirectionType::from_number(4), None);
    assert_eq!(CursorType::CurrentNotes.number(), 0);
    assert_eq!(CursorType::LeftMeasure.number(), 4);
    assert_eq!(IOSMDOptions::default(), IOSMDOptions { page_format: None, drawing_parameters: None });
}

fn on(delta: u32, channel: u8, key: u8) -> TrackEvent {
    TrackEvent { delta, kind: TrackEventKind::Midi { channel, message: MidiMessage::NoteOn { key, vel: 64 } } }
}

#[test]
fn notes_of_a_midi_position() {
    let smf = Smf { tracks: vec![vec![on(0, 0, 64), on(0, 0, 60), on(0, 1, 72)], vec![on(0, 0, 48), on(10, 0, 50)]] };
    let song = Song::from_smf(&smf);
    let all = get_voices(&song);
    assert_eq!(all, HashSet::from([0, 1, 2]));
    assert_eq!(song_index_notes(&song, &all, 0), vec![60, 64, 72, 48]);
    assert_eq!(song_index_notes(&song, &HashSet::from([2, 0]), 1), vec![60, 64, 48, 50]);
    assert_eq!(song_index_notes(&song, &HashSet::new(), 0), Vec::<i32>::new());
    assert_eq!(song_index_notes(&song, &all, 2), Vec::<i32>::new());
}

#[test]
fn silent_voices_are_drawn_in_grey() {
    assert_eq!(note_color(true), "#000000");
    assert_eq!(note_color(false), "#aaaaaa");
    assert!(is_painted(Some("#123456")));
    assert!(is_painted(Some("")));
    assert!(!is_painted(Some("none")));
    assert!(!is_painted(None));
}
