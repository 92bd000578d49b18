use magic_piano::song::{MidiMessage, Smf, Song, TrackEvent, TrackEventKind};
use std::collections::HashMap;

fn on(delta: u32, channel: u8, key: u8, vel: u8) -> TrackEvent {
    TrackEvent { delta, kind: TrackEventKind::Midi { channel, message: MidiMessage::NoteOn { key, vel } } }
}

fn off(delta: u32, channel: u8, key: u8) -> TrackEvent {
    TrackEvent { delta, kind: TrackEventKind::Midi { channel, message: MidiMessage::NoteOff { key, vel: 0 } } }
}

fn other(delta: u32) -> TrackEvent {
    TrackEvent { delta, kind: TrackEventKind::Other }
}

fn keys(slice: &HashMap<u8, u8>) -> Vec<u8> {
    let mut keys: Vec<u8> = slice.keys().copied().collect();
    keys.sort();
    keys
}

fn held(song: &Song) -> Vec<Vec<Vec<u8>>> {
    song.slices.iter().map(|slice| slice.notes_by_voice.iter().map(keys).collect()).collect()
}

#[test]
fn two_tracks_overlap() {
    let smf = Smf {
        tracks: vec![
            vec![on(0, 0, 60, 90), off(100, 0, 60)],
            vec![on(50, 0, 64, 80), off(100, 0, 64)],
        ],
    };
    let song = Song::from_smf(&smf);
    assert_eq!(song.voices, 2);
    let slices = held(&song);
    assert_eq!(slices[0], vec![vec![60], vec![]]);
    assert_eq!(slices[1], vec![vec![60], vec![64]]);
    assert_eq!(slices[2], vec![vec![], vec![64]]);
    // The note-off at tick 150 is a position of its own.
    assert_eq!(slices.len(), 4);
    assert_eq!(slices[3], vec![Vec::<u8>::new(), vec![]]);
    assert_eq!(song.slices[1].notes_by_voice[1].get(&64), Some(&80));
}

#[test]
fn empty_file_has_one_silent_slice() {
    let song = Song::from_smf(&Smf { tracks: vec![] });
    assert_eq!(song.voices, 0);
    assert_eq!(held(&song), vec![Vec::<Vec<u8>>::new()]);
    let song = Song::from_smf(&Smf { tracks: vec![vec![], vec![other(10)]] });
    assert_eq!(song.voices, 0);
    assert_eq!(song.slices.len(), 1);
}

#[test]
fn first_slice_is_silent_when_the_music_starts_late() {
    let smf = Smf { tracks: vec![vec![on(480, 3, 72, 1), off(480, 3, 72)]] };
    let song = Song::from_smf(&smf);
    assert_eq!(held(&song), vec![vec![vec![]], vec![vec![72]], vec![vec![]]]);
}

#[test]
fn ticks_one_apart_are_one_position() {
    // A note-off one tick before the next note-on gives no silent slice.
    let smf = Smf { tracks: vec![vec![on(0, 0, 60, 64), off(99, 0, 60), on(1, 0, 62, 64), off(100, 0, 62)]] };
    let song = Song::from_smf(&smf);
    assert_eq!(held(&song), vec![vec![vec![60]], vec![vec![62]], vec![vec![]]]);
}

#[test]
fn start_joins_a_message_at_tick_one() {
    let smf = Smf { tracks: vec![vec![on(1, 0, 60, 64), off(10, 0, 60)]] };
    let song = Song::from_smf(&smf);
    assert_eq!(held(&song), vec![vec![vec![60]], vec![vec![]]]);
}

#[test]
fn joined_ticks_are_played_latest_first() {
    // The same key is lifted at tick 99 and struck at tick 100: the later tick
    // is played first, so the key ends up lifted.
    let smf = Smf { tracks: vec![vec![on(0, 0, 60, 64), off(99, 0, 60), on(1, 0, 60, 70), on(50, 0, 61, 64)]] };
    let song = Song::from_smf(&smf);
    assert_eq!(held(&song), vec![vec![vec![60]], vec![vec![]], vec![vec![61]]]);
}

#[test]
fn a_run_of_three_ticks_is_one_position() {
    let smf = Smf {
        tracks: vec![vec![on(5, 0, 60, 64), on(1, 0, 61, 64), on(1, 0, 62, 64), off(3, 0, 60)]],
    };
    let song = Song::from_smf(&smf);
    assert_eq!(held(&song), vec![vec![vec![]], vec![vec![60, 61, 62]], vec![vec![61, 62]]]);
}

#[test]
fn note_on_with_velocity_zero_lifts_the_key() {
    let smf = Smf { tracks: vec![vec![on(0, 0, 60, 64), on(10, 0, 60, 0)]] };
    let song = Song::from_smf(&smf);
    assert_eq!(held(&song), vec![vec![vec![60]], vec![vec![]]]);
}

#[test]
fn striking_a_held_key_again_keeps_the_later_velocity() {
    let smf = Smf { tracks: vec![vec![on(0, 0, 60, 64), on(10, 0, 60, 100)]] };
    let song = Song::from_smf(&smf);
    assert_eq!(song.slices[0].notes_by_voice[0].get(&60), Some(&64));
    assert_eq!(song.slices[1].notes_by_voice[0].get(&60), Some(&100));
}

#[test]
fn voices_are_ordered_by_track_then_channel() {
    let smf = Smf {
        tracks: vec![
            vec![on(0, 9, 40, 64), on(0, 2, 41, 64)],
            vec![other(0)],
            vec![on(0, 0, 42, 64), on(0, 9, 43, 64)],
        ],
    };
    let song = Song::from_smf(&smf);
    assert_eq!(song.voices, 4);
    assert_eq!(held(&song), vec![vec![vec![41], vec![40], vec![42], vec![43]]]);
}

#[test]
fn other_channel_messages_make_a_voice_and_a_position() {
    let program_change = TrackEvent { delta: 7, kind: TrackEventKind::Midi { channel: 1, message: MidiMessage::Other } };
    let smf = Smf { tracks: vec![vec![program_change, on(3, 0, 50, 64)]] };
    let song = Song::from_smf(&smf);
    assert_eq!(song.voices, 2);
    assert_eq!(held(&song), vec![vec![vec![], vec![]], vec![vec![], vec![]], vec![vec![50], vec![]]]);
}

#[test]
fn events_that_are_no_channel_messages_only_pass_time() {
    let smf = Smf { tracks: vec![vec![other(20), on(0, 0, 60, 64), other(5), off(5, 0, 60)]] };
    let song = Song::from_smf(&smf);
    assert_eq!(held(&song), vec![vec![vec![]], vec![vec![60]], vec![vec![]]]);
}

#[test]
fn simultaneous_messages_play_track_by_track() {
    // Track 1 lifts key 60 of its own voice at tick 10; track 0 strikes at tick 10.
    let smf = Smf {
        tracks: vec![vec![on(10, 0, 60, 64)], vec![on(0, 0, 60, 64), off(10, 0, 60)]],
    };
    let song = Song::from_smf(&smf);
    assert_eq!(held(&song), vec![vec![vec![], vec![60]], vec![vec![60], vec![]]]);
}

#[test]
fn slice_count_is_the_number_of_runs_of_ticks() {
    // Ticks 0, 10, 11, 12, 20, 30, 31: runs end at 0, 12, 20, 31.
    let smf = Smf {
        tracks: vec![vec![
            on(0, 0, 1, 1),
            on(10, 0, 2, 1),
            on(1, 0, 3, 1),
            on(1, 0, 4, 1),
            on(8, 0, 5, 1),
            on(10, 0, 6, 1),
            on(1, 0, 7, 1),
        ]],
    };
    let song = Song::from_smf(&smf);
    assert_eq!(
        held(&song),
        vec![
            vec![vec![1]],
            vec![vec![1, 2, 3, 4]],
            vec![vec![1, 2, 3, 4, 5]],
            vec![vec![1, 2, 3, 4, 5, 6, 7]],
        ]
    );
}

#[test]
fn long_delta_times_do_not_wrap() {
    let smf = Smf { tracks: vec![vec![on(u32::MAX, 0, 60, 1), on(u32::MAX, 0, 61, 1), on(u32::MAX, 0, 62, 1)]] };
    let song = Song::from_smf(&smf);
    assert_eq!(held(&song), vec![vec![vec![]], vec![vec![60]], vec![vec![60, 61]], vec![vec![60, 61, 62]]]);
}

fn midi_file(tracks: &[&[u8]]) -> Vec<u8> {
    let mut bytes = b"MThd".to_vec();
    bytes.extend_from_slice(&[0, 0, 0, 6, 0, 1]);
    bytes.extend_from_slice(&(tracks.len() as u16).to_be_bytes());
    bytes.extend_from_slice(&[0, 96]);
    for track in tracks {
        bytes.extend_from_slice(b"MTrk");
        bytes.extend_from_slice(&(track.len() as u32).to_be_bytes());
        bytes.extend_from_slice(track);
    }
    bytes
}

#[test]
fn parses_the_bytes_of_a_midi_file() {
    let track0: &[u8] = &[0x00, 0x90, 60, 90, 0x64, 0x80, 60, 0, 0x00, 0xff, 0x2f, 0x00];
    let track1: &[u8] = &[0x32, 0x91, 64, 80, 0x81, 0x00, 0x81, 64, 0, 0x00, 0xc1, 5, 0x00, 0xff, 0x2f, 0x00];
    let smf = Smf::parse(&midi_file(&[track0, track1])).unwrap();
    assert_eq!(
        smf.tracks,
        vec![
            vec![on(0, 0, 60, 90), off(100, 0, 60), other(0)],
            vec![
                on(50, 1, 64, 80),
                off(128, 1, 64),
                TrackEvent { delta: 0, kind: TrackEventKind::Midi { channel: 1, message: MidiMessage::Other } },
                other(0),
            ],
        ]
    );
    let song = Song::from_smf(&smf);
    assert_eq!(song.voices, 2);
    assert_eq!(song.slices.len(), 4);
}

#[test]
fn rejects_bytes_that_are_no_midi_file() {
    let error = Smf::parse(b"not a midi file").unwrap_err();
    assert!(!error.message.is_empty());
    assert!(Smf::parse(&[]).is_err());
}

/// The ticks that give a slice: every tick at which a channel message falls, and
/// tick 0, without those that have a tick right after them.
fn slice_ticks(smf: &Smf) -> Vec<u64> {
    let mut ticks = vec![0u64];
    for track in &smf.tracks {
        let mut tick = 0u64;
        for event in track {
            tick += event.delta as u64;
            if matches!(event.kind, TrackEventKind::Midi { .. }) {
                ticks.push(tick);
            }
        }
    }
    ticks.sort();
    ticks.dedup();
    let all = ticks.clone();
    ticks.retain(|t| !all.contains(&(t + 1)));
    ticks
}

#[test]
fn keys_come_and_go_only_by_messages() {
    let smf = Smf {
        tracks: vec![
            vec![on(0, 0, 60, 64), on(10, 0, 62, 64), off(9, 0, 60), on(1, 0, 60, 50), on(10, 0, 62, 0), off(5, 0, 61)],
            vec![on(5, 1, 60, 64), on(5, 2, 70, 1), off(10, 1, 60), on(0, 2, 71, 9), other(3), off(7, 2, 70)],
        ],
    };
    let song = Song::from_smf(&smf);
    let ticks = slice_ticks(&smf);
    assert_eq!(song.slices.len(), ticks.len());
    assert_eq!(ticks[0], 0);
    assert!(ticks.windows(2).all(|pair| pair[0] < pair[1]));
    // The voices, by track and channel.
    let voices = [(0usize, 0u8), (1, 1), (1, 2)];
    for i in 0..song.slices.len() - 1 {
        for (voice, &(track, channel)) in voices.iter().enumerate() {
            for key in 0..=127u8 {
                let before = song.slices[i].notes_by_voice[voice].contains_key(&key);
                let after = song.slices[i + 1].notes_by_voice[voice].contains_key(&key);
                if before == after {
                    continue;
                }
                let mut tick = 0u64;
                let mut found = false;
                for event in &smf.tracks[track] {
                    tick += event.delta as u64;
                    let between = ticks[i] < tick && tick <= ticks[i + 1];
                    let TrackEventKind::Midi { channel: c, message } = event.kind else { continue };
                    let fits = match message {
                        MidiMessage::NoteOn { key: k, vel } => k == key && (vel > 0) == after,
                        MidiMessage::NoteOff { key: k, .. } => k == key && !after,
                        MidiMessage::Other => false,
                    };
                    found = found || (between && c == channel && fits);
                }
                assert!(found, "slice {i}, voice {voice}, key {key}");
            }
        }
    }
}
