use magic_piano::note_name::{note_name_to_midi_note, pitch_name_to_scale_index};

#[test]
fn middle_c_is_sixty() {
    assert_eq!(note_name_to_midi_note("C4"), Some(60));
}

#[test]
fn d_sharp_four_is_sixty_three() {
    assert_eq!(note_name_to_midi_note("D#4"), Some(63));
}

#[test]
fn lowest_and_highest_piano_samples() {
    assert_eq!(note_name_to_midi_note("A0"), Some(21));
    assert_eq!(note_name_to_midi_note("C8"), Some(108));
    assert_eq!(note_name_to_midi_note("F#1"), Some(30));
}

#[test]
fn octave_minus_one_starts_at_zero() {
    assert_eq!(note_name_to_midi_note("C-1"), Some(0));
    assert_eq!(note_name_to_midi_note("Cb-1"), Some(-1));
    assert_eq!(note_name_to_midi_note("c-2"), Some(-12));
}

#[test]
fn case_is_ignored() {
    assert_eq!(note_name_to_midi_note("c4"), Some(60));
    assert_eq!(note_name_to_midi_note("BB3"), Some(58));
    assert_eq!(note_name_to_midi_note("eX2"), Some(42));
}

#[test]
fn text_after_the_octave_is_ignored() {
    assert_eq!(note_name_to_midi_note("C4 (middle)"), Some(60));
    assert_eq!(note_name_to_midi_note("A4-"), Some(69));
}

#[test]
fn malformed_note_names_are_rejected() {
    assert_eq!(note_name_to_midi_note(""), None);
    assert_eq!(note_name_to_midi_note("C"), None);
    assert_eq!(note_name_to_midi_note("H4"), None);
    assert_eq!(note_name_to_midi_note("C#b4"), None);
    assert_eq!(note_name_to_midi_note("Cbbbb4"), None);
    assert_eq!(note_name_to_midi_note("C-"), None);
    assert_eq!(note_name_to_midi_note("4C"), None);
    assert_eq!(note_name_to_midi_note(" C4"), None);
    assert_eq!(note_name_to_midi_note("C+4"), None);
    assert_eq!(note_name_to_midi_note("\u{e9}4"), None);
}

#[test]
fn octaves_beyond_the_integer_range_are_rejected() {
    assert_eq!(note_name_to_midi_note("C99999999999"), None);
    assert_eq!(note_name_to_midi_note("C2147483647"), None);
    assert_eq!(note_name_to_midi_note("C-2147483648"), None);
    assert_eq!(note_name_to_midi_note("C178956969"), Some(2147483640));
    assert_eq!(note_name_to_midi_note("G178956969"), Some(2147483647));
    assert_eq!(note_name_to_midi_note("G#178956969"), None);
}

#[test]
fn scale_index_of_every_letter() {
    let expected = [("c", 0), ("d", 2), ("e", 4), ("f", 5), ("g", 7), ("a", 9), ("b", 11)];
    for (name, index) in expected {
        assert_eq!(pitch_name_to_scale_index(name), Some(index));
    }
}

#[test]
fn scale_index_of_every_accidental() {
    let shifts = [
        ("bbb", -3),
        ("bb", -2),
        ("b", -1),
        ("", 0),
        ("#", 1),
        ("x", 2),
        ("##", 2),
        ("###", 3),
        ("x#", 3),
        ("#x", 3),
    ];
    let letters = [("c", 0), ("d", 2), ("e", 4), ("f", 5), ("g", 7), ("a", 9), ("b", 11)];
    for (letter, base) in letters {
        for (accidental, shift) in shifts {
            let name = format!("{letter}{accidental}");
            assert_eq!(pitch_name_to_scale_index(&name), Some(base + shift));
            assert_eq!(pitch_name_to_scale_index(&name.to_uppercase()), Some(base + shift));
        }
    }
}

#[test]
fn scale_index_rejects_other_strings() {
    for name in ["", "h", "c4", "cxx", "cbx", "c#b", "cx##", "c####", "#", "cc", " c", "\u{212a}"] {
        assert_eq!(pitch_name_to_scale_index(name), None);
    }
}
