use magic_piano::note_name::{note_name_to_midi_note, pitch_name_to_scale_index};
use regex::RegexBuilder;

fn by_pattern(pattern: &regex::Regex, note_name: &str) -> Option<i64> {
    let captures = pattern.captures(note_name)?;
    let pitch_name = captures.get(1)?.as_str();
    let octave = captures.get(2)?.as_str().parse::<i32>().ok()?;
    let scale_index = pitch_name_to_scale_index(pitch_name)?;
    Some((octave as i64 + 1) * 12 + scale_index as i64)
}

#[test]
fn note_names_follow_the_pattern() {
    let pattern = RegexBuilder::new(r"^([a-g](?:b|#|##|x|bb|###|#x|x#|bbb)?)(-?[0-9]+)")
        .case_insensitive(true)
        .build()
        .unwrap();
    let heads = ["", "c", "C", "b", "B", "h", "g", "a", "x", "#", " ", "\u{212a}", "cc"];
    let signs = ["", "b", "bb", "bbb", "bbbb", "#", "##", "###", "####", "x", "X", "x#", "#x", "xx", "b#", "#b", "xb", "B", "Bb", "x#x"];
    let octaves = ["", "4", "-1", "-", "--1", "10", "007", "-0", "+3", "4x", "4 ", "2147483647", "-2147483648", "2147483648", "99999999999999999999", "1-1", "\u{664}"];
    let mut checked = 0;
    for head in heads {
        for sign in signs {
            for octave in octaves {
                let name = format!("{head}{sign}{octave}");
                let expected = by_pattern(&pattern, &name).filter(|note| i32::try_from(*note).is_ok());
                assert_eq!(note_name_to_midi_note(&name).map(|note| note as i64), expected, "{name:?}");
                checked += 1;
            }
        }
    }
    assert_eq!(checked, heads.len() * signs.len() * octaves.len());
}
