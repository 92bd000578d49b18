//! Note names such as `C4`, `D#1` or `Bbb-2`, and the MIDI note numbers they stand for.

use vstd::prelude::*;
use vstd::string::StringSliceAdditionalSpecFns;

verus! {

/// The ASCII lower-case form of a byte; bytes other than `A`..`Z` are unchanged.
pub open spec fn lower(b: u8) -> u8 {
    if 0x41 <= b <= 0x5a {
        (b + 0x20) as u8
    } else {
        b
    }
}

/// Semitones above C of a natural note, given by its lower-case letter.
pub open spec fn letter_semitones(b: u8) -> Option<int> {
    if b == 0x63 {
        Some(0)
    } else if b == 0x64 {
        Some(2)
    } else if b == 0x65 {
        Some(4)
    } else if b == 0x66 {
        Some(5)
    } else if b == 0x67 {
        Some(7)
    } else if b == 0x61 {
        Some(9)
    } else if b == 0x62 {
        Some(11)
    } else {
        None
    }
}

/// Semitones by which one accidental sign shifts a note: a flat `b`, a sharp `#`,
/// a double sharp `x`.
pub open spec fn sign_shift(b: u8) -> Option<int> {
    if b == 0x62 {
        Some(-1)
    } else if b == 0x23 {
        Some(1)
    } else if b == 0x78 {
        Some(2)
    } else {
        None
    }
}

/// Semitones by which a whole accidental (lower case) shifts a note. The accepted
/// accidentals are none, up to three flats, up to three sharps, a double sharp, and
/// a double sharp next to a sharp in either order.
pub open spec fn accidental_shift(acc: Seq<u8>) -> Option<int> {
    if acc.len() == 0 {
        Some(0)
    } else if acc.len() > 3 {
        None
    } else if forall|i: int| 0 <= i < acc.len() ==> acc[i] == 0x62 {
        Some(-(acc.len() as int))
    } else if forall|i: int| 0 <= i < acc.len() ==> acc[i] == 0x23 {
        Some(acc.len() as int)
    } else if acc =~= seq![0x78u8] {
        Some(2)
    } else if acc =~= seq![0x78u8, 0x23u8] || acc =~= seq![0x23u8, 0x78u8] {
        Some(3)
    } else {
        None
    }
}

/// The scale index of a pitch name: the semitones of its letter plus the shift of
/// the accidental that follows, ignoring ASCII case. `None` for every other string.
pub open spec fn scale_index(name: Seq<u8>) -> Option<int> {
    if name.len() == 0 {
        None
    } else {
        match (
            letter_semitones(lower(name[0])),
            accidental_shift(name.skip(1).map_values(|b: u8| lower(b))),
        ) {
            (Some(l), Some(a)) => Some(l + a),
            _ => None,
        }
    }
}

fn lower_byte(b: u8) -> (r: u8)
    ensures
        r == lower(b),
{
    if 0x41 <= b && b <= 0x5a {
        b + 0x20
    } else {
        b
    }
}

fn letter_of(b: u8) -> (r: Option<i32>)
    ensures
        r matches Some(v) ==> letter_semitones(lower(b)) == Some(v as int),
        r is None ==> letter_semitones(lower(b)) is None,
{
    let c = lower_byte(b);
    if c == 0x63 {
        Some(0)
    } else if c == 0x64 {
        Some(2)
    } else if c == 0x65 {
        Some(4)
    } else if c == 0x66 {
        Some(5)
    } else if c == 0x67 {
        Some(7)
    } else if c == 0x61 {
        Some(9)
    } else if c == 0x62 {
        Some(11)
    } else {
        None
    }
}

/// The shift of the accidental held in `bytes[from..to]`, if it is an accepted one.
fn accidental_of(bytes: &[u8], from: usize, to: usize) -> (r: Option<i32>)
    requires
        from <= to <= bytes@.len(),
    ensures
        r matches Some(v) ==> accidental_shift(
            bytes@.subrange(from as int, to as int).map_values(|b: u8| lower(b)),
        ) == Some(v as int),
        r is None ==> accidental_shift(
            bytes@.subrange(from as int, to as int).map_values(|b: u8| lower(b)),
        ) is None,
{
    let ghost acc = bytes@.subrange(from as int, to as int).map_values(|b: u8| lower(b));
    let n = to - from;
    if n == 0 {
        return Some(0);
    }
    if n > 3 {
        return None;
    }
    let a0 = lower_byte(bytes[from]);
    assert(acc[0] == a0);
    if n == 1 {
        return if a0 == 0x62 {
            Some(-1)
        } else if a0 == 0x23 {
            Some(1)
        } else if a0 == 0x78 {
            assert(acc =~= seq![0x78u8]);
            Some(2)
        } else {
            assert(!(acc =~= seq![0x78u8]));
            None
        };
    }
    let a1 = lower_byte(bytes[from + 1]);
    assert(acc[1] == a1);
    if n == 2 {
        return if a0 == 0x62 && a1 == 0x62 {
            Some(-2)
        } else if a0 == 0x23 && a1 == 0x23 {
            Some(2)
        } else if a0 == 0x78 && a1 == 0x23 {
            assert(acc =~= seq![0x78u8, 0x23u8]);
            Some(3)
        } else if a0 == 0x23 && a1 == 0x78 {
            assert(acc =~= seq![0x23u8, 0x78u8]);
            Some(3)
        } else {
            assert(!(acc =~= seq![0x78u8, 0x23u8]));
            assert(!(acc =~= seq![0x23u8, 0x78u8]));
            None
        };
    }
    let a2 = lower_byte(bytes[from + 2]);
    assert(acc[2] == a2);
    if a0 == 0x62 && a1 == 0x62 && a2 == 0x62 {
        Some(-3)
    } else if a0 == 0x23 && a1 == 0x23 && a2 == 0x23 {
        Some(3)
    } else {
        None
    }
}

/// The scale index of the pitch name held in `bytes[..end]`.
fn scale_index_of(bytes: &[u8], end: usize) -> (r: Option<i32>)
    requires
        end <= bytes@.len(),
    ensures
        r matches Some(v) ==> scale_index(bytes@.subrange(0, end as int)) == Some(v as int),
        r is None ==> scale_index(bytes@.subrange(0, end as int)) is None,
{
    if end == 0 {
        return None;
    }
    let letter = letter_of(bytes[0]);
    let acc = accidental_of(bytes, 1, end);
    assert(bytes@.subrange(0, end as int).skip(1) =~= bytes@.subrange(1, end as int));
    match (letter, acc) {
        (Some(l), Some(a)) => Some(l + a),
        _ => None,
    }
}

/// Maps a pitch name to its scale index: the number of semitones above the C of
/// the same octave. The match ignores ASCII case.
pub fn pitch_name_to_scale_index(pitch_name: &str) -> (r: Option<i32>)
    ensures
        r matches Some(v) ==> scale_index(pitch_name.spec_bytes()) == Some(v as int),
        r is None ==> scale_index(pitch_name.spec_bytes()) is None,
{
    let bytes = pitch_name.as_bytes();
    assert(bytes@.subrange(0, bytes@.len() as int) =~= bytes@);
    scale_index_of(bytes, bytes.len())
}

/// Whether a byte is an accidental sign, in either case.
pub open spec fn is_sign(b: u8) -> bool {
    sign_shift(lower(b)) is Some
}

/// Whether a byte is a decimal digit.
pub open spec fn is_digit(b: u8) -> bool {
    0x30 <= b <= 0x39
}

/// The end of the longest run of accidental signs that starts at `from`.
pub open spec fn signs_end(s: Seq<u8>, from: int) -> int
    decreases s.len() - from,
{
    if 0 <= from < s.len() && is_sign(s[from]) {
        signs_end(s, from + 1)
    } else {
        from
    }
}

/// The end of the longest run of decimal digits that starts at `from`.
pub open spec fn digits_end(s: Seq<u8>, from: int) -> int
    decreases s.len() - from,
{
    if 0 <= from < s.len() && is_digit(s[from]) {
        digits_end(s, from + 1)
    } else {
        from
    }
}

/// The number that a string of decimal digits writes.
pub open spec fn decimal(digits: Seq<u8>) -> int
    decreases digits.len(),
{
    if digits.len() == 0 {
        0
    } else {
        decimal(digits.drop_last()) * 10 + (digits.last() - 0x30)
    }
}

/// The MIDI note that a note name stands for. A note name is a pitch name (a
/// letter and the longest run of accidental signs after it), then an octave: an
/// optional `-` and the longest run of digits, of which there is at least one.
/// Whatever follows the digits is ignored. Octave -1 starts at note 0, so the note
/// is `(octave + 1) * 12` plus the scale index. `None` where the name is not of
/// this form, or where the octave or the note does not fit in an `i32`.
pub open spec fn midi_note(name: Seq<u8>) -> Option<int> {
    if name.len() == 0 {
        None
    } else {
        let pitch_end = signs_end(name, 1);
        let negative = pitch_end < name.len() && name[pitch_end] == 0x2d;
        let digits_from = if negative {
            pitch_end + 1
        } else {
            pitch_end
        };
        let digits_to = digits_end(name, digits_from);
        match scale_index(name.subrange(0, pitch_end)) {
            Some(index) if digits_from < digits_to => {
                let magnitude = decimal(name.subrange(digits_from, digits_to));
                let octave = if negative {
                    -magnitude
                } else {
                    magnitude
                };
                let note = (octave + 1) * 12 + index;
                if i32::MIN <= octave <= i32::MAX && i32::MIN <= note <= i32::MAX {
                    Some(note)
                } else {
                    None
                }
            },
            _ => None,
        }
    }
}

proof fn lemma_signs_end(s: Seq<u8>, from: int, to: int)
    requires
        0 <= from <= to <= s.len(),
        forall|i: int| from <= i < to ==> is_sign(s[i]),
        to == s.len() || !is_sign(s[to]),
    ensures
        signs_end(s, from) == to,
    decreases to - from,
{
    if from < to {
        lemma_signs_end(s, from + 1, to);
    }
}

proof fn lemma_digits_end(s: Seq<u8>, from: int, to: int)
    requires
        0 <= from <= to <= s.len(),
        forall|i: int| from <= i < to ==> is_digit(s[i]),
        to == s.len() || !is_digit(s[to]),
    ensures
        digits_end(s, from) == to,
    decreases to - from,
{
    if from < to {
        lemma_digits_end(s, from + 1, to);
    }
}

/// A run of digits writes a number that is at least the number its first digits write.
proof fn lemma_decimal_prefix(s: Seq<u8>, from: int, mid: int, to: int)
    requires
        0 <= from <= mid <= to <= s.len(),
        forall|i: int| from <= i < to ==> is_digit(s[i]),
    ensures
        0 <= decimal(s.subrange(from, mid)) <= decimal(s.subrange(from, to)),
    decreases to - mid,
{
    if mid == from {
        assert(s.subrange(from, mid).len() == 0);
        lemma_decimal_nonnegative(s, from, to);
    } else if mid < to {
        lemma_decimal_prefix(s, from, mid, to - 1);
        assert(s.subrange(from, to).drop_last() =~= s.subrange(from, to - 1));
    } else {
        lemma_decimal_nonnegative(s, from, to);
    }
}

proof fn lemma_decimal_nonnegative(s: Seq<u8>, from: int, to: int)
    requires
        0 <= from <= to <= s.len(),
        forall|i: int| from <= i < to ==> is_digit(s[i]),
    ensures
        0 <= decimal(s.subrange(from, to)),
    decreases to - from,
{
    if from < to {
        lemma_decimal_nonnegative(s, from, to - 1);
        assert(s.subrange(from, to).drop_last() =~= s.subrange(from, to - 1));
    }
}

/// The run of digits that starts at `from` reaches past any `mid` up to which
/// there are only digits, and holds only digits.
proof fn lemma_digits_run(s: Seq<u8>, from: int, mid: int)
    requires
        0 <= from <= mid <= s.len(),
        forall|i: int| from <= i < mid ==> is_digit(s[i]),
    ensures
        mid <= digits_end(s, from) <= s.len(),
        forall|i: int| from <= i < digits_end(s, from) ==> is_digit(s[i]),
    decreases s.len() - from,
{
    if from < s.len() && is_digit(s[from]) {
        lemma_digits_run(s, from + 1, if mid > from { mid } else { from + 1 });
    }
}

fn is_sign_byte(b: u8) -> (r: bool)
    ensures
        r == is_sign(b),
{
    let c = lower_byte(b);
    c == 0x62 || c == 0x23 || c == 0x78
}

/// Resolves a note name such as `C4` or `D#1` to its MIDI note number, with middle
/// C (`C4`) at 60. ASCII case is ignored, and so is anything after the octave.
#[verifier::loop_isolation(false)]
pub fn note_name_to_midi_note(note_name: &str) -> (r: Option<i32>)
    ensures
        r matches Some(v) ==> midi_note(note_name.spec_bytes()) == Some(v as int),
        r is None ==> midi_note(note_name.spec_bytes()) is None,
{
    let bytes = note_name.as_bytes();
    let len = bytes.len();
    if len == 0 {
        return None;
    }
    let mut pitch_end: usize = 1;
    while pitch_end < len && is_sign_byte(bytes[pitch_end])
        invariant
            1 <= pitch_end <= len == bytes@.len(),
            forall|i: int| 1 <= i < pitch_end ==> is_sign(bytes@[i]),
        decreases len - pitch_end,
    {
        pitch_end += 1;
    }
    proof {
        lemma_signs_end(bytes@, 1, pitch_end as int);
    }
    let negative = pitch_end < len && bytes[pitch_end] == 0x2d;
    let digits_from: usize = if negative {
        pitch_end + 1
    } else {
        pitch_end
    };
    let index = match scale_index_of(bytes, pitch_end) {
        Some(index) => index,
        None => { return None; },
    };
    // The octave's magnitude, as far as it can matter: at most 2^31.
    let mut magnitude: i64 = 0;
    let mut digits_to: usize = digits_from;
    while digits_to < len && 0x30 <= bytes[digits_to] && bytes[digits_to] <= 0x39
        invariant
            digits_from <= digits_to <= len == bytes@.len(),
            forall|i: int| digits_from <= i < digits_to ==> is_digit(bytes@[i]),
            magnitude == decimal(bytes@.subrange(digits_from as int, digits_to as int)),
            0 <= magnitude <= 0x8000_0000,
        decreases len - digits_to,
    {
        let digit = (bytes[digits_to] - 0x30) as i64;
        let ghost run = bytes@.subrange(digits_from as int, digits_to as int + 1);
        assert(run.drop_last() =~= bytes@.subrange(digits_from as int, digits_to as int));
        if magnitude * 10 + digit > 0x8000_0000 {
            proof {
                // Every longer run of digits writes a number at least as large.
                lemma_digits_run(bytes@, digits_from as int, digits_to as int + 1);
                let end = digits_end(bytes@, digits_from as int);
                assert(decimal(run) == magnitude * 10 + digit);
                lemma_decimal_prefix(bytes@, digits_from as int, digits_to as int + 1, end);
            }
            return None;
        }
        magnitude = magnitude * 10 + digit;
        digits_to += 1;
    }
    proof {
        lemma_digits_end(bytes@, digits_from as int, digits_to as int);
    }
    if digits_to == digits_from {
        return None;
    }
    let octave: i64 = if negative {
        -magnitude
    } else {
        magnitude
    };
    let note: i64 = (octave + 1) * 12 + index as i64;
    if octave < -0x8000_0000 || octave > 0x7fff_ffff || note < -0x8000_0000 || note > 0x7fff_ffff {
        return None;
    }
    Some(note as i32)
}

} // verus!
