//! Plain values exchanged with the notation engine: its option records and the
//! enumerations it numbers.

use vstd::prelude::*;

verus! {

/// The direction of a note's stem, numbered as the notation engine numbers it.
#[derive(Clone, Copy, Debug, PartialEq, Eq, Structural)]
pub enum StemDirectionType {
    Up,
    Down,
    NoStem,
    Double,
}

impl StemDirectionType {
    /// The number the notation engine uses for this direction.
    pub open spec fn spec_number(self) -> int {
        match self {
            StemDirectionType::Up => 0,
            StemDirectionType::Down => 1,
            StemDirectionType::NoStem => 2,
            StemDirectionType::Double => 3,
        }
    }

    /// The number the notation engine uses for this direction.
    pub fn number(self) -> (n: u32)
        ensures
            n == self.spec_number(),
    {
        match self {
            StemDirectionType::Up => 0,
            StemDirectionType::Down => 1,
            StemDirectionType::NoStem => 2,
            StemDirectionType::Double => 3,
        }
    }

    /// The direction with the given number, if there is one.
    pub fn from_number(n: u32) -> (r: Option<StemDirectionType>)
        ensures
            r matches Some(d) ==> d.spec_number() == n,
            r is None <==> n > 3,
    {
        if n == 0 {
            Some(StemDirectionType::Up)
        } else if n == 1 {
            Some(StemDirectionType::Down)
        } else if n == 2 {
            Some(StemDirectionType::NoStem)
        } else if n == 3 {
            Some(StemDirectionType::Double)
        } else {
            None
        }
    }
}

/// Options handed to the notation engine when it is created. An absent option
/// leaves the engine's own default in place.
#[derive(Clone, Copy, Debug, PartialEq, Eq, Structural)]
pub struct IOSMDOptions {
    pub page_format: Option<PageFormat>,
    pub drawing_parameters: Option<DrawingParameters>,
}

impl Default for IOSMDOptions {
    fn default() -> (r: IOSMDOptions)
        ensures
            r.page_format is None,
            r.drawing_parameters is None,
    {
        IOSMDOptions { page_format: None, drawing_parameters: None }
    }
}

/// Page sizes the notation engine can lay out for, landscape (`_L`) or portrait (`_P`).
#[allow(non_camel_case_types)]
#[derive(Clone, Copy, Debug, PartialEq, Eq, Structural)]
pub enum PageFormat {
    A3_L,
    A3_P,
    A4_L,
    A4_P,
    A5_L,
    A5_P,
    A6_L,
    A6_P,
    Endless,
    Letter_L,
    Letter_P,
}

/// Named presets of the notation engine's drawing parameters.
#[allow(non_camel_case_types)]
#[derive(Clone, Copy, Debug, PartialEq, Eq, Structural)]
pub enum DrawingParameters {
    allon,
    compact,
    compacttight,
    default,
    leadsheet,
    preview,
    thumbnail,
}

/// How the notation engine draws a cursor, numbered as the engine numbers it.
#[derive(Clone, Copy, Debug, PartialEq, Eq, Structural)]
pub enum CursorType {
    /// Standard highlighting of the current notes.
    CurrentNotes,
    /// Thin line left of the current notes.
    LeftOfNotes,
    /// Short thin line on top of the stave and left of the current notes.
    LeftAndTopOfNotes,
    /// The current measure.
    CurrentMeasure,
    /// The current measure, to the left of the current notes.
    LeftMeasure,
}

impl CursorType {
    /// The number the notation engine uses for this cursor type.
    pub open spec fn spec_number(self) -> int {
        match self {
            CursorType::CurrentNotes => 0,
            CursorType::LeftOfNotes => 1,
            CursorType::LeftAndTopOfNotes => 2,
            CursorType::CurrentMeasure => 3,
            CursorType::LeftMeasure => 4,
        }
    }

    /// The number the notation engine uses for this cursor type.
    pub fn number(self) -> (n: u32)
        ensures
            n == self.spec_number(),
    {
        match self {
            CursorType::CurrentNotes => 0,
            CursorType::LeftOfNotes => 1,
            CursorType::LeftAndTopOfNotes => 2,
            CursorType::CurrentMeasure => 3,
            CursorType::LeftMeasure => 4,
        }
    }
}

} // verus!
