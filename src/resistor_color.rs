use vstd::prelude::*;
use vstd::string::*;

verus! {

#[derive(Debug, PartialEq, Eq, Copy, Clone, Structural)]
pub enum ResistorColor {
    Black,
    Brown,
    Red,
    Orange,
    Yellow,
    Green,
    Blue,
    Violet,
    Grey,
    White,
}

/// The digit a color band stands for.
pub open spec fn value_of(color: ResistorColor) -> u32 {
    match color {
        ResistorColor::Black => 0,
        ResistorColor::Brown => 1,
        ResistorColor::Red => 2,
        ResistorColor::Orange => 3,
        ResistorColor::Yellow => 4,
        ResistorColor::Green => 5,
        ResistorColor::Blue => 6,
        ResistorColor::Violet => 7,
        ResistorColor::Grey => 8,
        ResistorColor::White => 9,
    }
}

/// The name of the color with the given digit.
pub open spec fn name_of(value: u32) -> Seq<char> {
    if value == 0 {
        "Black"@
    } else if value == 1 {
        "Brown"@
    } else if value == 2 {
        "Red"@
    } else if value == 3 {
        "Orange"@
    } else if value == 4 {
        "Yellow"@
    } else if value == 5 {
        "Green"@
    } else if value == 6 {
        "Blue"@
    } else if value == 7 {
        "Violet"@
    } else if value == 8 {
        "Grey"@
    } else if value == 9 {
        "White"@
    } else {
        "value out of range"@
    }
}

pub fn color_to_value(color: ResistorColor) -> (r: u32)
    ensures
        r == value_of(color),
        r < 10,
{
    match color {
        ResistorColor::Black => 0,
        ResistorColor::Brown => 1,
        ResistorColor::Red => 2,
        ResistorColor::Orange => 3,
        ResistorColor::Yellow => 4,
        ResistorColor::Green => 5,
        ResistorColor::Blue => 6,
        ResistorColor::Violet => 7,
        ResistorColor::Grey => 8,
        ResistorColor::White => 9,
    }
}

/// The name of the color with digit `value`, or "value out of range".
pub fn value_to_color_string(value: u32) -> (r: String)
    ensures
        r@ == name_of(value),
{
    let name = if value == 0 {
        "Black"
    } else if value == 1 {
        "Brown"
    } else if value == 2 {
        "Red"
    } else if value == 3 {
        "Orange"
    } else if value == 4 {
        "Yellow"
    } else if value == 5 {
        "Green"
    } else if value == 6 {
        "Blue"
    } else if value == 7 {
        "Violet"
    } else if value == 8 {
        "Grey"
    } else if value == 9 {
        "White"
    } else {
        "value out of range"
    };
    String::from_str(name)
}

} // verus!
