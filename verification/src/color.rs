//! The sixteen basic ANSI colors and their numeric offsets.

use vstd::prelude::*;

verus! {

/// The basic 16 colors you can use for ANSI.
pub enum Color {
    Black,
    Red,
    Green,
    Yellow,
    Blue,
    Magenta,
    Cyan,
    White,
    BrightBlack,
    BrightRed,
    BrightGreen,
    BrightYellow,
    BrightBlue,
    BrightMagenta,
    BrightCyan,
    BrightWhite,
}

impl Color {
    /// The offset that a color adds to the base code of a foreground or
    /// background directive: `0..=7` for the standard colors, `60..=67` for
    /// their bright counterparts.
    pub open spec fn value(self) -> u8 {
        match self {
            Color::Black => 0,
            Color::Red => 1,
            Color::Green => 2,
            Color::Yellow => 3,
            Color::Blue => 4,
            Color::Magenta => 5,
            Color::Cyan => 6,
            Color::White => 7,
            Color::BrightBlack => 60,
            Color::BrightRed => 61,
            Color::BrightGreen => 62,
            Color::BrightYellow => 63,
            Color::BrightBlue => 64,
            Color::BrightMagenta => 65,
            Color::BrightCyan => 66,
            Color::BrightWhite => 67,
        }
    }

    /// The code that selects this color for the text: `30` plus its offset.
    pub open spec fn foreground(self) -> u8 {
        (30 + self.value()) as u8
    }

    /// The code that selects this color for what lies behind the text: `40`
    /// plus its offset.
    pub open spec fn background(self) -> u8 {
        (40 + self.value()) as u8
    }

    /// Numeric offset of the color.
    pub fn int_value(&self) -> (v: u8)
        ensures
            v == self.value(),
            v <= 7 || 60 <= v <= 67,
    {
        match self {
            Color::Black => 0,
            Color::Red => 1,
            Color::Green => 2,
            Color::Yellow => 3,
            Color::Blue => 4,
            Color::Magenta => 5,
            Color::Cyan => 6,
            Color::White => 7,
            Color::BrightBlack => 60,
            Color::BrightRed => 61,
            Color::BrightGreen => 62,
            Color::BrightYellow => 63,
            Color::BrightBlue => 64,
            Color::BrightMagenta => 65,
            Color::BrightCyan => 66,
            Color::BrightWhite => 67,
        }
    }

    /// The name of the color as it is shown to a reader.
    pub open spec fn name(self) -> Seq<char> {
        match self {
            Color::Black => "Black"@,
            Color::Red => "Red"@,
            Color::Green => "Green"@,
            Color::Yellow => "Yellow"@,
            Color::Blue => "Blue"@,
            Color::Magenta => "Magenta"@,
            Color::Cyan => "Cyan"@,
            Color::White => "White"@,
            Color::BrightBlack => "Bright Black"@,
            Color::BrightRed => "Bright Red"@,
            Color::BrightGreen => "Bright Green"@,
            Color::BrightYellow => "Bright Yellow"@,
            Color::BrightBlue => "Bright Blue"@,
            Color::BrightMagenta => "Bright Magenta"@,
            Color::BrightCyan => "Bright Cyan"@,
            Color::BrightWhite => "Bright White"@,
        }
    }

    /// The name of the color, such as `Bright Magenta`.
    pub fn to_string(&self) -> (name: String)
        ensures
            name@ == self.name(),
    {
        match self {
            Color::Black => "Black".to_owned(),
            Color::Red => "Red".to_owned(),
            Color::Green => "Green".to_owned(),
            Color::Yellow => "Yellow".to_owned(),
            Color::Blue => "Blue".to_owned(),
            Color::Magenta => "Magenta".to_owned(),
            Color::Cyan => "Cyan".to_owned(),
            Color::White => "White".to_owned(),
            Color::BrightBlack => "Bright Black".to_owned(),
            Color::BrightRed => "Bright Red".to_owned(),
            Color::BrightGreen => "Bright Green".to_owned(),
            Color::BrightYellow => "Bright Yellow".to_owned(),
            Color::BrightBlue => "Bright Blue".to_owned(),
            Color::BrightMagenta => "Bright Magenta".to_owned(),
            Color::BrightCyan => "Bright Cyan".to_owned(),
            Color::BrightWhite => "Bright White".to_owned(),
        }
    }
}

} // verus!
