//! Colors and attribute bytes for a character-cell display.
//!
//! The display driver itself is an external collaborator; the store only needs
//! the pure computation of an attribute byte from a color pair.

use vstd::prelude::*;

verus! {

/// The sixteen text-mode palette colors, in hardware order (`Black` is index
/// 0, `White` is index 15).
#[derive(Debug, Clone, Copy, PartialEq, Eq, Structural)]
pub enum Color {
    Black,
    Blue,
    Green,
    Cyan,
    Red,
    Magenta,
    Brown,
    LightGray,
    DarkGray,
    LightBlue,
    LightGreen,
    LightCyan,
    LightRed,
    Pink,
    Yellow,
    White,
}

/// The hardware palette index of a color.
pub open spec fn color_value(c: Color) -> u8 {
    match c {
        Color::Black => 0,
        Color::Blue => 1,
        Color::Green => 2,
        Color::Cyan => 3,
        Color::Red => 4,
        Color::Magenta => 5,
        Color::Brown => 6,
        Color::LightGray => 7,
        Color::DarkGray => 8,
        Color::LightBlue => 9,
        Color::LightGreen => 10,
        Color::LightCyan => 11,
        Color::LightRed => 12,
        Color::Pink => 13,
        Color::Yellow => 14,
        Color::White => 15,
    }
}

/// Palette index of a color, as the display hardware numbers them.
pub fn color_index(c: Color) -> (r: u8)
    ensures
        r == color_value(c),
        r < 16,
{
    match c {
        Color::Black => 0,
        Color::Blue => 1,
        Color::Green => 2,
        Color::Cyan => 3,
        Color::Red => 4,
        Color::Magenta => 5,
        Color::Brown => 6,
        Color::LightGray => 7,
        Color::DarkGray => 8,
        Color::LightBlue => 9,
        Color::LightGreen => 10,
        Color::LightCyan => 11,
        Color::LightRed => 12,
        Color::Pink => 13,
        Color::Yellow => 14,
        Color::White => 15,
    }
}

/// A combined foreground/background attribute byte for one character cell:
/// background color in the high four bits, foreground in the low four.
#[derive(Debug, Clone, Copy, PartialEq, Eq, Structural)]
pub struct ColorCode(u8);

impl ColorCode {
    /// The attribute byte held by this code.
    pub closed spec fn spec_code(&self) -> u8 {
        self.0
    }

    /// Combine a foreground and a background color into one attribute byte.
    pub fn new(foreground: Color, background: Color) -> (r: ColorCode)
        ensures
            r.spec_code() == color_value(background) * 16 + color_value(foreground),
    {
        let fg = color_index(foreground);
        let bg = color_index(background);
        proof {
            assert(bg < 16 && fg < 16 ==> ((bg << 4) | fg) == bg * 16 + fg) by (bit_vector);
        }
        ColorCode((bg << 4) | fg)
    }

    /// The raw attribute byte, for handing to a display driver.
    pub fn code(&self) -> (r: u8)
        ensures
            r == self.spec_code(),
    {
        self.0
    }
}

} // verus!
