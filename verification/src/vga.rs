//! The VGA text screen: attribute colors, packed character cells, and the
//! hardware cursor position registers.

use vstd::prelude::*;

verus! {

/// The sixteen VGA attribute colors, in hardware order.
#[derive(Clone, Copy, Debug, PartialEq, Eq, Structural)]
pub enum Color {
    Black,
    Blue,
    Green,
    Cyan,
    Red,
    Pink,
    Brown,
    LightGray,
    DarkGray,
    LightBlue,
    LightGreen,
    LightCyan,
    LightRed,
    LightPink,
    Yellow,
    White,
}

impl Color {
    /// The attribute code of the color.
    pub open spec fn code_spec(&self) -> u8 {
        match *self {
            Color::Black => 0,
            Color::Blue => 1,
            Color::Green => 2,
            Color::Cyan => 3,
            Color::Red => 4,
            Color::Pink => 5,
            Color::Brown => 6,
            Color::LightGray => 7,
            Color::DarkGray => 8,
            Color::LightBlue => 9,
            Color::LightGreen => 10,
            Color::LightCyan => 11,
            Color::LightRed => 12,
            Color::LightPink => 13,
            Color::Yellow => 14,
            Color::White => 15,
        }
    }

    /// The attribute code of the color.
    pub fn code(&self) -> (r: u8)
        ensures
            r == self.code_spec(),
            r < 16,
    {
        match *self {
            Color::Black => 0,
            Color::Blue => 1,
            Color::Green => 2,
            Color::Cyan => 3,
            Color::Red => 4,
            Color::Pink => 5,
            Color::Brown => 6,
            Color::LightGray => 7,
            Color::DarkGray => 8,
            Color::LightBlue => 9,
            Color::LightGreen => 10,
            Color::LightCyan => 11,
            Color::LightRed => 12,
            Color::LightPink => 13,
            Color::Yellow => 14,
            Color::White => 15,
        }
    }
}

/// One text cell: a byte of character and a byte of attribute.
#[derive(Clone, Copy, Debug, PartialEq, Eq, Structural)]
pub struct Char {
    pub char: u8,
    pub attr: u8,
}

impl Char {
    /// A cell showing byte `c` with the foreground color in the low
    /// attribute nibble and the background color in the high one.
    pub fn new(c: u8, fg: Color, bg: Color) -> (r: Char)
        ensures
            r.char == c,
            r.attr == fg.code_spec() + 16 * bg.code_spec(),
    {
        let f = fg.code();
        let b = bg.code();
        proof {
            assert(f | (b << 4) == f + 16 * b) by (bit_vector)
                requires
                    f < 16,
                    b < 16,
            ;
        }
        Char { char: c, attr: f | (b << 4) }
    }
}

/// Columns times rows of the text screen.
pub const SCREEN_SIZE: usize = 2000;

/// The two index/value register writes that move the hardware cursor to
/// text position `pos`: first the position's low byte, then its high
/// byte.  Pushing them out of the command and data ports is the
/// platform's step.
pub fn cursor_at(pos: usize) -> (r: (u8, u8))
    ensures
        r.0 == pos % 0x100,
        r.1 == (pos / 0x100) % 0x100,
{
    let lo = (pos % 0x100) as u8;
    let hi = ((pos / 0x100) % 0x100) as u8;
    (lo, hi)
}

} // verus!
