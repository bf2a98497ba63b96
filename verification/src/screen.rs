//! The screen model: color depths, resolutions, pixels and their packed
//! machine words, and the drawing cursor.

use vstd::prelude::*;

verus! {

/// How many bits encode one pixel.
#[derive(Clone, Copy, Debug, PartialEq, Eq, Structural)]
pub enum ColorDepth {
    NoColor,
    BW,
    HighColor,
    TrueColor,
    ARGB,
}

impl ColorDepth {
    /// The bit count this depth stands for.
    pub open spec fn bits_spec(&self) -> int {
        match *self {
            ColorDepth::NoColor => 0,
            ColorDepth::BW => 1,
            ColorDepth::HighColor => 16,
            ColorDepth::TrueColor => 24,
            ColorDepth::ARGB => 32,
        }
    }

    /// The depth a bit count names; an unknown count means no color.
    pub fn from_uint(x: usize) -> (r: ColorDepth)
        ensures
            x == 1 ==> r == ColorDepth::BW,
            x == 16 ==> r == ColorDepth::HighColor,
            x == 24 ==> r == ColorDepth::TrueColor,
            x == 32 ==> r == ColorDepth::ARGB,
            !(x == 1 || x == 16 || x == 24 || x == 32) ==> r == ColorDepth::NoColor,
            (x == 1 || x == 16 || x == 24 || x == 32) ==> r.bits_spec() == x,
    {
        if x == 1 {
            ColorDepth::BW
        } else if x == 16 {
            ColorDepth::HighColor
        } else if x == 24 {
            ColorDepth::TrueColor
        } else if x == 32 {
            ColorDepth::ARGB
        } else {
            ColorDepth::NoColor
        }
    }
}

/// A display resolution in pixels.
#[derive(Clone, Copy, Debug, PartialEq, Eq, Structural)]
pub struct Resolution {
    pub w: usize,
    pub h: usize,
}

/// One pixel in some depth's encoding.
#[derive(Clone, Copy, Debug, PartialEq, Eq, Structural)]
pub enum Pixel {
    NoColorPixel,
    BWPixel(bool),
    HighColorPixel(u8, u8, u8),
    TrueColorPixel(u8, u8, u8),
    ARGBPixel(u8, u8, u8, u8),
}

impl Pixel {
    /// The black (or off) pixel of the given depth.
    pub fn new(c: ColorDepth) -> (r: Pixel)
        ensures
            c == ColorDepth::NoColor ==> r == Pixel::NoColorPixel,
            c == ColorDepth::BW ==> r == Pixel::BWPixel(false),
            c == ColorDepth::HighColor ==> r == Pixel::HighColorPixel(0, 0, 0),
            c == ColorDepth::TrueColor ==> r == Pixel::TrueColorPixel(0, 0, 0),
            c == ColorDepth::ARGB ==> r == Pixel::ARGBPixel(0, 0, 0, 0),
    {
        match c {
            ColorDepth::NoColor => Pixel::NoColorPixel,
            ColorDepth::BW => Pixel::BWPixel(false),
            ColorDepth::HighColor => Pixel::HighColorPixel(0, 0, 0),
            ColorDepth::TrueColor => Pixel::TrueColorPixel(0, 0, 0),
            ColorDepth::ARGB => Pixel::ARGBPixel(0, 0, 0, 0),
        }
    }

    /// The machine word the pixel packs into: all-ones or zero for
    /// black-and-white, `5:6:5` for high color, one byte per channel —
    /// highest first — for true color and alpha color.
    pub fn word(&self) -> (r: u32)
        ensures
            *self matches Pixel::BWPixel(v) ==> r == (if v {
                0xFFFF_FFFFu32
            } else {
                0u32
            }),
            *self matches Pixel::HighColorPixel(rr, g, b) ==> r == ((rr & 31) as u32) * 0x800 + ((
            g & 63) as u32) * 0x20 + ((b & 31) as u32),
            *self matches Pixel::TrueColorPixel(rr, g, b) ==> r == (rr as u32) * 0x10000 + (
            g as u32) * 0x100 + (b as u32),
            *self matches Pixel::ARGBPixel(a, rr, g, b) ==> r == (a as u32) * 0x1000000 + (
            rr as u32) * 0x10000 + (g as u32) * 0x100 + (b as u32),
            *self == Pixel::NoColorPixel ==> r == 0,
    {
        match *self {
            Pixel::BWPixel(v) => {
                if v {
                    0xFFFF_FFFF
                } else {
                    0
                }
            },
            Pixel::HighColorPixel(rr, g, b) => {
                let rw = (rr & 31) as u32;
                let gw = (g & 63) as u32;
                let bw = (b & 31) as u32;
                proof {
                    let r8 = rr;
                    let g8 = g;
                    let b8 = b;
                    assert(((r8 & 31) as u32) << 11 == ((r8 & 31) as u32) * 0x800) by (bit_vector);
                    assert(((g8 & 63) as u32) << 5 == ((g8 & 63) as u32) * 0x20) by (bit_vector);
                    assert((((r8 & 31) as u32) << 11) | (((g8 & 63) as u32) << 5) | ((b8
                        & 31) as u32) == (((r8 & 31) as u32) << 11) + (((g8 & 63) as u32) << 5) + ((
                    b8 & 31) as u32)) by (bit_vector);
                }
                (rw << 11) | (gw << 5) | bw
            },
            Pixel::TrueColorPixel(rr, g, b) => {
                proof {
                    let r8 = rr;
                    let g8 = g;
                    let b8 = b;
                    assert((r8 as u32) << 16 == (r8 as u32) * 0x10000) by (bit_vector);
                    assert((g8 as u32) << 8 == (g8 as u32) * 0x100) by (bit_vector);
                    assert(((r8 as u32) << 16) | ((g8 as u32) << 8) | (b8 as u32) == ((r8
                        as u32) << 16) + ((g8 as u32) << 8) + (b8 as u32)) by (bit_vector);
                }
                ((rr as u32) << 16) | ((g as u32) << 8) | (b as u32)
            },
            Pixel::ARGBPixel(a, rr, g, b) => {
                proof {
                    let a8 = a;
                    let r8 = rr;
                    let g8 = g;
                    let b8 = b;
                    assert((a8 as u32) << 24 == (a8 as u32) * 0x1000000) by (bit_vector);
                    assert((r8 as u32) << 16 == (r8 as u32) * 0x10000) by (bit_vector);
                    assert((g8 as u32) << 8 == (g8 as u32) * 0x100) by (bit_vector);
                    assert(((a8 as u32) << 24) | ((r8 as u32) << 16) | ((g8 as u32) << 8) | (b8
                        as u32) == ((a8 as u32) << 24) + ((r8 as u32) << 16) + ((g8 as u32) << 8)
                        + (b8 as u32)) by (bit_vector);
                }
                ((a as u32) << 24) | ((rr as u32) << 16) | ((g as u32) << 8) | (b as u32)
            },
            Pixel::NoColorPixel => 0,
        }
    }
}

/// The drawing cursor: where the next character lands, its box, and the
/// colors it draws with.
#[derive(Clone, Copy, Debug, PartialEq, Eq, Structural)]
#[allow(non_camel_case_types)]
pub struct cursor {
    pub x: u32,
    pub y: u32,
    pub height: u32,
    pub width: u32,
    pub cursor_color: Pixel,
    pub fg_color: Pixel,
    pub bg_color: Pixel,
}

} // verus!
