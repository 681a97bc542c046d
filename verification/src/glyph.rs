//! Glyph records of a bitmap font and the pixels of a rendered glyph.
use vstd::prelude::*;
use crate::bit_pusher::level_bits;

verus! {

/// Where the bitmap of one glyph starts and how it is placed, as the
/// target's `PFXglyph` structure stores it.
#[allow(non_snake_case)]
#[derive(Clone, Copy, Debug, PartialEq, Eq)]
pub struct PFXGlyph {
    pub bitmapOffset: u16,
    pub width: u8,
    pub height: u8,
    pub xAdvance: u8,
    pub xOffset: i8,
    pub yOffset: i8,
}

/// The record of a glyph that has no bitmap.
pub open spec fn zero_glyph() -> PFXGlyph {
    PFXGlyph { bitmapOffset: 0, width: 0, height: 0, xAdvance: 0, xOffset: 0, yOffset: 0 }
}

impl PFXGlyph {
    /// A record with every field zero.
    pub fn new() -> (g: PFXGlyph)
        ensures
            g == zero_glyph(),
    {
        PFXGlyph { bitmapOffset: 0, width: 0, height: 0, xAdvance: 0, yOffset: 0, xOffset: 0 }
    }
}

/// Pixel `x` of row `y` of a one-bit-per-pixel bitmap whose rows start
/// `pitch` bytes apart, the leftmost pixel of a byte in its most
/// significant bit.
pub open spec fn mono_pixel(bits: Seq<u8>, pitch: int, y: int, x: int) -> bool {
    bits[y * pitch + x / 8] & (0x80u8 >> ((x % 8) as u8)) != 0
}

/// Row `y` of such a bitmap, `width` pixels from left to right.
pub open spec fn mono_row(bits: Seq<u8>, pitch: int, width: nat, y: int) -> Seq<bool> {
    Seq::new(width, |x: int| mono_pixel(bits, pitch, y, x))
}

/// The first `rows` rows of such a bitmap, top row first.
pub open spec fn mono_pixels(bits: Seq<u8>, pitch: int, width: nat, rows: nat) -> Seq<bool>
    decreases rows,
{
    if rows == 0 {
        Seq::empty()
    } else {
        mono_pixels(bits, pitch, width, (rows - 1) as nat) + mono_row(bits, pitch, width, rows - 1)
    }
}

/// Every pixel of a `width` by `rows` bitmap lies inside `bits`, and its
/// byte offset fits an `i32`.
pub open spec fn mono_in_bounds(len: nat, width: int, rows: int, pitch: int) -> bool {
    &&& width > 0
    &&& rows > 0
    &&& (rows == 1 || pitch >= 0)
    &&& (rows - 1) * pitch + (width - 1) / 8 < len
    &&& (rows - 1) * pitch + (width - 1) / 8 <= i32::MAX
}

pub proof fn lemma_mono_pixels_len(bits: Seq<u8>, pitch: int, width: nat, rows: nat)
    ensures
        mono_pixels(bits, pitch, width, rows).len() == width * rows,
    decreases rows,
{
    if rows > 0 {
        lemma_mono_pixels_len(bits, pitch, width, (rows - 1) as nat);
        assert(width * rows == width * (rows - 1) + width) by (nonlinear_arith);
    } else {
        assert(width * rows == 0) by (nonlinear_arith)
            requires
                rows == 0,
        ;
    }
}

/// Pixel `x` of row `y` of an 8-bit grey bitmap whose rows start `pitch`
/// bytes apart, reduced to its `bpp` most significant bits.
pub open spec fn grey_level(bits: Seq<u8>, pitch: int, y: int, x: int, bpp: nat) -> u8 {
    bits[y * pitch + x] >> ((8 - bpp) as u8)
}

/// The first `width` pixels of row `y` of such a bitmap, each as its `bpp`
/// level bits, most significant first.
pub open spec fn grey_row(bits: Seq<u8>, pitch: int, y: int, width: nat, bpp: nat) -> Seq<bool>
    decreases width,
{
    if width == 0 {
        Seq::empty()
    } else {
        grey_row(bits, pitch, y, (width - 1) as nat, bpp) + level_bits(
            grey_level(bits, pitch, y, width - 1, bpp),
            bpp,
        )
    }
}

/// The first `rows` rows of such a bitmap, top row first.
pub open spec fn grey_pixels(bits: Seq<u8>, pitch: int, width: nat, rows: nat, bpp: nat) -> Seq<bool>
    decreases rows,
{
    if rows == 0 {
        Seq::empty()
    } else {
        grey_pixels(bits, pitch, width, (rows - 1) as nat, bpp) + grey_row(bits, pitch, rows - 1, width, bpp)
    }
}

/// Every pixel of a `width` by `rows` grey bitmap lies inside `bits`, and
/// its byte offset fits an `i32`.
pub open spec fn grey_in_bounds(len: nat, width: int, rows: int, pitch: int) -> bool {
    &&& width > 0
    &&& rows > 0
    &&& (rows == 1 || pitch >= 0)
    &&& (rows - 1) * pitch + (width - 1) < len
    &&& (rows - 1) * pitch + (width - 1) <= i32::MAX
}

pub proof fn lemma_grey_row_len(bits: Seq<u8>, pitch: int, y: int, width: nat, bpp: nat)
    ensures
        grey_row(bits, pitch, y, width, bpp).len() == width * bpp,
    decreases width,
{
    if width > 0 {
        lemma_grey_row_len(bits, pitch, y, (width - 1) as nat, bpp);
        assert(width * bpp == (width - 1) * bpp + bpp) by (nonlinear_arith);
    } else {
        assert(width * bpp == 0) by (nonlinear_arith)
            requires
                width == 0,
        ;
    }
}

pub proof fn lemma_grey_pixels_len(bits: Seq<u8>, pitch: int, width: nat, rows: nat, bpp: nat)
    ensures
        grey_pixels(bits, pitch, width, rows, bpp).len() == width * rows * bpp,
    decreases rows,
{
    lemma_grey_row_len(bits, pitch, rows - 1, width, bpp);
    if rows > 0 {
        lemma_grey_pixels_len(bits, pitch, width, (rows - 1) as nat, bpp);
        assert(width * rows * bpp == width * (rows - 1) * bpp + width * bpp) by (nonlinear_arith);
    } else {
        assert(width * rows * bpp == 0) by (nonlinear_arith)
            requires
                rows == 0,
        ;
    }
}

} // verus!
