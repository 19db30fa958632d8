//! The glyph table: a packed 5x5 bitmap for every supported character code.

use vstd::prelude::*;

verus! {

/// Width of one glyph in pixels.
pub const CHAR_WIDTH: u32 = 5;

/// Height of one glyph in pixels.
pub const CHAR_HEIGHT: u32 = 5;

/// The packed bitmap for a character code. Bits are row-major starting from
/// the bottom-right corner of the glyph: pixel `(x, y)` sits at bit index
/// `(CHAR_HEIGHT - 1 - y) * CHAR_WIDTH + (CHAR_WIDTH - 1 - x)`. Codes outside
/// the table map to the all-blank bitmap `0`.
pub open spec fn glyph_bits(c: u8) -> u32 {
    match c {
        65 => 0x00e8fe31,
        66 => 0x01e8fa3e,
        67 => 0x00f8420f,
        68 => 0x01e8c63e,
        69 => 0x01f8721f,
        70 => 0x01f87210,
        71 => 0x00f85e2f,
        72 => 0x0118fe31,
        73 => 0x01f2109f,
        74 => 0x01f0862e,
        75 => 0x01197251,
        76 => 0x0108421f,
        77 => 0x011dd631,
        78 => 0x011cd671,
        79 => 0x00e8c62e,
        80 => 0x01e8fa10,
        81 => 0x00e8d66f,
        82 => 0x01e8fa51,
        83 => 0x00f8383e,
        84 => 0x01f21084,
        85 => 0x0118c62e,
        86 => 0x0118c544,
        87 => 0x0118d771,
        88 => 0x01151151,
        89 => 0x01151084,
        90 => 0x01f1111f,
        32 => 0x00000000,
        33 => 0x00421004,
        63 => 0x00e88884,
        46 => 0x00000004,
        44 => 0x00000088,
        58 => 0x00020080,
        59 => 0x00020088,
        39 => 0x00420000,
        34 => 0x00a50000,
        45 => 0x00007c00,
        48 => 0x00e9d72e,
        49 => 0x0046109f,
        50 => 0x00e8889f,
        51 => 0x00e89a2e,
        52 => 0x00232be2,
        53 => 0x01f8783e,
        54 => 0x00e87a2e,
        55 => 0x01f08888,
        56 => 0x00e8ba2e,
        57 => 0x00e8bc2e,
        40 => 0x00222082,
        41 => 0x00820888,
        _ => 0,
    }
}

/// Whether the bit for pixel `(x, y)` is set in a packed glyph bitmap.
pub open spec fn glyph_pixel(bitmap: u32, x: u32, y: u32) -> bool
    recommends
        x < CHAR_WIDTH,
        y < CHAR_HEIGHT,
{
    bitmap & (1u32 << (((CHAR_HEIGHT - 1 - y) * CHAR_WIDTH + (CHAR_WIDTH - 1 - x)) as u32)) != 0
}

/// Looks a character code up in the glyph table; unknown codes get the
/// all-blank bitmap.
pub fn get_char_bitmap(c: u8) -> (bitmap: u32)
    ensures
        bitmap == glyph_bits(c),
{
    match c {
        65 => 0x00e8fe31,
        66 => 0x01e8fa3e,
        67 => 0x00f8420f,
        68 => 0x01e8c63e,
        69 => 0x01f8721f,
        70 => 0x01f87210,
        71 => 0x00f85e2f,
        72 => 0x0118fe31,
        73 => 0x01f2109f,
        74 => 0x01f0862e,
        75 => 0x01197251,
        76 => 0x0108421f,
        77 => 0x011dd631,
        78 => 0x011cd671,
        79 => 0x00e8c62e,
        80 => 0x01e8fa10,
        81 => 0x00e8d66f,
        82 => 0x01e8fa51,
        83 => 0x00f8383e,
        84 => 0x01f21084,
        85 => 0x0118c62e,
        86 => 0x0118c544,
        87 => 0x0118d771,
        88 => 0x01151151,
        89 => 0x01151084,
        90 => 0x01f1111f,
        32 => 0x00000000,
        33 => 0x00421004,
        63 => 0x00e88884,
        46 => 0x00000004,
        44 => 0x00000088,
        58 => 0x00020080,
        59 => 0x00020088,
        39 => 0x00420000,
        34 => 0x00a50000,
        45 => 0x00007c00,
        48 => 0x00e9d72e,
        49 => 0x0046109f,
        50 => 0x00e8889f,
        51 => 0x00e89a2e,
        52 => 0x00232be2,
        53 => 0x01f8783e,
        54 => 0x00e87a2e,
        55 => 0x01f08888,
        56 => 0x00e8ba2e,
        57 => 0x00e8bc2e,
        40 => 0x00222082,
        41 => 0x00820888,
        _ => 0,
    }
}

/// Reads one pixel of a packed glyph bitmap.
pub fn get_pixel(bitmap: u32, x: u32, y: u32) -> (set: bool)
    requires
        x < CHAR_WIDTH,
        y < CHAR_HEIGHT,
    ensures
        set == glyph_pixel(bitmap, x, y),
{
    let bit_index = (CHAR_HEIGHT - 1 - y) * CHAR_WIDTH + (CHAR_WIDTH - 1 - x);
    (bitmap & (1u32 << bit_index)) != 0
}

/// A character whose bitmap is all-blank (in particular any code outside the
/// glyph table) paints no pixel at all: it occupies space without ink.
pub proof fn lemma_blank_glyph_paints_nothing(c: u8)
    requires
        glyph_bits(c) == 0,
    ensures
        forall|x: u32, y: u32|
            x < CHAR_WIDTH && y < CHAR_HEIGHT ==> !#[trigger] glyph_pixel(glyph_bits(c), x, y),
{
    assert forall|x: u32, y: u32|
        x < CHAR_WIDTH && y < CHAR_HEIGHT implies !#[trigger] glyph_pixel(glyph_bits(c), x, y) by {
        let shift = (((CHAR_HEIGHT - 1 - y) * CHAR_WIDTH + (CHAR_WIDTH - 1 - x)) as u32);
        assert(0u32 & (1u32 << shift) == 0) by (bit_vector);
    }
}

} // verus!
