//! Colours written as `0xRRGGBB` numbers, and their three channels.
use vstd::prelude::*;

verus! {

/// The colour with channels `r`, `g` and `b`, as a number `0xRRGGBB`.
pub open spec fn rgb_number(r: u8, g: u8, b: u8) -> int {
    r * 0x10000 + g * 0x100 + b
}

/// Splits `0xRRGGBB` into its red, green and blue channels; the highest
/// byte is ignored.
pub fn deconstruct_rgb(rgb: u32) -> (c: (u8, u8, u8))
    ensures
        c.0 == (rgb / 0x10000) % 0x100,
        c.1 == (rgb / 0x100) % 0x100,
        c.2 == rgb % 0x100,
{
    let r = ((rgb >> 16u32) & 0xFFu32) as u8;
    let g = ((rgb >> 8u32) & 0xFFu32) as u8;
    let b = (rgb & 0xFFu32) as u8;
    assert(((rgb >> 16u32) & 0xFFu32) == (rgb / 0x10000) % 0x100) by (bit_vector);
    assert(((rgb >> 8u32) & 0xFFu32) == (rgb / 0x100) % 0x100) by (bit_vector);
    assert((rgb & 0xFFu32) == rgb % 0x100) by (bit_vector);
    (r, g, b)
}

/// Joins red, green and blue channels into `0xRRGGBB`.
pub fn construct_rgb(r: u8, g: u8, b: u8) -> (rgb: u32)
    ensures
        rgb == rgb_number(r, g, b),
{
    let rr = r as u32;
    let gg = g as u32;
    let bb = b as u32;
    assert(rr < 0x100 && gg < 0x100 && bb < 0x100);
    assert((rr << 16u32) | (gg << 8u32) | bb == rr * 0x10000 + gg * 0x100 + bb) by (bit_vector)
        requires
            rr < 0x100,
            gg < 0x100,
            bb < 0x100,
    ;
    (rr << 16u32) | (gg << 8u32) | bb
}

/// Splitting a colour and joining its channels gives back its low three
/// bytes.
pub proof fn law_construct_after_deconstruct(rgb: u32)
    ensures
        rgb_number(
            ((rgb / 0x10000) % 0x100) as u8,
            ((rgb / 0x100) % 0x100) as u8,
            (rgb % 0x100) as u8,
        ) == rgb % 0x1000000,
{
    assert(((rgb / 0x10000) % 0x100) * 0x10000 + ((rgb / 0x100) % 0x100) * 0x100 + rgb % 0x100
        == rgb % 0x1000000) by (bit_vector);
}

/// Joining channels and splitting the colour gives the channels back.
pub proof fn law_deconstruct_after_construct(r: u8, g: u8, b: u8)
    ensures
        rgb_number(r, g, b) <= u32::MAX,
        (rgb_number(r, g, b) / 0x10000) % 0x100 == r,
        (rgb_number(r, g, b) / 0x100) % 0x100 == g,
        rgb_number(r, g, b) % 0x100 == b,
{
    let rr = r as u32;
    let gg = g as u32;
    let bb = b as u32;
    assert((rr * 0x10000 + gg * 0x100 + bb) / 0x10000 % 0x100 == rr && (rr * 0x10000 + gg * 0x100
        + bb) / 0x100 % 0x100 == gg && (rr * 0x10000 + gg * 0x100 + bb) % 0x100 == bb)
        by (bit_vector)
        requires
            rr < 0x100,
            gg < 0x100,
            bb < 0x100,
    ;
}

} // verus!
