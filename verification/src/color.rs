//! Colorspace conversion: RGB samples to YCbCr samples.
//!
//! The reference formulas are
//! `Y  =  0.299 R + 0.587 G + 0.114 B`,
//! `Cb = -0.1687 R - 0.3313 G + 0.5 B + 128`,
//! `Cr =  0.5 R - 0.4187 G - 0.0813 B + 128`,
//! each truncated (not rounded) to an integer. All coefficients have at most
//! four decimal digits, so the formulas are computed exactly over the
//! integers after scaling by 1000 (for Y) or 10000 (for Cb and Cr); the
//! truncation is the integer division. For 8-bit inputs every channel lands
//! in `[0, 255]`, so no clamping is ever exercised.

use vstd::prelude::*;

verus! {

/// The luma channel of a pixel: `0.299 R + 0.587 G + 0.114 B`, truncated.
pub open spec fn y_of(r: int, g: int, b: int) -> int {
    (299 * r + 587 * g + 114 * b) / 1000
}

/// The blue-difference chroma channel: `-0.1687 R - 0.3313 G + 0.5 B + 128`,
/// truncated.
pub open spec fn cb_of(r: int, g: int, b: int) -> int {
    (1280000 + 5000 * b - 1687 * r - 3313 * g) / 10000
}

/// The red-difference chroma channel: `0.5 R - 0.4187 G - 0.0813 B + 128`,
/// truncated.
pub open spec fn cr_of(r: int, g: int, b: int) -> int {
    (1280000 + 5000 * r - 4187 * g - 813 * b) / 10000
}

/// The YCbCr triple of one RGB pixel.
pub open spec fn ycbcr_of(p: (u8, u8, u8)) -> (u8, u8, u8) {
    (
        y_of(p.0 as int, p.1 as int, p.2 as int) as u8,
        cb_of(p.0 as int, p.1 as int, p.2 as int) as u8,
        cr_of(p.0 as int, p.1 as int, p.2 as int) as u8,
    )
}

/// Every channel of the conversion lands in `[0, 255]`: the Y weights sum to
/// one, and the two chroma channels stay within half a unit of `[0.5, 255.5)`
/// around the 128 offset.
pub proof fn lemma_ycbcr_in_range(r: int, g: int, b: int)
    requires
        0 <= r <= 255,
        0 <= g <= 255,
        0 <= b <= 255,
    ensures
        0 <= y_of(r, g, b) <= 255,
        0 <= cb_of(r, g, b) <= 255,
        0 <= cr_of(r, g, b) <= 255,
{
    assert(299 * r + 587 * g + 114 * b <= 255000) by (nonlinear_arith)
        requires 0 <= r <= 255 && 0 <= g <= 255 && 0 <= b <= 255;
    assert(1687 * r + 3313 * g <= 1275000) by (nonlinear_arith)
        requires 0 <= r <= 255 && 0 <= g <= 255;
    assert(5000 * b <= 1275000) by (nonlinear_arith)
        requires 0 <= b <= 255;
    assert(4187 * g + 813 * b <= 1275000) by (nonlinear_arith)
        requires 0 <= g <= 255 && 0 <= b <= 255;
    assert(5000 * r <= 1275000) by (nonlinear_arith)
        requires 0 <= r <= 255;
}

/// Converts one RGB pixel to YCbCr, matching the reference truncation
/// behaviour exactly.
pub fn rgb_to_ycbcr(r: u8, g: u8, b: u8) -> (c: (u8, u8, u8))
    ensures
        c == ycbcr_of((r, g, b)),
{
    proof {
        lemma_ycbcr_in_range(r as int, g as int, b as int);
    }
    let ri: u32 = r as u32;
    let gi: u32 = g as u32;
    let bi: u32 = b as u32;
    let y: u32 = (299 * ri + 587 * gi + 114 * bi) / 1000;
    let cb: u32 = (1280000 + 5000 * bi - (1687 * ri + 3313 * gi)) / 10000;
    let cr: u32 = (1280000 + 5000 * ri - (4187 * gi + 813 * bi)) / 10000;
    (y as u8, cb as u8, cr as u8)
}

/// Converts a grid of RGB pixels to YCbCr pixels, one for one, keeping the
/// caller's (row-major) pixel order. Always succeeds on any pixel grid.
pub fn colorspace_conversion(pixels: &Vec<(u8, u8, u8)>) -> (out: Vec<(u8, u8, u8)>)
    ensures
        out@.len() == pixels@.len(),
        forall|k: int| 0 <= k < pixels@.len() ==> out@[k] == ycbcr_of(#[trigger] pixels@[k]),
{
    let mut out: Vec<(u8, u8, u8)> = Vec::new();
    let n = pixels.len();
    for k in 0..n
        invariant
            n == pixels@.len(),
            out@.len() == k,
            forall|j: int| 0 <= j < k ==> out@[j] == ycbcr_of(#[trigger] pixels@[j]),
    {
        let (r, g, b) = pixels[k];
        let c = rgb_to_ycbcr(r, g, b);
        out.push(c);
    }
    out
}

} // verus!
