//! Quantization of scaled DCT coefficients.
//!
//! Each coefficient is divided by a position-dependent quantization step
//! and rounded to the nearest integer, half away from zero. The steps come
//! from the standard base tables for luma and chroma, optionally rescaled
//! by a quality factor in 1 to 100; every step stays in `[1, 255]`.
//!
//! The transform stage hands over coefficients scaled by `2^26`
//! (`DCT_ONE`), so the quantizer divides by `step * DCT_ONE`, removing the
//! fixed-point scale and the quantization step in a single exact rounding.

use vstd::prelude::*;
use crate::dct::DCT_COEFF_BOUND;

verus! {

/// The fixed-point representation of 1.0 in the transform output: `2^26`.
pub const DCT_ONE: i64 = 67108864;

/// Integer division of `num` by `den >= 1`, rounded to the nearest integer
/// with halves away from zero.
pub open spec fn round_div(num: int, den: int) -> int {
    if num >= 0 {
        (2 * num + den) / (2 * den)
    } else {
        -((2 * (-num) + den) / (2 * den))
    }
}

/// The quantized coefficient for scaled coefficient `c` and step `step`.
pub open spec fn quantized_value(c: int, step: int) -> int {
    round_div(c, step * (DCT_ONE as int))
}

/// The standard base luma quantization step at position `k` (row-major).
pub open spec fn luma_base_step(k: int) -> int {
    if k == 0 { 16 } else if k == 1 { 11 } else if k == 2 { 10 } else if k == 3 { 16 }
    else if k == 4 { 24 } else if k == 5 { 40 } else if k == 6 { 51 } else if k == 7 { 61 }
    else if k == 8 { 12 } else if k == 9 { 12 } else if k == 10 { 14 } else if k == 11 { 19 }
    else if k == 12 { 26 } else if k == 13 { 58 } else if k == 14 { 60 } else if k == 15 { 55 }
    else if k == 16 { 14 } else if k == 17 { 13 } else if k == 18 { 16 } else if k == 19 { 24 }
    else if k == 20 { 40 } else if k == 21 { 57 } else if k == 22 { 69 } else if k == 23 { 56 }
    else if k == 24 { 14 } else if k == 25 { 17 } else if k == 26 { 22 } else if k == 27 { 29 }
    else if k == 28 { 51 } else if k == 29 { 87 } else if k == 30 { 80 } else if k == 31 { 62 }
    else if k == 32 { 18 } else if k == 33 { 22 } else if k == 34 { 37 } else if k == 35 { 56 }
    else if k == 36 { 68 } else if k == 37 { 109 } else if k == 38 { 103 } else if k == 39 { 77 }
    else if k == 40 { 24 } else if k == 41 { 35 } else if k == 42 { 55 } else if k == 43 { 64 }
    else if k == 44 { 81 } else if k == 45 { 104 } else if k == 46 { 113 } else if k == 47 { 92 }
    else if k == 48 { 49 } else if k == 49 { 64 } else if k == 50 { 78 } else if k == 51 { 87 }
    else if k == 52 { 103 } else if k == 53 { 121 } else if k == 54 { 120 } else if k == 55 { 101 }
    else if k == 56 { 72 } else if k == 57 { 92 } else if k == 58 { 95 } else if k == 59 { 98 }
    else if k == 60 { 112 } else if k == 61 { 100 } else if k == 62 { 103 } else { 99 }
}

/// The standard base chroma quantization step at position `k` (row-major).
pub open spec fn chroma_base_step(k: int) -> int {
    if k == 0 { 17 } else if k == 1 { 18 } else if k == 2 { 24 } else if k == 3 { 47 }
    else if k == 8 { 18 } else if k == 9 { 21 } else if k == 10 { 26 } else if k == 11 { 66 }
    else if k == 16 { 24 } else if k == 17 { 26 } else if k == 18 { 56 }
    else if k == 24 { 47 } else if k == 25 { 66 } else { 99 }
}

/// The standard base luma quantization table, row-major.
pub fn luma_quantization_table() -> (t: Vec<u8>)
    ensures
        t@.len() == 64,
        forall|k: int| 0 <= k < 64 ==> #[trigger] t@[k] as int == luma_base_step(k),
        forall|k: int| 0 <= k < 64 ==> 1 <= #[trigger] t@[k] <= 255,
{
    let mut t: Vec<u8> = Vec::new();
    for k in 0..64usize
        invariant
            t@.len() == k,
            forall|j: int| 0 <= j < k ==> #[trigger] t@[j] as int == luma_base_step(j),
            forall|j: int| 0 <= j < k ==> 1 <= #[trigger] t@[j] <= 255,
    {
        let v: u8 =
        if k == 0 { 16 } else if k == 1 { 11 } else if k == 2 { 10 } else if k == 3 { 16 }
        else if k == 4 { 24 } else if k == 5 { 40 } else if k == 6 { 51 } else if k == 7 { 61 }
        else if k == 8 { 12 } else if k == 9 { 12 } else if k == 10 { 14 } else if k == 11 { 19 }
        else if k == 12 { 26 } else if k == 13 { 58 } else if k == 14 { 60 } else if k == 15 { 55 }
        else if k == 16 { 14 } else if k == 17 { 13 } else if k == 18 { 16 } else if k == 19 { 24 }
        else if k == 20 { 40 } else if k == 21 { 57 } else if k == 22 { 69 } else if k == 23 { 56 }
        else if k == 24 { 14 } else if k == 25 { 17 } else if k == 26 { 22 } else if k == 27 { 29 }
        else if k == 28 { 51 } else if k == 29 { 87 } else if k == 30 { 80 } else if k == 31 { 62 }
        else if k == 32 { 18 } else if k == 33 { 22 } else if k == 34 { 37 } else if k == 35 { 56 }
        else if k == 36 { 68 } else if k == 37 { 109 } else if k == 38 { 103 } else if k == 39 { 77 }
        else if k == 40 { 24 } else if k == 41 { 35 } else if k == 42 { 55 } else if k == 43 { 64 }
        else if k == 44 { 81 } else if k == 45 { 104 } else if k == 46 { 113 } else if k == 47 { 92 }
        else if k == 48 { 49 } else if k == 49 { 64 } else if k == 50 { 78 } else if k == 51 { 87 }
        else if k == 52 { 103 } else if k == 53 { 121 } else if k == 54 { 120 } else if k == 55 { 101 }
        else if k == 56 { 72 } else if k == 57 { 92 } else if k == 58 { 95 } else if k == 59 { 98 }
        else if k == 60 { 112 } else if k == 61 { 100 } else if k == 62 { 103 } else { 99 };
        t.push(v);
    }
    t
}

/// The standard base chroma quantization table, row-major.
pub fn chroma_quantization_table() -> (t: Vec<u8>)
    ensures
        t@.len() == 64,
        forall|k: int| 0 <= k < 64 ==> #[trigger] t@[k] as int == chroma_base_step(k),
        forall|k: int| 0 <= k < 64 ==> 1 <= #[trigger] t@[k] <= 255,
{
    let mut t: Vec<u8> = Vec::new();
    for k in 0..64usize
        invariant
            t@.len() == k,
            forall|j: int| 0 <= j < k ==> #[trigger] t@[j] as int == chroma_base_step(j),
            forall|j: int| 0 <= j < k ==> 1 <= #[trigger] t@[j] <= 255,
    {
        let v: u8 =
        if k == 0 { 17 } else if k == 1 { 18 } else if k == 2 { 24 } else if k == 3 { 47 }
        else if k == 8 { 18 } else if k == 9 { 21 } else if k == 10 { 26 } else if k == 11 { 66 }
        else if k == 16 { 24 } else if k == 17 { 26 } else if k == 18 { 56 }
        else if k == 24 { 47 } else if k == 25 { 66 } else { 99 };
        t.push(v);
    }
    t
}

/// The linear scale factor applied to a base table for quality `q` in
/// `[1, 100]`: `5000 / q` below 50, `200 - 2q` from 50 up.
pub open spec fn quality_scale_factor(q: int) -> int {
    if q < 50 {
        5000int / q
    } else {
        200 - 2 * q
    }
}

/// One base step rescaled for quality `q`: `(base * factor + 50) / 100`,
/// clamped into `[1, 255]`.
pub open spec fn scaled_step(base: int, q: int) -> int {
    let s = (base * quality_scale_factor(q) + 50) / 100;
    if s < 1 {
        1
    } else if s > 255 {
        255
    } else {
        s
    }
}

/// Rescales a base quantization table for a quality setting in `[1, 100]`:
/// 50 keeps the base steps, lower quality coarsens them, higher quality
/// refines them. Every scaled step stays in `[1, 255]`.
pub fn scale_quantization_table(table: &Vec<u8>, quality: u8) -> (t: Vec<u8>)
    requires
        1 <= quality <= 100,
        table@.len() == 64,
    ensures
        t@.len() == 64,
        forall|k: int| 0 <= k < 64 ==> #[trigger] t@[k] as int == scaled_step(table@[k] as int, quality as int),
        forall|k: int| 0 <= k < 64 ==> 1 <= #[trigger] t@[k] <= 255,
{
    let factor: u32 = if quality < 50 {
        5000 / (quality as u32)
    } else {
        200 - 2 * (quality as u32)
    };
    assert(factor <= 5000);
    let mut t: Vec<u8> = Vec::new();
    for k in 0..64usize
        invariant
            table@.len() == 64,
            factor as int == quality_scale_factor(quality as int),
            factor <= 5000,
            t@.len() == k,
            forall|j: int| 0 <= j < k ==> #[trigger] t@[j] as int == scaled_step(table@[j] as int, quality as int),
            forall|j: int| 0 <= j < k ==> 1 <= #[trigger] t@[j] <= 255,
    {
        let step = table[k];
        proof {
            assert(0 <= (step as int) * (factor as int) <= 1275000) by (nonlinear_arith)
                requires 0 <= step <= 255 && 0 <= factor <= 5000;
        }
        let s: u32 = ((step as u32) * factor + 50) / 100;
        let v: u8 = if s < 1 { 1 } else if s > 255 { 255 } else { s as u8 };
        t.push(v);
    }
    t
}

/// A quotient is bounded by a multiple of its divisor.
proof fn lemma_div_bound(x: int, d: int, b: int)
    requires
        d >= 1,
        0 <= x,
        0 <= b,
        x <= b * d,
    ensures
        0 <= x / d <= b,
{
    vstd::arithmetic::div_mod::lemma_div_pos_is_pos(x, d);
    vstd::arithmetic::div_mod::lemma_fundamental_div_mod(x, d);
    let q = x / d;
    if q > b {
        assert(d * q >= d * (b + 1) && d * (b + 1) == d * b + d && d * b == b * d)
            by (nonlinear_arith)
            requires d >= 1 && q >= b + 1;
    }
}

/// Divides one scaled coefficient by `step * DCT_ONE` and rounds half away
/// from zero.
fn quantize_coeff(c: i64, step: u8) -> (q: i32)
    requires
        step >= 1,
        -DCT_COEFF_BOUND <= c <= DCT_COEFF_BOUND,
    ensures
        q as int == quantized_value(c as int, step as int),
        -4096 <= q <= 4096,
{
    let den: i64 = (step as i64) * DCT_ONE;
    assert(den >= DCT_ONE);
    assert(den <= 255 * DCT_ONE) by (nonlinear_arith)
        requires 1 <= step <= 255 && den == (step as int) * (DCT_ONE as int);
    let q: i64 = if c >= 0 {
        proof {
            lemma_div_bound(2 * c + den, 2 * den, 4096);
            assert(2 * (c as int) + den <= 4096 * (2 * (den as int))) by (nonlinear_arith)
                requires (c as int) <= DCT_COEFF_BOUND as int && (den as int) >= DCT_ONE as int;
        }
        (2 * c + den) / (2 * den)
    } else {
        proof {
            lemma_div_bound(2 * (-(c as int)) + den, 2 * den, 4096);
            assert(2 * (-(c as int)) + den <= 4096 * (2 * (den as int))) by (nonlinear_arith)
                requires -(DCT_COEFF_BOUND as int) <= (c as int) && (den as int) >= DCT_ONE as int;
        }
        -((2 * (-c) + den) / (2 * den))
    };
    q as i32
}

/// Quantizes one block of 64 scaled coefficients against a step table.
pub fn quantize_block(coeffs: &Vec<i64>, table: &Vec<u8>) -> (out: Vec<i32>)
    requires
        coeffs@.len() == 64,
        table@.len() == 64,
        forall|k: int| 0 <= k < 64 ==> #[trigger] table@[k] >= 1,
        forall|k: int|
            0 <= k < 64 ==> -DCT_COEFF_BOUND <= #[trigger] coeffs@[k] <= DCT_COEFF_BOUND,
    ensures
        out@.len() == 64,
        forall|k: int|
            0 <= k < 64
                ==> #[trigger] out@[k] as int == quantized_value(coeffs@[k] as int, table@[k] as int),
{
    let mut out: Vec<i32> = Vec::new();
    for k in 0..64usize
        invariant
            coeffs@.len() == 64,
            table@.len() == 64,
            forall|j: int| 0 <= j < 64 ==> #[trigger] table@[j] >= 1,
            forall|j: int|
                0 <= j < 64 ==> -DCT_COEFF_BOUND <= #[trigger] coeffs@[j] <= DCT_COEFF_BOUND,
            out@.len() == k,
            forall|j: int|
                0 <= j < k
                    ==> #[trigger] out@[j] as int
                        == quantized_value(coeffs@[j] as int, table@[j] as int),
    {
        let q = quantize_coeff(coeffs[k], table[k]);
        out.push(q);
    }
    out
}

/// Quantizes every block of a plane against one step table.
pub fn quantize_plane(blocks: &Vec<Vec<i64>>, table: &Vec<u8>) -> (out: Vec<Vec<i32>>)
    requires
        table@.len() == 64,
        forall|k: int| 0 <= k < 64 ==> #[trigger] table@[k] >= 1,
        forall|b: int| 0 <= b < blocks@.len() ==> (#[trigger] blocks@[b])@.len() == 64,
        forall|b: int, k: int|
            0 <= b < blocks@.len() && 0 <= k < 64
                ==> -DCT_COEFF_BOUND <= #[trigger] blocks@[b]@[k] <= DCT_COEFF_BOUND,
    ensures
        out@.len() == blocks@.len(),
        forall|b: int| 0 <= b < out@.len() ==> (#[trigger] out@[b])@.len() == 64,
        forall|b: int, k: int|
            0 <= b < out@.len() && 0 <= k < 64
                ==> #[trigger] out@[b]@[k] as int
                    == quantized_value(blocks@[b]@[k] as int, table@[k] as int),
{
    let mut out: Vec<Vec<i32>> = Vec::new();
    let n = blocks.len();
    for b in 0..n
        invariant
            n == blocks@.len(),
            table@.len() == 64,
            forall|k: int| 0 <= k < 64 ==> #[trigger] table@[k] >= 1,
            forall|t: int| 0 <= t < blocks@.len() ==> (#[trigger] blocks@[t])@.len() == 64,
            forall|t: int, k: int|
                0 <= t < blocks@.len() && 0 <= k < 64
                    ==> -DCT_COEFF_BOUND <= #[trigger] blocks@[t]@[k] <= DCT_COEFF_BOUND,
            out@.len() == b,
            forall|t: int| 0 <= t < out@.len() ==> (#[trigger] out@[t])@.len() == 64,
            forall|t: int, k: int|
                0 <= t < out@.len() && 0 <= k < 64
                    ==> #[trigger] out@[t]@[k] as int
                        == quantized_value(blocks@[t]@[k] as int, table@[k] as int),
    {
        let q = quantize_block(&blocks[b], table);
        out.push(q);
    }
    out
}

/// Quantizes the three planes' coefficient blocks: the luma plane against
/// the luma step table, both chroma planes against the chroma step table.
pub fn quantization(
    y: &Vec<Vec<i64>>,
    cb: &Vec<Vec<i64>>,
    cr: &Vec<Vec<i64>>,
    luma_table: &Vec<u8>,
    chroma_table: &Vec<u8>,
) -> (out: (Vec<Vec<i32>>, Vec<Vec<i32>>, Vec<Vec<i32>>))
    requires
        luma_table@.len() == 64,
        chroma_table@.len() == 64,
        forall|k: int| 0 <= k < 64 ==> #[trigger] luma_table@[k] >= 1,
        forall|k: int| 0 <= k < 64 ==> #[trigger] chroma_table@[k] >= 1,
        forall|b: int| 0 <= b < y@.len() ==> (#[trigger] y@[b])@.len() == 64,
        forall|b: int| 0 <= b < cb@.len() ==> (#[trigger] cb@[b])@.len() == 64,
        forall|b: int| 0 <= b < cr@.len() ==> (#[trigger] cr@[b])@.len() == 64,
        forall|b: int, k: int|
            0 <= b < y@.len() && 0 <= k < 64
                ==> -DCT_COEFF_BOUND <= #[trigger] y@[b]@[k] <= DCT_COEFF_BOUND,
        forall|b: int, k: int|
            0 <= b < cb@.len() && 0 <= k < 64
                ==> -DCT_COEFF_BOUND <= #[trigger] cb@[b]@[k] <= DCT_COEFF_BOUND,
        forall|b: int, k: int|
            0 <= b < cr@.len() && 0 <= k < 64
                ==> -DCT_COEFF_BOUND <= #[trigger] cr@[b]@[k] <= DCT_COEFF_BOUND,
    ensures
        out.0@.len() == y@.len(),
        out.1@.len() == cb@.len(),
        out.2@.len() == cr@.len(),
        forall|b: int| 0 <= b < out.0@.len() ==> (#[trigger] out.0@[b])@.len() == 64,
        forall|b: int| 0 <= b < out.1@.len() ==> (#[trigger] out.1@[b])@.len() == 64,
        forall|b: int| 0 <= b < out.2@.len() ==> (#[trigger] out.2@[b])@.len() == 64,
        forall|b: int, k: int|
            0 <= b < out.0@.len() && 0 <= k < 64
                ==> #[trigger] out.0@[b]@[k] as int
                    == quantized_value(y@[b]@[k] as int, luma_table@[k] as int),
        forall|b: int, k: int|
            0 <= b < out.1@.len() && 0 <= k < 64
                ==> #[trigger] out.1@[b]@[k] as int
                    == quantized_value(cb@[b]@[k] as int, chroma_table@[k] as int),
        forall|b: int, k: int|
            0 <= b < out.2@.len() && 0 <= k < 64
                ==> #[trigger] out.2@[b]@[k] as int
                    == quantized_value(cr@[b]@[k] as int, chroma_table@[k] as int),
{
    (
        quantize_plane(y, luma_table),
        quantize_plane(cb, chroma_table),
        quantize_plane(cr, chroma_table),
    )
}

} // verus!
