//! Forward 8x8 discrete cosine transform (DCT-II) in exact fixed-point
//! arithmetic.
//!
//! The reference transform is
//! `F(i,j) = 0.25 C(i) C(j) sum_x sum_y s(x,y) cos((2x+1)i pi/16) cos((2y+1)j pi/16)`
//! with `C(0) = 1/sqrt(2)` and `C(k>0) = 1`, applied to samples shifted by
//! -128. Folding the normalization into the basis gives
//! `F(i,j) = sum_x sum_y s(x,y) B(i,x) B(j,y)` with
//! `B(i,x) = 0.5 C(i) cos((2x+1)i pi/16)`.
//!
//! `dct_basis` tabulates `B` rounded to 13 fractional bits
//! (`round(8192 * B(i,x))`); the table keeps the exact sign symmetries of
//! the cosine, so every non-DC basis row sums to exactly zero. The
//! transform output is the exact integer
//! `sum_x sum_y (s(x,y) - 128) * dct_basis(i,x) * dct_basis(j,y)`,
//! i.e. the real coefficient scaled by 2^26; the quantizer divides the
//! scale back out. Every coefficient stays within `DCT_COEFF_BOUND`.

use vstd::prelude::*;

verus! {

/// Largest possible magnitude of a scaled coefficient:
/// `64 * 128 * 4096 * 4096 = 2^37`.
pub const DCT_COEFF_BOUND: i64 = 137438953472;

/// The fixed-point DCT basis: `round(8192 * 0.5 * C(i) * cos((2x+1)i pi/16))`
/// for row `i`, sample position `x`. Row 0 is constant; rows 1 to 7 carry
/// the exact sign symmetries of the cosine, so each of them sums to zero.
pub open spec fn dct_basis(i: int, x: int) -> int {
    if i == 0 {
        2896
    } else if i == 1 {
        if x == 0 { 4017 } else if x == 1 { 3406 } else if x == 2 { 2276 }
        else if x == 3 { 799 } else if x == 4 { -799 } else if x == 5 { -2276 }
        else if x == 6 { -3406 } else { -4017 }
    } else if i == 2 {
        if x == 0 { 3784 } else if x == 1 { 1567 } else if x == 2 { -1567 }
        else if x == 3 { -3784 } else if x == 4 { -3784 } else if x == 5 { -1567 }
        else if x == 6 { 1567 } else { 3784 }
    } else if i == 3 {
        if x == 0 { 3406 } else if x == 1 { -799 } else if x == 2 { -4017 }
        else if x == 3 { -2276 } else if x == 4 { 2276 } else if x == 5 { 4017 }
        else if x == 6 { 799 } else { -3406 }
    } else if i == 4 {
        if x == 0 { 2896 } else if x == 1 { -2896 } else if x == 2 { -2896 }
        else if x == 3 { 2896 } else if x == 4 { 2896 } else if x == 5 { -2896 }
        else if x == 6 { -2896 } else { 2896 }
    } else if i == 5 {
        if x == 0 { 2276 } else if x == 1 { -4017 } else if x == 2 { 799 }
        else if x == 3 { 3406 } else if x == 4 { -3406 } else if x == 5 { -799 }
        else if x == 6 { 4017 } else { -2276 }
    } else if i == 6 {
        if x == 0 { 1567 } else if x == 1 { -3784 } else if x == 2 { 3784 }
        else if x == 3 { -1567 } else if x == 4 { -1567 } else if x == 5 { 3784 }
        else if x == 6 { -3784 } else { 1567 }
    } else {
        if x == 0 { 799 } else if x == 1 { -2276 } else if x == 2 { 3406 }
        else if x == 3 { -4017 } else if x == 4 { 4017 } else if x == 5 { -3406 }
        else if x == 6 { 2276 } else { -799 }
    }
}

/// Partial inner sum over columns `y < n` of basis row `x`, for output
/// position `(i, j)`, on the shifted samples of `s`.
pub open spec fn dct_sum_row(s: Seq<u8>, i: int, j: int, x: int, n: int) -> int
    decreases n,
{
    if n <= 0 {
        0
    } else {
        dct_sum_row(s, i, j, x, n - 1) + (s[x * 8 + (n - 1)] - 128) * dct_basis(i, x) * dct_basis(
            j,
            n - 1,
        )
    }
}

/// Partial outer sum over sample rows `x < m`.
pub open spec fn dct_sum(s: Seq<u8>, i: int, j: int, m: int) -> int
    decreases m,
{
    if m <= 0 {
        0
    } else {
        dct_sum(s, i, j, m - 1) + dct_sum_row(s, i, j, m - 1, 8)
    }
}

/// The scaled DCT coefficient at output position `(i, j)`:
/// `sum_x sum_y (s(x,y) - 128) * dct_basis(i,x) * dct_basis(j,y)`,
/// the real coefficient `F(i,j)` times 2^26.
pub open spec fn dct_coeff(s: Seq<u8>, i: int, j: int) -> int {
    dct_sum(s, i, j, 8)
}

/// Every basis entry has magnitude at most 4096.
proof fn lemma_basis_bound(i: int, x: int)
    ensures
        -4096 <= dct_basis(i, x) <= 4096,
{
}

/// The partial inner sum grows by at most `2^31` per term.
proof fn lemma_sum_row_bound(s: Seq<u8>, i: int, j: int, x: int, n: int)
    requires
        s.len() == 64,
        0 <= x < 8,
        0 <= n <= 8,
    ensures
        -n * 0x80000000 <= dct_sum_row(s, i, j, x, n) <= n * 0x80000000,
    decreases n,
{
    if n > 0 {
        lemma_sum_row_bound(s, i, j, x, n - 1);
        lemma_basis_bound(i, x);
        lemma_basis_bound(j, n - 1);
        let v = s[x * 8 + (n - 1)] - 128;
        let b1 = dct_basis(i, x);
        let b2 = dct_basis(j, n - 1);
        assert(-0x80000000 <= v * b1 * b2 <= 0x80000000) by (nonlinear_arith)
            requires -128 <= v <= 127 && -4096 <= b1 <= 4096 && -4096 <= b2 <= 4096;
    }
}

/// The full double sum stays within `DCT_COEFF_BOUND = 64 * 2^31 = 2^37`.
proof fn lemma_sum_bound(s: Seq<u8>, i: int, j: int, m: int)
    requires
        s.len() == 64,
        0 <= m <= 8,
    ensures
        -m * 8 * 0x80000000 <= dct_sum(s, i, j, m) <= m * 8 * 0x80000000,
    decreases m,
{
    if m > 0 {
        lemma_sum_bound(s, i, j, m - 1);
        lemma_sum_row_bound(s, i, j, m - 1, 8);
    }
}

/// Reads the basis entry at `(i, x)`.
fn dct_basis_at(i: usize, x: usize) -> (r: i64)
    requires
        i < 8,
        x < 8,
    ensures
        r as int == dct_basis(i as int, x as int),
        -4096 <= r <= 4096,
{
    proof {
        lemma_basis_bound(i as int, x as int);
    }
    if i == 0 {
        2896
    } else if i == 1 {
        if x == 0 { 4017 } else if x == 1 { 3406 } else if x == 2 { 2276 }
        else if x == 3 { 799 } else if x == 4 { -799 } else if x == 5 { -2276 }
        else if x == 6 { -3406 } else { -4017 }
    } else if i == 2 {
        if x == 0 { 3784 } else if x == 1 { 1567 } else if x == 2 { -1567 }
        else if x == 3 { -3784 } else if x == 4 { -3784 } else if x == 5 { -1567 }
        else if x == 6 { 1567 } else { 3784 }
    } else if i == 3 {
        if x == 0 { 3406 } else if x == 1 { -799 } else if x == 2 { -4017 }
        else if x == 3 { -2276 } else if x == 4 { 2276 } else if x == 5 { 4017 }
        else if x == 6 { 799 } else { -3406 }
    } else if i == 4 {
        if x == 0 { 2896 } else if x == 1 { -2896 } else if x == 2 { -2896 }
        else if x == 3 { 2896 } else if x == 4 { 2896 } else if x == 5 { -2896 }
        else if x == 6 { -2896 } else { 2896 }
    } else if i == 5 {
        if x == 0 { 2276 } else if x == 1 { -4017 } else if x == 2 { 799 }
        else if x == 3 { 3406 } else if x == 4 { -3406 } else if x == 5 { -799 }
        else if x == 6 { 4017 } else { -2276 }
    } else if i == 6 {
        if x == 0 { 1567 } else if x == 1 { -3784 } else if x == 2 { 3784 }
        else if x == 3 { -1567 } else if x == 4 { -1567 } else if x == 5 { 3784 }
        else if x == 6 { -3784 } else { 1567 }
    } else {
        if x == 0 { 799 } else if x == 1 { -2276 } else if x == 2 { 3406 }
        else if x == 3 { -4017 } else if x == 4 { 4017 } else if x == 5 { -3406 }
        else if x == 6 { 2276 } else { -799 }
    }
}

/// Transforms one 8x8 sample block into its 64 scaled DCT coefficients,
/// in row-major `(i, j)` layout with the DC term first.
pub fn dct_block(block: &Vec<u8>) -> (out: Vec<i64>)
    requires
        block@.len() == 64,
    ensures
        out@.len() == 64,
        forall|k: int| 0 <= k < 64 ==> #[trigger] out@[k] == dct_coeff(block@, k / 8, k % 8),
        forall|k: int|
            0 <= k < 64 ==> -DCT_COEFF_BOUND <= #[trigger] out@[k] <= DCT_COEFF_BOUND,
{
    let mut out: Vec<i64> = Vec::new();
    for i in 0..8usize
        invariant
            block@.len() == 64,
            out@.len() == i * 8,
            forall|k: int|
                0 <= k < out@.len() ==> #[trigger] out@[k] == dct_coeff(block@, k / 8, k % 8),
            forall|k: int|
                0 <= k < out@.len()
                    ==> -DCT_COEFF_BOUND <= #[trigger] out@[k] <= DCT_COEFF_BOUND,
    {
        for j in 0..8usize
            invariant
                block@.len() == 64,
                i < 8,
                out@.len() == i * 8 + j,
                forall|k: int|
                    0 <= k < out@.len() ==> #[trigger] out@[k] == dct_coeff(block@, k / 8, k % 8),
                forall|k: int|
                    0 <= k < out@.len()
                        ==> -DCT_COEFF_BOUND <= #[trigger] out@[k] <= DCT_COEFF_BOUND,
        {
            let mut acc: i64 = 0;
            for x in 0..8usize
                invariant
                    block@.len() == 64,
                    i < 8,
                    j < 8,
                    acc as int == dct_sum(block@, i as int, j as int, x as int),
                    -(x as int) * 8 * 0x80000000 <= acc as int <= (x as int) * 8 * 0x80000000,
            {
                let bi = dct_basis_at(i, x);
                for y in 0..8usize
                    invariant
                        block@.len() == 64,
                        i < 8,
                        j < 8,
                        x < 8,
                        bi as int == dct_basis(i as int, x as int),
                        -4096 <= bi <= 4096,
                        acc as int == dct_sum(block@, i as int, j as int, x as int)
                            + dct_sum_row(block@, i as int, j as int, x as int, y as int),
                        -((x as int) * 8 + y) * 0x80000000 <= acc as int
                            <= ((x as int) * 8 + y) * 0x80000000,
                {
                    proof {
                        lemma_sum_bound(block@, i as int, j as int, x as int);
                        lemma_sum_row_bound(block@, i as int, j as int, x as int, y as int);
                    }
                    let bj = dct_basis_at(j, y);
                    let sample = block[x * 8 + y] as i64 - 128;
                    let term = sample * bi * bj;
                    proof {
                        assert(-0x80000000 <= sample * bi * bj <= 0x80000000) by (nonlinear_arith)
                            requires
                                -128 <= sample <= 127 && -4096 <= bi <= 4096 && -4096 <= bj
                                    <= 4096;
                    }
                    acc = acc + term;
                }
                proof {
                    assert(dct_sum(block@, i as int, j as int, x as int)
                        + dct_sum_row(block@, i as int, j as int, x as int, 8)
                        == dct_sum(block@, i as int, j as int, x as int + 1));
                }
            }
            out.push(acc);
            proof {
                assert((i * 8 + j) as int / 8 == i as int && (i * 8 + j) as int % 8 == j as int);
                assert(out@[i * 8 + j] == acc);
            }
        }
    }
    out
}

/// Partial sum of one basis row: `sum_{x < n} dct_basis(i, x)`.
pub open spec fn dct_basis_row_sum(i: int, n: int) -> int
    decreases n,
{
    if n <= 0 {
        0
    } else {
        dct_basis_row_sum(i, n - 1) + dct_basis(i, n - 1)
    }
}

/// The DC basis row sums to `8 * 2896`; every other basis row sums to
/// exactly zero, by the sign symmetry of the table.
pub proof fn lemma_basis_row_sums(i: int)
    requires
        0 <= i < 8,
    ensures
        i == 0 ==> dct_basis_row_sum(i, 8) == 23168,
        i != 0 ==> dct_basis_row_sum(i, 8) == 0,
{
    reveal_with_fuel(dct_basis_row_sum, 9);
}

/// On a constant block the inner sum factors through the basis row sum.
proof fn lemma_sum_row_const(s: Seq<u8>, v: u8, i: int, j: int, x: int, n: int)
    requires
        s.len() == 64,
        forall|k: int| 0 <= k < 64 ==> s[k] == v,
        0 <= x < 8,
        0 <= n <= 8,
    ensures
        dct_sum_row(s, i, j, x, n) == (v - 128) * dct_basis(i, x) * dct_basis_row_sum(j, n),
    decreases n,
{
    let a = v - 128;
    let p = dct_basis(i, x);
    if n <= 0 {
        assert(a * p * 0 == 0) by (nonlinear_arith);
    } else {
        lemma_sum_row_const(s, v, i, j, x, n - 1);
        let q = dct_basis_row_sum(j, n - 1);
        let b = dct_basis(j, n - 1);
        assert(s[x * 8 + (n - 1)] == v);
        assert(a * p * q + a * p * b == a * p * (q + b)) by (nonlinear_arith);
    }
}

/// On a constant block the whole transform factors into the two basis row
/// sums.
proof fn lemma_sum_const(s: Seq<u8>, v: u8, i: int, j: int, m: int)
    requires
        s.len() == 64,
        forall|k: int| 0 <= k < 64 ==> s[k] == v,
        0 <= m <= 8,
    ensures
        dct_sum(s, i, j, m) == (v - 128) * dct_basis_row_sum(i, m) * dct_basis_row_sum(j, 8),
    decreases m,
{
    let a = v - 128;
    let rj = dct_basis_row_sum(j, 8);
    if m <= 0 {
        assert(a * 0 * rj == 0) by (nonlinear_arith);
    } else {
        lemma_sum_const(s, v, i, j, m - 1);
        lemma_sum_row_const(s, v, i, j, m - 1, 8);
        let q = dct_basis_row_sum(i, m - 1);
        let b = dct_basis(i, m - 1);
        assert(a * q * rj + a * b * rj == a * (q + b) * rj) by (nonlinear_arith);
    }
}

/// DCT energy concentration: on a constant 8x8 block every AC coefficient
/// is exactly zero.
pub proof fn lemma_dct_constant_ac_zero(s: Seq<u8>, v: u8, i: int, j: int)
    requires
        s.len() == 64,
        forall|k: int| 0 <= k < 64 ==> s[k] == v,
        0 <= i < 8,
        0 <= j < 8,
        !(i == 0 && j == 0),
    ensures
        dct_coeff(s, i, j) == 0,
{
    lemma_sum_const(s, v, i, j, 8);
    lemma_basis_row_sums(i);
    lemma_basis_row_sums(j);
    let a = v - 128;
    if i != 0 {
        assert(a * 0 * dct_basis_row_sum(j, 8) == 0) by (nonlinear_arith);
    } else {
        assert(a * 23168 * 0 == 0) by (nonlinear_arith);
    }
}

/// DCT energy concentration: on a constant 8x8 block of value `v` the DC
/// coefficient is exactly `(v - 128) * 23168^2`, the scaled counterpart of
/// the real value `8 * (v - 128)`.
pub proof fn lemma_dct_constant_dc(s: Seq<u8>, v: u8)
    requires
        s.len() == 64,
        forall|k: int| 0 <= k < 64 ==> s[k] == v,
    ensures
        dct_coeff(s, 0, 0) == (v - 128) * 536756224,
{
    lemma_sum_const(s, v, 0, 0, 8);
    lemma_basis_row_sums(0);
    let a = v - 128;
    assert(a * 23168 * 23168 == a * 536756224) by (nonlinear_arith);
}

/// Transforms every block of a plane.
pub fn dct_plane(blocks: &Vec<Vec<u8>>) -> (out: Vec<Vec<i64>>)
    requires
        forall|b: int| 0 <= b < blocks@.len() ==> (#[trigger] blocks@[b])@.len() == 64,
    ensures
        out@.len() == blocks@.len(),
        forall|b: int| 0 <= b < out@.len() ==> (#[trigger] out@[b])@.len() == 64,
        forall|b: int, k: int|
            0 <= b < out@.len() && 0 <= k < 64
                ==> #[trigger] out@[b]@[k] == dct_coeff(blocks@[b]@, k / 8, k % 8),
        forall|b: int, k: int|
            0 <= b < out@.len() && 0 <= k < 64
                ==> -DCT_COEFF_BOUND <= #[trigger] out@[b]@[k] <= DCT_COEFF_BOUND,
{
    let mut out: Vec<Vec<i64>> = Vec::new();
    let n = blocks.len();
    for b in 0..n
        invariant
            n == blocks@.len(),
            forall|t: int| 0 <= t < blocks@.len() ==> (#[trigger] blocks@[t])@.len() == 64,
            out@.len() == b,
            forall|t: int| 0 <= t < out@.len() ==> (#[trigger] out@[t])@.len() == 64,
            forall|t: int, k: int|
                0 <= t < out@.len() && 0 <= k < 64
                    ==> #[trigger] out@[t]@[k] == dct_coeff(blocks@[t]@, k / 8, k % 8),
            forall|t: int, k: int|
                0 <= t < out@.len() && 0 <= k < 64
                    ==> -DCT_COEFF_BOUND <= #[trigger] out@[t]@[k] <= DCT_COEFF_BOUND,
    {
        let c = dct_block(&blocks[b]);
        out.push(c);
    }
    out
}

/// Applies the forward transform to all three planes' block lists,
/// producing 64 scaled coefficients per block.
pub fn discrete_cosine_transform(
    y: &Vec<Vec<u8>>,
    cb: &Vec<Vec<u8>>,
    cr: &Vec<Vec<u8>>,
) -> (out: (Vec<Vec<i64>>, Vec<Vec<i64>>, Vec<Vec<i64>>))
    requires
        forall|b: int| 0 <= b < y@.len() ==> (#[trigger] y@[b])@.len() == 64,
        forall|b: int| 0 <= b < cb@.len() ==> (#[trigger] cb@[b])@.len() == 64,
        forall|b: int| 0 <= b < cr@.len() ==> (#[trigger] cr@[b])@.len() == 64,
    ensures
        out.0@.len() == y@.len(),
        out.1@.len() == cb@.len(),
        out.2@.len() == cr@.len(),
        forall|b: int, k: int|
            0 <= b < out.0@.len() && 0 <= k < 64
                ==> #[trigger] out.0@[b]@[k] == dct_coeff(y@[b]@, k / 8, k % 8),
        forall|b: int, k: int|
            0 <= b < out.1@.len() && 0 <= k < 64
                ==> #[trigger] out.1@[b]@[k] == dct_coeff(cb@[b]@, k / 8, k % 8),
        forall|b: int, k: int|
            0 <= b < out.2@.len() && 0 <= k < 64
                ==> #[trigger] out.2@[b]@[k] == dct_coeff(cr@[b]@, k / 8, k % 8),
        forall|b: int| 0 <= b < out.0@.len() ==> (#[trigger] out.0@[b])@.len() == 64,
        forall|b: int| 0 <= b < out.1@.len() ==> (#[trigger] out.1@[b])@.len() == 64,
        forall|b: int| 0 <= b < out.2@.len() ==> (#[trigger] out.2@[b])@.len() == 64,
        forall|b: int, k: int|
            0 <= b < out.0@.len() && 0 <= k < 64
                ==> -DCT_COEFF_BOUND <= #[trigger] out.0@[b]@[k] <= DCT_COEFF_BOUND,
        forall|b: int, k: int|
            0 <= b < out.1@.len() && 0 <= k < 64
                ==> -DCT_COEFF_BOUND <= #[trigger] out.1@[b]@[k] <= DCT_COEFF_BOUND,
        forall|b: int, k: int|
            0 <= b < out.2@.len() && 0 <= k < 64
                ==> -DCT_COEFF_BOUND <= #[trigger] out.2@[b]@[k] <= DCT_COEFF_BOUND,
{
    (dct_plane(y), dct_plane(cb), dct_plane(cr))
}

} // verus!
