//! 4:2:0 chroma subsampling.
//!
//! The luma plane keeps full resolution; each chroma plane shrinks to
//! `ceil(w/2) x ceil(h/2)`, every output sample the truncated arithmetic
//! mean of a 2x2 source group. On an odd edge the out-of-range column or
//! row is replicated from the nearest valid pixel, so no read ever leaves
//! the plane.

use vstd::prelude::*;

verus! {

/// The subsampled extent of a plane dimension: `ceil(d / 2)`.
pub open spec fn half_up(d: int) -> int {
    (d + 1) / 2
}

/// The subsampled chroma value at output position `(i, j)`: the truncated
/// mean of the 2x2 source group at `(2i, 2j)`, with out-of-range indices
/// replicated from the nearest valid pixel.
pub open spec fn subsample_at(p: Seq<u8>, w: int, h: int, i: int, j: int) -> int {
    let x0 = 2 * j;
    let x1 = if 2 * j + 1 < w { 2 * j + 1 } else { w - 1 };
    let y0 = 2 * i;
    let y1 = if 2 * i + 1 < h { 2 * i + 1 } else { h - 1 };
    (p[y0 * w + x0] + p[y0 * w + x1] + p[y1 * w + x0] + p[y1 * w + x1]) / 4
}

/// Subsampling determinism on flat regions: wherever all four samples of
/// the 2x2 group are equal to `v`, averaging yields exactly `v` back.
pub proof fn lemma_subsample_constant(p: Seq<u8>, w: int, h: int, i: int, j: int, v: u8)
    requires
        w >= 1,
        h >= 1,
        p.len() == w * h,
        0 <= i < half_up(h),
        0 <= j < half_up(w),
        forall|k: int| 0 <= k < p.len() ==> p[k] == v,
    ensures
        subsample_at(p, w, h, i, j) == v,
{
    let x0 = 2 * j;
    let x1 = if 2 * j + 1 < w { 2 * j + 1 } else { w - 1 };
    let y0 = 2 * i;
    let y1 = if 2 * i + 1 < h { 2 * i + 1 } else { h - 1 };
    lemma_source_index_in_range(w, h, i, j);
    assert(p[y0 * w + x0] == v);
    assert(p[y0 * w + x1] == v);
    assert(p[y1 * w + x0] == v);
    assert(p[y1 * w + x1] == v);
}

/// The four source indices of the 2x2 group at output `(i, j)` lie inside
/// the plane.
proof fn lemma_source_index_in_range(w: int, h: int, i: int, j: int)
    requires
        w >= 1,
        h >= 1,
        0 <= i < half_up(h),
        0 <= j < half_up(w),
    ensures
        ({
            let x0 = 2 * j;
            let x1 = if 2 * j + 1 < w { 2 * j + 1 } else { w - 1 };
            let y0 = 2 * i;
            let y1 = if 2 * i + 1 < h { 2 * i + 1 } else { h - 1 };
            &&& 0 <= x0 < w
            &&& 0 <= x1 < w
            &&& 0 <= y0 < h
            &&& 0 <= y1 < h
            &&& forall|y: int, x: int|
                0 <= y < h && 0 <= x < w ==> 0 <= #[trigger] (y * w + x) < w * h
        }),
{
    assert(2 * j < w && 2 * i < h);
    assert forall|y: int, x: int| 0 <= y < h && 0 <= x < w
        implies 0 <= #[trigger] (y * w + x) < w * h by {
        assert(y * w + x < w * h) by (nonlinear_arith)
            requires 0 <= y < h && 0 <= x < w;
        assert(y * w + x >= 0) by (nonlinear_arith)
            requires 0 <= y && 0 <= x && w >= 1;
    }
}

/// Produces the half-resolution plane of a full-resolution chroma plane:
/// output extent `ceil(w/2) x ceil(h/2)`, each sample the truncated mean of
/// its 2x2 source group with edge replication. Deterministic, no side
/// effects.
pub fn subsample_plane(plane: &Vec<u8>, width: usize, height: usize) -> (out: Vec<u8>)
    requires
        width >= 1,
        height >= 1,
        plane@.len() == width * height,
    ensures
        out@.len() == half_up(width as int) * half_up(height as int),
        forall|i: int, j: int|
            0 <= i < half_up(height as int) && 0 <= j < half_up(width as int)
                ==> #[trigger] out@[i * half_up(width as int) + j] as int
                    == subsample_at(plane@, width as int, height as int, i, j),
{
    let cw = width / 2 + width % 2;
    let ch = height / 2 + height % 2;
    assert(cw == half_up(width as int) && ch == half_up(height as int));
    let n = plane.len();
    let mut out: Vec<u8> = Vec::new();
    proof {
        vstd::arithmetic::mul::lemma_mul_basics(cw as int);
    }
    for i in 0..ch
        invariant
            width >= 1,
            height >= 1,
            plane@.len() == width * height,
            plane@.len() == n,
            cw == half_up(width as int),
            ch == half_up(height as int),
            out@.len() == i * cw,
            forall|a: int, b: int|
                0 <= a < i && 0 <= b < cw
                    ==> #[trigger] out@[a * (cw as int) + b] as int
                        == subsample_at(plane@, width as int, height as int, a, b),
    {
        for j in 0..cw
            invariant
                width >= 1,
                height >= 1,
                plane@.len() == width * height,
                plane@.len() == n,
                cw == half_up(width as int),
                ch == half_up(height as int),
                i < ch,
                out@.len() == i * cw + j,
                forall|a: int, b: int|
                    0 <= a < i && 0 <= b < cw
                        ==> #[trigger] out@[a * (cw as int) + b] as int
                            == subsample_at(plane@, width as int, height as int, a, b),
                forall|b: int|
                    0 <= b < j
                        ==> #[trigger] out@[i * (cw as int) + b] as int
                            == subsample_at(plane@, width as int, height as int, i as int, b),
        {
            proof {
                lemma_source_index_in_range(width as int, height as int, i as int, j as int);
            }
            let x0 = 2 * j;
            let x1 = if 2 * j + 1 < width { 2 * j + 1 } else { width - 1 };
            let y0 = 2 * i;
            let y1 = if 2 * i + 1 < height { 2 * i + 1 } else { height - 1 };
            proof {
                assert(0 <= y0 * width + x0 < width * height);
                assert(0 <= y0 * width + x1 < width * height);
                assert(0 <= y1 * width + x0 < width * height);
                assert(0 <= y1 * width + x1 < width * height);
            }
            let sum: u32 = plane[y0 * width + x0] as u32 + plane[y0 * width + x1] as u32
                + plane[y1 * width + x0] as u32 + plane[y1 * width + x1] as u32;
            let avg = (sum / 4) as u8;
            out.push(avg);
            proof {
                assert(out@[i * (cw as int) + j] == avg);
                assert forall|a: int, b: int| 0 <= a < i && 0 <= b < cw
                    implies #[trigger] out@[a * (cw as int) + b] as int
                        == subsample_at(plane@, width as int, height as int, a, b) by {
                    lemma_row_major_bound(a, b, i as int, cw as int);
                }
            }
        }
        proof {
            assert((i + 1) * (cw as int) == i * (cw as int) + cw) by (nonlinear_arith);
            assert forall|a: int, b: int| 0 <= a < i + 1 && 0 <= b < cw
                implies #[trigger] out@[a * (cw as int) + b] as int
                    == subsample_at(plane@, width as int, height as int, a, b) by {
                lemma_row_major_bound(a, b, i as int, cw as int);
            }
        }
    }
    proof {
        vstd::arithmetic::mul::lemma_mul_is_commutative(ch as int, cw as int);
    }
    out
}

/// A row-major index of a row before `i` stays below `i * cw`.
proof fn lemma_row_major_bound(a: int, b: int, i: int, cw: int)
    requires
        cw >= 1,
        0 <= a,
        0 <= b < cw,
    ensures
        0 <= a * cw + b,
        a < i ==> a * cw + b < i * cw,
        a * cw + b < (a + 1) * cw,
{
    assert(0 <= a * cw) by (nonlinear_arith)
        requires 0 <= a && cw >= 1;
    assert(a * cw + cw == (a + 1) * cw) by (nonlinear_arith);
    assert(a < i ==> (a + 1) * cw <= i * cw) by (nonlinear_arith)
        requires cw >= 1;
}

} // verus!
