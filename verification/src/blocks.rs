//! 8x8 block decomposition of a sample plane.
//!
//! A plane of extent `w x h` splits into `ceil(h/8) * ceil(w/8)`
//! non-overlapping 8x8 blocks in row-major block order (top-left to
//! bottom-right, left to right within a block row). Blocks that extend past
//! the plane boundary replicate the nearest in-bounds sample (edge
//! replication, chosen over zero padding to avoid high-frequency artifacts);
//! no read ever leaves the plane. `merge_blocks` reassembles the plane and
//! is proved to be the exact inverse on the in-bounds region.

use vstd::prelude::*;

verus! {

/// Blocks needed to cover one plane dimension: `ceil(d / 8)`.
pub open spec fn blocks_across(d: int) -> int {
    (d + 7) / 8
}

/// Blocks in the decomposition of a `w x h` plane.
pub open spec fn block_count(w: int, h: int) -> int {
    blocks_across(h) * blocks_across(w)
}

/// The sample stored at row `r`, column `c` of block `b`: the plane sample
/// at the corresponding position, with out-of-bounds positions replicated
/// from the nearest in-bounds sample.
pub open spec fn block_sample(p: Seq<u8>, w: int, h: int, b: int, r: int, c: int) -> u8 {
    let bw = blocks_across(w);
    let bi = b / bw;
    let bj = b % bw;
    let y = if bi * 8 + r < h { bi * 8 + r } else { h - 1 };
    let x = if bj * 8 + c < w { bj * 8 + c } else { w - 1 };
    p[y * w + x]
}

/// A full, correct 8x8 decomposition of plane `p`.
pub open spec fn is_block_decomposition(blocks: Seq<Seq<u8>>, p: Seq<u8>, w: int, h: int) -> bool {
    &&& blocks.len() == block_count(w, h)
    &&& forall|b: int| 0 <= b < blocks.len() ==> (#[trigger] blocks[b]).len() == 64
    &&& forall|b: int, r: int, c: int|
        0 <= b < blocks.len() && 0 <= r < 8 && 0 <= c < 8
            ==> #[trigger] blocks[b][r * 8 + c] == block_sample(p, w, h, b, r, c)
}

/// A row-major index over a `rows x cols` grid stays inside the grid.
proof fn lemma_grid_index(a: int, b: int, rows: int, cols: int)
    requires
        cols >= 1,
        0 <= a < rows,
        0 <= b < cols,
    ensures
        0 <= a * cols + b < rows * cols,
        a * cols + b < cols * rows,
{
    assert(0 <= a * cols + b && a * cols + b < rows * cols && rows * cols == cols * rows)
        by (nonlinear_arith)
        requires cols >= 1 && 0 <= a < rows && 0 <= b < cols;
}

/// The block-grid coordinates of block `bi * bw + bj` are `(bi, bj)`.
proof fn lemma_block_coords(bi: int, bj: int, bw: int)
    requires
        bw >= 1,
        0 <= bi,
        0 <= bj < bw,
    ensures
        (bi * bw + bj) / bw == bi,
        (bi * bw + bj) % bw == bj,
{
    vstd::arithmetic::div_mod::lemma_fundamental_div_mod_converse(bi * bw + bj, bw, bi, bj);
}

/// `8 * ceil(d/8)` reaches `d` but overshoots by less than 8.
proof fn lemma_blocks_across_bounds(d: int)
    requires
        d >= 1,
    ensures
        1 <= blocks_across(d),
        d <= 8 * blocks_across(d),
        8 * (blocks_across(d) - 1) <= d - 1,
{
    vstd::arithmetic::div_mod::lemma_fundamental_div_mod(d + 7, 8);
}

/// Splits a plane into its ordered sequence of 8x8 blocks, covering the
/// plane in row-major block order with edge replication in the padded
/// region. Block count is exactly `ceil(w/8) * ceil(h/8)`.
pub fn split_into_blocks(plane: &Vec<u8>, width: usize, height: usize) -> (blocks: Vec<Vec<u8>>)
    requires
        width >= 1,
        height >= 1,
        plane@.len() == width * height,
    ensures
        is_block_decomposition(blocks@.map_values(|v: Vec<u8>| v@), plane@, width as int, height as int),
        blocks@.len() == block_count(width as int, height as int),
{
    let bw = (width - 1) / 8 + 1;
    let bh = (height - 1) / 8 + 1;
    proof {
        lemma_blocks_across_bounds(width as int);
        lemma_blocks_across_bounds(height as int);
        assert(bw == blocks_across(width as int));
        assert(bh == blocks_across(height as int));
        lemma_grid_index(bh as int - 1, bw as int - 1, bh as int, bw as int);
    }
    let n = plane.len();
    proof {
        vstd::arithmetic::mul::lemma_mul_basics(bw as int);
    }
    let mut blocks: Vec<Vec<u8>> = Vec::new();
    for bi in 0..bh
        invariant
            width >= 1,
            height >= 1,
            plane@.len() == width * height,
            plane@.len() == n,
            bw == blocks_across(width as int),
            bh == blocks_across(height as int),
            blocks@.len() == bi * bw,
            forall|b: int| 0 <= b < blocks@.len() ==> (#[trigger] blocks@[b])@.len() == 64,
            forall|b: int, r: int, c: int|
                0 <= b < blocks@.len() && 0 <= r < 8 && 0 <= c < 8
                    ==> #[trigger] blocks@[b]@[r * 8 + c]
                        == block_sample(plane@, width as int, height as int, b, r, c),
    {
        for bj in 0..bw
            invariant
                width >= 1,
                height >= 1,
                plane@.len() == width * height,
                plane@.len() == n,
                bw == blocks_across(width as int),
                bh == blocks_across(height as int),
                bi < bh,
                blocks@.len() == bi * bw + bj,
                forall|b: int| 0 <= b < blocks@.len() ==> (#[trigger] blocks@[b])@.len() == 64,
                forall|b: int, r: int, c: int|
                    0 <= b < blocks@.len() && 0 <= r < 8 && 0 <= c < 8
                        ==> #[trigger] blocks@[b]@[r * 8 + c]
                            == block_sample(plane@, width as int, height as int, b, r, c),
        {
            proof {
                lemma_blocks_across_bounds(width as int);
                lemma_blocks_across_bounds(height as int);
                assert(8 * (bi as int) <= height - 1) by (nonlinear_arith)
                    requires bi < bh && 8 * ((bh as int) - 1) <= height - 1;
                assert(8 * (bj as int) <= width - 1) by (nonlinear_arith)
                    requires bj < bw && 8 * ((bw as int) - 1) <= width - 1;
            }
            let base_y = bi * 8;
            let base_x = bj * 8;
            let mut block: Vec<u8> = Vec::new();
            for r in 0..8usize
                invariant
                    width >= 1,
                    height >= 1,
                    plane@.len() == width * height,
                    plane@.len() == n,
                    bw == blocks_across(width as int),
                    bi < bh,
                    bj < bw,
                    base_y == 8 * bi,
                    base_x == 8 * bj,
                    base_y <= height - 1,
                    base_x <= width - 1,
                    block@.len() == r * 8,
                    forall|ri: int, ci: int|
                        0 <= ri < r && 0 <= ci < 8
                            ==> #[trigger] block@[ri * 8 + ci]
                                == block_sample(plane@, width as int, height as int,
                                    (bi as int) * (bw as int) + (bj as int), ri, ci),
            {
                for c in 0..8usize
                    invariant
                        width >= 1,
                        height >= 1,
                        plane@.len() == width * height,
                        plane@.len() == n,
                        bw == blocks_across(width as int),
                        bi < bh,
                        bj < bw,
                        base_y == 8 * bi,
                        base_x == 8 * bj,
                        base_y <= height - 1,
                        base_x <= width - 1,
                        r < 8,
                        block@.len() == r * 8 + c,
                        forall|ri: int, ci: int|
                            0 <= ri < r && 0 <= ci < 8
                                ==> #[trigger] block@[ri * 8 + ci]
                                    == block_sample(plane@, width as int, height as int,
                                        (bi as int) * (bw as int) + (bj as int), ri, ci),
                        forall|ci: int|
                            0 <= ci < c
                                ==> #[trigger] block@[(r as int) * 8 + ci]
                                    == block_sample(plane@, width as int, height as int,
                                        (bi as int) * (bw as int) + (bj as int), r as int, ci),
                {
                    let y = if r < height - base_y { base_y + r } else { height - 1 };
                    let x = if c < width - base_x { base_x + c } else { width - 1 };
                    proof {
                        lemma_grid_index(y as int, x as int, height as int, width as int);
                        lemma_block_coords(bi as int, bj as int, bw as int);
                        assert(0 <= y * width + x < width * height);
                    }
                    block.push(plane[y * width + x]);
                }
            }
            proof {
                lemma_block_coords(bi as int, bj as int, bw as int);
            }
            blocks.push(block);
            proof {
                assert((bi as int) * (bw as int) + bj < blocks@.len());
            }
        }
        proof {
            assert((bi + 1) * (bw as int) == bi * (bw as int) + bw) by (nonlinear_arith);
        }
    }
    proof {
        let m = blocks@.map_values(|v: Vec<u8>| v@);
        assert(m.len() == blocks@.len());
        assert(forall|b: int| 0 <= b < blocks@.len() ==> #[trigger] m[b] == blocks@[b]@);
    }
    blocks
}

/// Reassembles a `w x h` plane from its 8x8 block decomposition: the exact
/// inverse of `split_into_blocks` on the in-bounds region.
pub fn merge_blocks(blocks: &Vec<Vec<u8>>, width: usize, height: usize) -> (plane: Vec<u8>)
    requires
        width >= 1,
        height >= 1,
        blocks@.len() == block_count(width as int, height as int),
        forall|b: int| 0 <= b < blocks@.len() ==> (#[trigger] blocks@[b])@.len() == 64,
    ensures
        plane@.len() == width * height,
        forall|y: int, x: int|
            0 <= y < height && 0 <= x < width
                ==> #[trigger] plane@[y * (width as int) + x]
                    == blocks@[(y / 8) * blocks_across(width as int) + x / 8]@[(y % 8) * 8 + x % 8],
{
    let bw = (width - 1) / 8 + 1;
    let bh = (height - 1) / 8 + 1;
    proof {
        lemma_blocks_across_bounds(width as int);
        lemma_blocks_across_bounds(height as int);
        vstd::arithmetic::mul::lemma_mul_basics(width as int);
    }
    let nb = blocks.len();
    let mut plane: Vec<u8> = Vec::new();
    for y in 0..height
        invariant
            width >= 1,
            height >= 1,
            bw == blocks_across(width as int),
            bh == blocks_across(height as int),
            blocks@.len() == (bh as int) * (bw as int),
            blocks@.len() == nb,
            forall|b: int| 0 <= b < blocks@.len() ==> (#[trigger] blocks@[b])@.len() == 64,
            plane@.len() == y * width,
            forall|a: int, x: int|
                0 <= a < y && 0 <= x < width
                    ==> #[trigger] plane@[a * (width as int) + x]
                        == blocks@[(a / 8) * (bw as int) + x / 8]@[(a % 8) * 8 + x % 8],
    {
        for x in 0..width
            invariant
                width >= 1,
                height >= 1,
                bw == blocks_across(width as int),
                bh == blocks_across(height as int),
                blocks@.len() == (bh as int) * (bw as int),
                blocks@.len() == nb,
                forall|b: int| 0 <= b < blocks@.len() ==> (#[trigger] blocks@[b])@.len() == 64,
                y < height,
                plane@.len() == y * width + x,
                forall|a: int, xi: int|
                    0 <= a < y && 0 <= xi < width
                        ==> #[trigger] plane@[a * (width as int) + xi]
                            == blocks@[(a / 8) * (bw as int) + xi / 8]@[(a % 8) * 8 + xi % 8],
                forall|xi: int|
                    0 <= xi < x
                        ==> #[trigger] plane@[(y as int) * (width as int) + xi]
                            == blocks@[((y as int) / 8) * (bw as int) + xi / 8]@[((y as int) % 8) * 8 + xi % 8],
        {
            proof {
                assert((y as int) / 8 < bh && (x as int) / 8 < bw) by (nonlinear_arith)
                    requires
                        y < height && x < width && bw >= 1 && bh >= 1
                            && height <= 8 * (bh as int) && width <= 8 * (bw as int);
                lemma_grid_index((y as int) / 8, (x as int) / 8, bh as int, bw as int);
            }
            let b = (y / 8) * bw + x / 8;
            let k = (y % 8) * 8 + x % 8;
            plane.push(blocks[b][k]);
            proof {
                assert(plane@[(y as int) * (width as int) + x] == blocks@[b as int]@[k as int]);
                assert forall|a: int, xi: int| 0 <= a < y && 0 <= xi < width
                    implies #[trigger] plane@[a * (width as int) + xi]
                        == blocks@[(a / 8) * (bw as int) + xi / 8]@[(a % 8) * 8 + xi % 8] by {
                    lemma_grid_index(a, xi, y as int, width as int);
                }
            }
        }
        proof {
            assert((y + 1) * (width as int) == y * (width as int) + width) by (nonlinear_arith);
        }
    }
    proof {
        vstd::arithmetic::mul::lemma_mul_is_commutative(height as int, width as int);
    }
    plane
}

/// Edge case, non-multiple-of-8 planes: reassembling the decomposition of
/// any plane restores that plane exactly, so the padded region never leaks
/// into the merged result.
pub proof fn lemma_split_merge_roundtrip(
    blocks: Seq<Seq<u8>>,
    p: Seq<u8>,
    merged: Seq<u8>,
    w: int,
    h: int,
)
    requires
        w >= 1,
        h >= 1,
        p.len() == w * h,
        is_block_decomposition(blocks, p, w, h),
        merged.len() == w * h,
        forall|y: int, x: int|
            0 <= y < h && 0 <= x < w
                ==> #[trigger] merged[y * w + x]
                    == blocks[(y / 8) * blocks_across(w) + x / 8][(y % 8) * 8 + x % 8],
    ensures
        merged == p,
{
    let bw = blocks_across(w);
    let bh = blocks_across(h);
    lemma_blocks_across_bounds(w);
    lemma_blocks_across_bounds(h);
    assert forall|k: int| 0 <= k < merged.len() implies merged[k] == p[k] by {
        vstd::arithmetic::div_mod::lemma_fundamental_div_mod(k, w);
        let y = k / w;
        let x = k % w;
        assert(0 <= y < h) by (nonlinear_arith)
            requires 0 <= k < w * h && w >= 1 && k == y * w + x && 0 <= x < w;
        let bi = y / 8;
        let bj = x / 8;
        let r = y % 8;
        let c = x % 8;
        assert(0 <= bi < bh && 0 <= bj < bw) by (nonlinear_arith)
            requires
                0 <= y < h && 0 <= x < w && bw >= 1 && bh >= 1
                    && h <= 8 * bh && w <= 8 * bw && bi == y / 8 && bj == x / 8;
        let b = bi * bw + bj;
        lemma_grid_index(bi, bj, bh, bw);
        lemma_block_coords(bi, bj, bw);
        assert(merged[y * w + x] == blocks[b][r * 8 + c]);
        assert(blocks[b][r * 8 + c] == block_sample(p, w, h, b, r, c));
        assert(bi * 8 + r == y && bj * 8 + c == x);
        assert(block_sample(p, w, h, b, r, c) == p[y * w + x]);
    }
    assert(merged =~= p);
}

} // verus!
