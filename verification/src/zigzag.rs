//! Zigzag serialization of an 8x8 coefficient block.
//!
//! The scan visits the 64 row-major grid positions in ascending order of the
//! diagonal `row + col`, alternating direction on each diagonal, starting at
//! the DC position (0,0) and ending at (7,7). The traversal is a fixed,
//! data-independent permutation; `zigzag_index` gives the grid position read
//! at each scan step and `zigzag_inv_index` is its exact inverse, so the scan
//! is invertible and a decoder can recover the 2-D layout exactly.

use vstd::prelude::*;

verus! {

/// The row-major grid index read at scan position `k` of the zigzag
/// traversal.
pub open spec fn zigzag_index(k: int) -> int {
    if k == 0 { 0 } else if k == 1 { 1 } else if k == 2 { 8 } else if k == 3 { 16 }
    else if k == 4 { 9 } else if k == 5 { 2 } else if k == 6 { 3 } else if k == 7 { 10 }
    else if k == 8 { 17 } else if k == 9 { 24 } else if k == 10 { 32 } else if k == 11 { 25 }
    else if k == 12 { 18 } else if k == 13 { 11 } else if k == 14 { 4 } else if k == 15 { 5 }
    else if k == 16 { 12 } else if k == 17 { 19 } else if k == 18 { 26 } else if k == 19 { 33 }
    else if k == 20 { 40 } else if k == 21 { 48 } else if k == 22 { 41 } else if k == 23 { 34 }
    else if k == 24 { 27 } else if k == 25 { 20 } else if k == 26 { 13 } else if k == 27 { 6 }
    else if k == 28 { 7 } else if k == 29 { 14 } else if k == 30 { 21 } else if k == 31 { 28 }
    else if k == 32 { 35 } else if k == 33 { 42 } else if k == 34 { 49 } else if k == 35 { 56 }
    else if k == 36 { 57 } else if k == 37 { 50 } else if k == 38 { 43 } else if k == 39 { 36 }
    else if k == 40 { 29 } else if k == 41 { 22 } else if k == 42 { 15 } else if k == 43 { 23 }
    else if k == 44 { 30 } else if k == 45 { 37 } else if k == 46 { 44 } else if k == 47 { 51 }
    else if k == 48 { 58 } else if k == 49 { 59 } else if k == 50 { 52 } else if k == 51 { 45 }
    else if k == 52 { 38 } else if k == 53 { 31 } else if k == 54 { 39 } else if k == 55 { 46 }
    else if k == 56 { 53 } else if k == 57 { 60 } else if k == 58 { 61 } else if k == 59 { 54 }
    else if k == 60 { 47 } else if k == 61 { 55 } else if k == 62 { 62 } else { 63 }
}

/// The scan position at which the zigzag traversal visits row-major grid
/// index `p`: the inverse permutation of `zigzag_index`.
pub open spec fn zigzag_inv_index(p: int) -> int {
    if p == 0 { 0 } else if p == 1 { 1 } else if p == 2 { 5 } else if p == 3 { 6 }
    else if p == 4 { 14 } else if p == 5 { 15 } else if p == 6 { 27 } else if p == 7 { 28 }
    else if p == 8 { 2 } else if p == 9 { 4 } else if p == 10 { 7 } else if p == 11 { 13 }
    else if p == 12 { 16 } else if p == 13 { 26 } else if p == 14 { 29 } else if p == 15 { 42 }
    else if p == 16 { 3 } else if p == 17 { 8 } else if p == 18 { 12 } else if p == 19 { 17 }
    else if p == 20 { 25 } else if p == 21 { 30 } else if p == 22 { 41 } else if p == 23 { 43 }
    else if p == 24 { 9 } else if p == 25 { 11 } else if p == 26 { 18 } else if p == 27 { 24 }
    else if p == 28 { 31 } else if p == 29 { 40 } else if p == 30 { 44 } else if p == 31 { 53 }
    else if p == 32 { 10 } else if p == 33 { 19 } else if p == 34 { 23 } else if p == 35 { 32 }
    else if p == 36 { 39 } else if p == 37 { 45 } else if p == 38 { 52 } else if p == 39 { 54 }
    else if p == 40 { 20 } else if p == 41 { 22 } else if p == 42 { 33 } else if p == 43 { 38 }
    else if p == 44 { 46 } else if p == 45 { 51 } else if p == 46 { 55 } else if p == 47 { 60 }
    else if p == 48 { 21 } else if p == 49 { 34 } else if p == 50 { 37 } else if p == 51 { 47 }
    else if p == 52 { 50 } else if p == 53 { 56 } else if p == 54 { 59 } else if p == 55 { 61 }
    else if p == 56 { 35 } else if p == 57 { 36 } else if p == 58 { 48 } else if p == 59 { 49 }
    else if p == 60 { 57 } else if p == 61 { 58 } else if p == 62 { 62 } else { 63 }
}

/// The result of scanning a 64-element block in zigzag order.
pub open spec fn zigzag_seq(s: Seq<i32>) -> Seq<i32> {
    Seq::new(64, |k: int| s[zigzag_index(k)])
}

/// The result of undoing the zigzag scan on a 64-element sequence.
pub open spec fn unzigzag_seq(s: Seq<i32>) -> Seq<i32> {
    Seq::new(64, |p: int| s[zigzag_inv_index(p)])
}

/// `zigzag_inv_index` inverts `zigzag_index`, and both stay inside the grid.
pub proof fn lemma_zigzag_bijective(k: int)
    requires
        0 <= k < 64,
    ensures
        0 <= zigzag_index(k) < 64,
        0 <= zigzag_inv_index(k) < 64,
        zigzag_inv_index(zigzag_index(k)) == k,
        zigzag_index(zigzag_inv_index(k)) == k,
{
}

/// The scan is ordered by ascending frequency-sum diagonal: the diagonal
/// `row + col` of the grid position never decreases from one scan step to
/// the next, starting at (0,0) and ending at (7,7).
pub proof fn lemma_zigzag_diagonal_order(k: int)
    requires
        0 <= k < 63,
    ensures
        zigzag_index(k) / 8 + zigzag_index(k) % 8
            <= zigzag_index(k + 1) / 8 + zigzag_index(k + 1) % 8,
        zigzag_index(0) == 0,
        zigzag_index(63) == 63,
{
}

/// Round-trip of zigzag: for every 64-element sequence, applying the zigzag
/// permutation and then its inverse yields the original sequence exactly.
pub proof fn lemma_zigzag_roundtrip(s: Seq<i32>)
    requires
        s.len() == 64,
    ensures
        unzigzag_seq(zigzag_seq(s)) == s,
{
    assert forall|p: int| 0 <= p < 64 implies unzigzag_seq(zigzag_seq(s))[p] == s[p] by {
        lemma_zigzag_bijective(p);
    }
    assert(unzigzag_seq(zigzag_seq(s)) =~= s);
}

/// Reads the zigzag grid index for scan position `k`.
fn zigzag_index_at(k: usize) -> (p: usize)
    requires
        k < 64,
    ensures
        p as int == zigzag_index(k as int),
        p < 64,
{
    proof {
        lemma_zigzag_bijective(k as int);
    }
    if k == 0 { 0 } else if k == 1 { 1 } else if k == 2 { 8 } else if k == 3 { 16 }
    else if k == 4 { 9 } else if k == 5 { 2 } else if k == 6 { 3 } else if k == 7 { 10 }
    else if k == 8 { 17 } else if k == 9 { 24 } else if k == 10 { 32 } else if k == 11 { 25 }
    else if k == 12 { 18 } else if k == 13 { 11 } else if k == 14 { 4 } else if k == 15 { 5 }
    else if k == 16 { 12 } else if k == 17 { 19 } else if k == 18 { 26 } else if k == 19 { 33 }
    else if k == 20 { 40 } else if k == 21 { 48 } else if k == 22 { 41 } else if k == 23 { 34 }
    else if k == 24 { 27 } else if k == 25 { 20 } else if k == 26 { 13 } else if k == 27 { 6 }
    else if k == 28 { 7 } else if k == 29 { 14 } else if k == 30 { 21 } else if k == 31 { 28 }
    else if k == 32 { 35 } else if k == 33 { 42 } else if k == 34 { 49 } else if k == 35 { 56 }
    else if k == 36 { 57 } else if k == 37 { 50 } else if k == 38 { 43 } else if k == 39 { 36 }
    else if k == 40 { 29 } else if k == 41 { 22 } else if k == 42 { 15 } else if k == 43 { 23 }
    else if k == 44 { 30 } else if k == 45 { 37 } else if k == 46 { 44 } else if k == 47 { 51 }
    else if k == 48 { 58 } else if k == 49 { 59 } else if k == 50 { 52 } else if k == 51 { 45 }
    else if k == 52 { 38 } else if k == 53 { 31 } else if k == 54 { 39 } else if k == 55 { 46 }
    else if k == 56 { 53 } else if k == 57 { 60 } else if k == 58 { 61 } else if k == 59 { 54 }
    else if k == 60 { 47 } else if k == 61 { 55 } else if k == 62 { 62 } else { 63 }
}

/// Reads the scan position of row-major grid index `p`.
fn zigzag_inv_index_at(p: usize) -> (k: usize)
    requires
        p < 64,
    ensures
        k as int == zigzag_inv_index(p as int),
        k < 64,
{
    proof {
        lemma_zigzag_bijective(p as int);
    }
    if p == 0 { 0 } else if p == 1 { 1 } else if p == 2 { 5 } else if p == 3 { 6 }
    else if p == 4 { 14 } else if p == 5 { 15 } else if p == 6 { 27 } else if p == 7 { 28 }
    else if p == 8 { 2 } else if p == 9 { 4 } else if p == 10 { 7 } else if p == 11 { 13 }
    else if p == 12 { 16 } else if p == 13 { 26 } else if p == 14 { 29 } else if p == 15 { 42 }
    else if p == 16 { 3 } else if p == 17 { 8 } else if p == 18 { 12 } else if p == 19 { 17 }
    else if p == 20 { 25 } else if p == 21 { 30 } else if p == 22 { 41 } else if p == 23 { 43 }
    else if p == 24 { 9 } else if p == 25 { 11 } else if p == 26 { 18 } else if p == 27 { 24 }
    else if p == 28 { 31 } else if p == 29 { 40 } else if p == 30 { 44 } else if p == 31 { 53 }
    else if p == 32 { 10 } else if p == 33 { 19 } else if p == 34 { 23 } else if p == 35 { 32 }
    else if p == 36 { 39 } else if p == 37 { 45 } else if p == 38 { 52 } else if p == 39 { 54 }
    else if p == 40 { 20 } else if p == 41 { 22 } else if p == 42 { 33 } else if p == 43 { 38 }
    else if p == 44 { 46 } else if p == 45 { 51 } else if p == 46 { 55 } else if p == 47 { 60 }
    else if p == 48 { 21 } else if p == 49 { 34 } else if p == 50 { 37 } else if p == 51 { 47 }
    else if p == 52 { 50 } else if p == 53 { 56 } else if p == 54 { 59 } else if p == 55 { 61 }
    else if p == 56 { 35 } else if p == 57 { 36 } else if p == 58 { 48 } else if p == 59 { 49 }
    else if p == 60 { 57 } else if p == 61 { 58 } else if p == 62 { 62 } else { 63 }
}

/// Reorders a quantized 8x8 block into the zigzag scan sequence.
pub fn zigzag_scan(block: &Vec<i32>) -> (out: Vec<i32>)
    requires
        block@.len() == 64,
    ensures
        out@ == zigzag_seq(block@),
{
    let mut out: Vec<i32> = Vec::new();
    for k in 0..64usize
        invariant
            block@.len() == 64,
            out@.len() == k,
            forall|j: int| 0 <= j < k ==> out@[j] == block@[zigzag_index(j)],
    {
        let p = zigzag_index_at(k);
        out.push(block[p]);
    }
    assert(out@ =~= zigzag_seq(block@));
    out
}

/// Restores the row-major 8x8 layout from a zigzag scan sequence: the exact
/// inverse of `zigzag_scan`.
pub fn zigzag_unscan(values: &Vec<i32>) -> (out: Vec<i32>)
    requires
        values@.len() == 64,
    ensures
        out@ == unzigzag_seq(values@),
{
    let mut out: Vec<i32> = Vec::new();
    for p in 0..64usize
        invariant
            values@.len() == 64,
            out@.len() == p,
            forall|j: int| 0 <= j < p ==> out@[j] == values@[zigzag_inv_index(j)],
    {
        let k = zigzag_inv_index_at(p);
        out.push(values[k]);
    }
    assert(out@ =~= unzigzag_seq(values@));
    out
}

} // verus!
