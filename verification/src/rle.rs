//! Run-length encoding of a zigzag coefficient sequence.
//!
//! Consecutive equal values collapse into `(value, run)` pairs with
//! `run >= 1`. Replaying each pair `run` times in order reconstructs the
//! input exactly, including the final run: the trailing run is always
//! emitted.

use vstd::prelude::*;

verus! {

/// One run-length pair: `run` consecutive occurrences of `value`.
#[derive(Clone, Copy, PartialEq, Eq, Structural, Debug)]
pub struct RleSymbol {
    pub value: i32,
    pub run: usize,
}

/// `n` copies of `v`.
pub open spec fn repeat_value(v: i32, n: nat) -> Seq<i32> {
    Seq::new(n, |i: int| v)
}

/// The expansion of a run-length sequence: each pair replayed `run` times,
/// in order.
pub open spec fn expand_rle(pairs: Seq<RleSymbol>) -> Seq<i32>
    decreases pairs.len(),
{
    if pairs.len() == 0 {
        Seq::empty()
    } else {
        expand_rle(pairs.drop_last()) + repeat_value(pairs.last().value, pairs.last().run as nat)
    }
}

/// Appending one pair appends its expansion.
pub proof fn lemma_expand_push(pairs: Seq<RleSymbol>, s: RleSymbol)
    ensures
        expand_rle(pairs.push(s)) == expand_rle(pairs) + repeat_value(s.value, s.run as nat),
{
    assert(pairs.push(s).drop_last() =~= pairs);
    assert(pairs.push(s).last() == s);
}

/// Collapses a sequence of values into run-length pairs.
///
/// Round-trip of run-length encoding: for every input sequence, expanding
/// the returned pairs reproduces the input exactly, including the final
/// run. Runs are maximal (adjacent pairs hold different values) and never
/// empty.
pub fn run_length_encode(values: &Vec<i32>) -> (out: Vec<RleSymbol>)
    ensures
        expand_rle(out@) == values@,
        forall|i: int| 0 <= i < out@.len() ==> (#[trigger] out@[i]).run >= 1,
        forall|i: int| 0 <= i < out@.len() - 1 ==> (#[trigger] out@[i]).value != out@[i + 1].value,
{
    let mut out: Vec<RleSymbol> = Vec::new();
    let n = values.len();
    if n == 0 {
        assert(expand_rle(out@) =~= values@);
        return out;
    }
    let mut cur: i32 = values[0];
    let mut run: usize = 1;
    for i in 1..n
        invariant
            n == values@.len(),
            1 <= run <= i <= n,
            cur == values@[i - 1],
            expand_rle(out@) + repeat_value(cur, run as nat) == values@.subrange(0, i as int),
            forall|j: int| 0 <= j < out@.len() ==> (#[trigger] out@[j]).run >= 1,
            forall|j: int| 0 <= j < out@.len() - 1 ==> (#[trigger] out@[j]).value != out@[j + 1].value,
            out@.len() > 0 ==> out@.last().value != cur,
    {
        if values[i] == cur {
            run = run + 1;
            proof {
                assert(repeat_value(cur, run as nat)
                    =~= repeat_value(cur, (run - 1) as nat).push(cur));
                assert(expand_rle(out@) + repeat_value(cur, run as nat)
                    =~= (expand_rle(out@) + repeat_value(cur, (run - 1) as nat)).push(cur));
                assert(values@.subrange(0, i + 1)
                    =~= values@.subrange(0, i as int).push(values@[i as int]));
            }
        } else {
            let sym = RleSymbol { value: cur, run };
            proof {
                lemma_expand_push(out@, sym);
            }
            out.push(sym);
            cur = values[i];
            run = 1;
            assert(expand_rle(out@) + repeat_value(cur, 1nat)
                =~= values@.subrange(0, i + 1));
        }
    }
    let sym = RleSymbol { value: cur, run };
    proof {
        lemma_expand_push(out@, sym);
    }
    out.push(sym);
    assert(expand_rle(out@) =~= values@) by {
        assert(values@.subrange(0, n as int) =~= values@);
    }
    out
}

/// Expands run-length pairs back into the full value sequence: the exact
/// inverse of `run_length_encode`.
pub fn run_length_decode(pairs: &Vec<RleSymbol>) -> (out: Vec<i32>)
    ensures
        out@ == expand_rle(pairs@),
{
    let mut out: Vec<i32> = Vec::new();
    let n = pairs.len();
    for i in 0..n
        invariant
            n == pairs@.len(),
            out@ == expand_rle(pairs@.subrange(0, i as int)),
    {
        let sym = pairs[i];
        let ghost before = out@;
        let r = sym.run;
        for j in 0..r
            invariant
                r == sym.run,
                out@ == before + repeat_value(sym.value, j as nat),
        {
            out.push(sym.value);
            assert(out@ =~= before + repeat_value(sym.value, (j + 1) as nat));
        }
        proof {
            assert(pairs@.subrange(0, i + 1).drop_last() =~= pairs@.subrange(0, i as int));
            assert(pairs@.subrange(0, i + 1).last() == pairs@[i as int]);
        }
    }
    assert(pairs@.subrange(0, n as int) =~= pairs@);
    out
}

} // verus!
