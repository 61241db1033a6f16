//! Huffman coding of run-length symbol streams.
//!
//! Per color plane: count the frequency of every distinct `(value, run)`
//! symbol across all the plane's blocks, order the symbols ascending by
//! frequency with a fixed deterministic tie-break (symbol value, then run),
//! then repeatedly merge the two lowest-frequency nodes, re-inserting each
//! merged node at the position that preserves ascending order (stable for
//! ties), until a single root remains. A degenerate plane with exactly one
//! distinct symbol still receives a valid single-bit code.
//!
//! Codewords are the root-to-leaf paths of the finished tree, so the code
//! is prefix-free, which is proved in `lemma_code_table_prefix_free`.

use vstd::prelude::*;
use vstd::arithmetic::power2::pow2;
use vstd::multiset::Multiset;
use vstd::seq_lib::group_to_multiset_ensures;
use crate::errors::EncodeError;
use crate::rle::RleSymbol;
use crate::rle::expand_rle;
use crate::rle::run_length_encode;
use crate::zigzag::zigzag_seq;
use crate::zigzag::zigzag_scan;

verus! {

/// One row of a frequency table: a distinct symbol and how often it
/// occurs in the plane's symbol stream.
#[derive(Clone, Copy, PartialEq, Eq, Structural, Debug)]
pub struct FreqEntry {
    pub symbol: RleSymbol,
    pub count: usize,
}

/// A node of a Huffman tree: a leaf holding one run-length symbol and its
/// observed frequency, or an internal node owning two children and the sum
/// of their frequencies.
pub enum HuffmanNode {
    Leaf { symbol: RleSymbol, weight: u128 },
    Internal { weight: u128, left: Box<HuffmanNode>, right: Box<HuffmanNode> },
}

/// The Huffman tree of one color plane.
pub struct HuffmanTree {
    pub root: HuffmanNode,
}

/// The frequency weight stored at a node.
pub open spec fn node_weight(n: HuffmanNode) -> int {
    match n {
        HuffmanNode::Leaf { weight, .. } => weight as int,
        HuffmanNode::Internal { weight, .. } => weight as int,
    }
}

/// Well-formedness: every internal weight is the sum of its children's,
/// and every leaf weight is a count that fits a `usize`.
pub open spec fn wf_node(n: HuffmanNode) -> bool
    decreases n,
{
    match n {
        HuffmanNode::Leaf { weight, .. } => weight <= usize::MAX as u128,
        HuffmanNode::Internal { weight, left, right } => {
            &&& wf_node(*left)
            &&& wf_node(*right)
            &&& weight as int == node_weight(*left) + node_weight(*right)
        },
    }
}

/// The multiset of symbols on the leaves of a node.
pub open spec fn leaf_ms(n: HuffmanNode) -> Multiset<RleSymbol>
    decreases n,
{
    match n {
        HuffmanNode::Leaf { symbol, .. } => Multiset::empty().insert(symbol),
        HuffmanNode::Internal { left, right, .. } => leaf_ms(*left).add(leaf_ms(*right)),
    }
}

/// The symbols on the leaves of a whole node list.
pub open spec fn all_leaf_ms(s: Seq<HuffmanNode>) -> Multiset<RleSymbol>
    decreases s.len(),
{
    if s.len() == 0 {
        Multiset::empty()
    } else {
        leaf_ms(s.first()).add(all_leaf_ms(s.drop_first()))
    }
}

/// The total weight of a node list.
pub open spec fn total_node_weight(s: Seq<HuffmanNode>) -> int
    decreases s.len(),
{
    if s.len() == 0 {
        0
    } else {
        node_weight(s.first()) + total_node_weight(s.drop_first())
    }
}

/// Occurrences of `x` in `s`.
pub open spec fn count_of(s: Seq<RleSymbol>, x: RleSymbol) -> int
    decreases s.len(),
{
    if s.len() == 0 {
        0
    } else {
        count_of(s.drop_last(), x) + if s.last() == x { 1int } else { 0int }
    }
}

/// Whether some entry of a frequency table carries symbol `s`.
pub open spec fn has_key(freqs: Seq<FreqEntry>, s: RleSymbol) -> bool {
    exists|i: int| 0 <= i < freqs.len() && freqs[i].symbol == s
}

/// The multiset of symbols keyed by a frequency table.
pub open spec fn keys_ms(freqs: Seq<FreqEntry>) -> Multiset<RleSymbol> {
    freqs.map_values(|e: FreqEntry| e.symbol).to_multiset()
}

/// The sum of all counts of a frequency table.
pub open spec fn total_count(freqs: Seq<FreqEntry>) -> int
    decreases freqs.len(),
{
    if freqs.len() == 0 {
        0
    } else {
        freqs.first().count + total_count(freqs.drop_first())
    }
}

/// A count never exceeds the stream length.
proof fn lemma_count_le_len(s: Seq<RleSymbol>, x: RleSymbol)
    ensures
        0 <= count_of(s, x) <= s.len(),
    decreases s.len(),
{
    if s.len() > 0 {
        lemma_count_le_len(s.drop_last(), x);
    }
}

/// A positive count means the symbol occurs in the stream.
proof fn lemma_count_pos_contains(s: Seq<RleSymbol>, x: RleSymbol)
    requires
        count_of(s, x) > 0,
    ensures
        s.contains(x),
    decreases s.len(),
{
    if s.len() > 0 {
        if s.last() == x {
            assert(s[s.len() - 1] == x);
        } else {
            lemma_count_pos_contains(s.drop_last(), x);
            let i = choose|i: int| 0 <= i < s.drop_last().len() && s.drop_last()[i] == x;
            assert(s[i] == x);
        }
    }
}

/// Counts the frequency of every distinct symbol in a stream. The entries
/// carry pairwise distinct symbols, each entry's count is the exact number
/// of occurrences of its symbol, and every stream symbol has an entry.
/// Entries appear in order of first occurrence.
pub fn count_frequencies(symbols: &Vec<RleSymbol>) -> (freqs: Vec<FreqEntry>)
    ensures
        forall|i: int, j: int|
            0 <= i < j < freqs@.len() ==> freqs@[i].symbol != freqs@[j].symbol,
        forall|i: int|
            0 <= i < freqs@.len()
                ==> (#[trigger] freqs@[i]).count == count_of(symbols@, freqs@[i].symbol)
                    && freqs@[i].count >= 1,
        forall|k: int| 0 <= k < symbols@.len() ==> has_key(freqs@, #[trigger] symbols@[k]),
{
    let n = symbols.len();
    let mut freqs: Vec<FreqEntry> = Vec::new();
    for k in 0..n
        invariant
            n == symbols@.len(),
            forall|i: int, j: int|
                0 <= i < j < freqs@.len() ==> freqs@[i].symbol != freqs@[j].symbol,
            forall|i: int|
                0 <= i < freqs@.len()
                    ==> (#[trigger] freqs@[i]).count
                        == count_of(symbols@.subrange(0, k as int), freqs@[i].symbol)
                        && freqs@[i].count >= 1,
            forall|t: int| 0 <= t < k ==> has_key(freqs@, #[trigger] symbols@[t]),
    {
        let s = symbols[k];
        let ghost prefix = symbols@.subrange(0, k as int);
        let ghost prefix1 = symbols@.subrange(0, k + 1);
        proof {
            assert(prefix1.drop_last() =~= prefix);
            assert(prefix1.last() == symbols@[k as int]);
        }
        let m = freqs.len();
        let mut found = false;
        let mut idx: usize = 0;
        for i in 0..m
            invariant
                m == freqs@.len(),
                !found ==> forall|j: int| 0 <= j < i ==> (#[trigger] freqs@[j]).symbol != s,
                found ==> idx < freqs@.len() && freqs@[idx as int].symbol == s,
        {
            if !found && freqs[i].symbol == s {
                found = true;
                idx = i;
            }
        }
        if found {
            let e = freqs[idx];
            proof {
                lemma_count_le_len(prefix, e.symbol);
            }
            let ghost old_freqs = freqs@;
            freqs.set(idx, FreqEntry { symbol: e.symbol, count: e.count + 1 });
            proof {
                assert forall|i: int| 0 <= i < freqs@.len()
                    implies (#[trigger] freqs@[i]).count == count_of(prefix1, freqs@[i].symbol)
                        && freqs@[i].count >= 1 by {
                    if i == idx {
                        assert(freqs@[i].symbol == s);
                    } else {
                        assert(freqs@[i] == old_freqs[i]);
                        assert(old_freqs[i].symbol != s);
                    }
                }
                assert forall|t: int| 0 <= t < k + 1
                    implies has_key(freqs@, #[trigger] symbols@[t]) by {
                    if t < k {
                        let j = choose|j: int|
                            0 <= j < old_freqs.len() && old_freqs[j].symbol == symbols@[t];
                        assert(freqs@[j].symbol == symbols@[t]);
                    } else {
                        assert(freqs@[idx as int].symbol == s);
                    }
                }
            }
        } else {
            proof {
                if count_of(prefix, s) > 0 {
                    lemma_count_pos_contains(prefix, s);
                    let i = choose|i: int| 0 <= i < prefix.len() && prefix[i] == s;
                    assert(symbols@[i] == s);
                    assert(has_key(freqs@, s));
                    let j = choose|j: int| 0 <= j < freqs@.len() && freqs@[j].symbol == s;
                    assert(false);
                }
            }
            let ghost old_freqs = freqs@;
            freqs.push(FreqEntry { symbol: s, count: 1 });
            proof {
                assert forall|i: int| 0 <= i < freqs@.len()
                    implies (#[trigger] freqs@[i]).count == count_of(prefix1, freqs@[i].symbol)
                        && freqs@[i].count >= 1 by {
                    if i < old_freqs.len() {
                        assert(freqs@[i] == old_freqs[i]);
                        assert(old_freqs[i].symbol != s);
                    } else {
                        assert(freqs@[i].symbol == s && freqs@[i].count == 1);
                        lemma_count_le_len(prefix, s);
                        assert(count_of(prefix, s) == 0);
                    }
                }
                assert forall|t: int| 0 <= t < k + 1
                    implies has_key(freqs@, #[trigger] symbols@[t]) by {
                    if t < k {
                        let j = choose|j: int|
                            0 <= j < old_freqs.len() && old_freqs[j].symbol == symbols@[t];
                        assert(freqs@[j].symbol == symbols@[t]);
                    } else {
                        assert(freqs@[old_freqs.len() as int].symbol == s);
                    }
                }
            }
        }
    }
    proof {
        assert(symbols@.subrange(0, n as int) =~= symbols@);
    }
    freqs
}

/// The deterministic ordering of frequency entries: ascending count, ties
/// broken by symbol value, then run length.
pub open spec fn entry_le(a: FreqEntry, b: FreqEntry) -> bool {
    ||| a.count < b.count
    ||| (a.count == b.count && a.symbol.value < b.symbol.value)
    ||| (a.count == b.count && a.symbol.value == b.symbol.value && a.symbol.run <= b.symbol.run)
}

/// Compares two entries in the deterministic order.
fn entry_le_exec(a: &FreqEntry, b: &FreqEntry) -> (r: bool)
    ensures
        r == entry_le(*a, *b),
{
    a.count < b.count || (a.count == b.count && (a.symbol.value < b.symbol.value
        || (a.symbol.value == b.symbol.value && a.symbol.run <= b.symbol.run)))
}

/// Sorts a frequency table into the deterministic ascending order by
/// stable insertion, preserving exactly the multiset of entries.
pub fn sort_entries(freqs: &Vec<FreqEntry>) -> (out: Vec<FreqEntry>)
    ensures
        out@.len() == freqs@.len(),
        out@.to_multiset() == freqs@.to_multiset(),
        forall|i: int, j: int| 0 <= i < j < out@.len() ==> entry_le(#[trigger] out@[i], #[trigger] out@[j]),
{
    broadcast use group_to_multiset_ensures;
    broadcast use vstd::seq_lib::to_multiset_insert;

    let n = freqs.len();
    let mut out: Vec<FreqEntry> = Vec::new();
    for k in 0..n
        invariant
            n == freqs@.len(),
            out@.len() == k,
            out@.to_multiset() == freqs@.subrange(0, k as int).to_multiset(),
            forall|i: int, j: int|
                0 <= i < j < out@.len() ==> entry_le(#[trigger] out@[i], #[trigger] out@[j]),
    {
        let e = freqs[k];
        let m = out.len();
        let mut p: usize = 0;
        while p < m && entry_le_exec(&out[p], &e)
            invariant
                m == out@.len(),
                p <= m,
                forall|q: int| 0 <= q < p ==> entry_le(#[trigger] out@[q], e),
            decreases m - p,
        {
            p = p + 1;
        }
        let ghost old_out = out@;
        out.insert(p, e);
        proof {
            assert(freqs@.subrange(0, k + 1) =~= freqs@.subrange(0, k as int).push(e));
            vstd::seq_lib::to_multiset_build(freqs@.subrange(0, k as int), e);
            vstd::seq_lib::to_multiset_insert(old_out, p as int, e);
            assert(out@.to_multiset() == old_out.to_multiset().insert(e));
            assert forall|i: int, j: int| 0 <= i < j < out@.len()
                implies entry_le(#[trigger] out@[i], #[trigger] out@[j]) by {
                let pi = p as int;
                if j < pi {
                    assert(out@[i] == old_out[i] && out@[j] == old_out[j]);
                } else if i < pi && j == pi {
                    assert(out@[i] == old_out[i] && out@[j] == e);
                } else if i < pi && j > pi {
                    assert(out@[i] == old_out[i] && out@[j] == old_out[j - 1]);
                } else if i == pi {
                    assert(out@[i] == e && out@[j] == old_out[j - 1]);
                    if pi < m {
                        assert(!entry_le(old_out[pi], e));
                        assert(entry_le(e, old_out[pi]));
                        assert(pi <= j - 1);
                        if pi < j - 1 {
                            assert(entry_le(old_out[pi], old_out[j - 1]));
                        }
                    }
                } else {
                    assert(out@[i] == old_out[i - 1] && out@[j] == old_out[j - 1]);
                }
            }
        }
    }
    proof {
        assert(freqs@.subrange(0, n as int) =~= freqs@);
        assert(out@.to_multiset().len() == out@.len());
        assert(freqs@.to_multiset().len() == freqs@.len());
    }
    out
}

/// A well-formed node's weight is bounded by its leaf count times the
/// largest possible count.
proof fn lemma_wf_weight_bound(n: HuffmanNode)
    requires
        wf_node(n),
    ensures
        0 <= node_weight(n) <= leaf_ms(n).len() * (usize::MAX as int),
    decreases n,
{
    broadcast use vstd::multiset::group_multiset_axioms;

    match n {
        HuffmanNode::Leaf { .. } => {
            assert(leaf_ms(n).len() == 1);
            assert(1int * (usize::MAX as int) == usize::MAX as int) by (nonlinear_arith);
        },
        HuffmanNode::Internal { left, right, .. } => {
            lemma_wf_weight_bound(*left);
            lemma_wf_weight_bound(*right);
            let la = leaf_ms(*left).len() as int;
            let lb = leaf_ms(*right).len() as int;
            assert(la * (usize::MAX as int) + lb * (usize::MAX as int)
                == (la + lb) * (usize::MAX as int)) by (nonlinear_arith);
        },
    }
}

/// Appending a node appends its leaves and its weight.
proof fn lemma_nodes_push(s: Seq<HuffmanNode>, n: HuffmanNode)
    ensures
        all_leaf_ms(s.push(n)) == all_leaf_ms(s).add(leaf_ms(n)),
        total_node_weight(s.push(n)) == total_node_weight(s) + node_weight(n),
    decreases s.len(),
{
    broadcast use vstd::multiset::group_multiset_axioms;

    if s.len() == 0 {
        assert(s.push(n).drop_first() =~= s);
        assert(all_leaf_ms(s.push(n)) =~= all_leaf_ms(s).add(leaf_ms(n)));
    } else {
        assert(s.push(n).first() == s.first());
        assert(s.push(n).drop_first() =~= s.drop_first().push(n));
        lemma_nodes_push(s.drop_first(), n);
        assert(all_leaf_ms(s.push(n)) =~= all_leaf_ms(s).add(leaf_ms(n)));
    }
}

/// Inserting a node anywhere adds its leaves and its weight.
proof fn lemma_nodes_insert(s: Seq<HuffmanNode>, p: int, n: HuffmanNode)
    requires
        0 <= p <= s.len(),
    ensures
        all_leaf_ms(s.insert(p, n)) == all_leaf_ms(s).add(leaf_ms(n)),
        total_node_weight(s.insert(p, n)) == total_node_weight(s) + node_weight(n),
    decreases s.len(),
{
    broadcast use vstd::multiset::group_multiset_axioms;

    if p == 0 {
        assert(s.insert(0, n).first() == n);
        assert(s.insert(0, n).drop_first() =~= s);
        assert(all_leaf_ms(s.insert(0, n)) =~= all_leaf_ms(s).add(leaf_ms(n)));
    } else {
        assert(s.insert(p, n).first() == s.first());
        assert(s.insert(p, n).drop_first() =~= s.drop_first().insert(p - 1, n));
        lemma_nodes_insert(s.drop_first(), p - 1, n);
        assert(all_leaf_ms(s.insert(p, n)) =~= all_leaf_ms(s).add(leaf_ms(n)));
    }
}

/// The leaf node of one frequency entry.
pub open spec fn leaf_of(e: FreqEntry) -> HuffmanNode {
    HuffmanNode::Leaf { symbol: e.symbol, weight: e.count as u128 }
}

/// One leaf per frequency entry, in table order.
pub open spec fn leaves_spec(entries: Seq<FreqEntry>) -> Seq<HuffmanNode> {
    entries.map_values(|e: FreqEntry| leaf_of(e))
}

/// Insertion into a weight-ordered node list by linear scan, after all
/// nodes of less or equal weight: the stable re-insertion of the merge
/// loop.
pub open spec fn insert_by_weight(s: Seq<HuffmanNode>, n: HuffmanNode) -> Seq<HuffmanNode>
    decreases s.len(),
{
    if s.len() > 0 && node_weight(s.first()) <= node_weight(n) {
        seq![s.first()] + insert_by_weight(s.drop_first(), n)
    } else {
        seq![n] + s
    }
}

/// Inserting adds exactly one node.
proof fn lemma_insert_by_weight_len(s: Seq<HuffmanNode>, n: HuffmanNode)
    ensures
        insert_by_weight(s, n).len() == s.len() + 1,
    decreases s.len(),
{
    if s.len() > 0 && node_weight(s.first()) <= node_weight(n) {
        lemma_insert_by_weight_len(s.drop_first(), n);
    }
}

/// The greedy Huffman merge, run until at most one node remains: take the
/// two lowest-weight nodes, combine them (lowest on the left), re-insert
/// the combined node stably, repeat.
pub open spec fn huffman_merge_spec(s: Seq<HuffmanNode>) -> Seq<HuffmanNode>
    decreases s.len(),
    via huffman_merge_spec_decreases
{
    if s.len() < 2 {
        s
    } else {
        let merged = HuffmanNode::Internal {
            weight: (node_weight(s[0]) + node_weight(s[1])) as u128,
            left: Box::new(s[0]),
            right: Box::new(s[1]),
        };
        huffman_merge_spec(insert_by_weight(s.subrange(2, s.len() as int), merged))
    }
}

#[via_fn]
proof fn huffman_merge_spec_decreases(s: Seq<HuffmanNode>) {
    if s.len() >= 2 {
        let merged = HuffmanNode::Internal {
            weight: (node_weight(s[0]) + node_weight(s[1])) as u128,
            left: Box::new(s[0]),
            right: Box::new(s[1]),
        };
        lemma_insert_by_weight_len(s.subrange(2, s.len() as int), merged);
    }
}

/// Scanning to the first strictly heavier node finds where the stable
/// insertion lands.
proof fn lemma_insert_by_weight_at(s: Seq<HuffmanNode>, n: HuffmanNode, p: int)
    requires
        0 <= p <= s.len(),
        forall|q: int| 0 <= q < p ==> node_weight(#[trigger] s[q]) <= node_weight(n),
        p < s.len() ==> node_weight(s[p]) > node_weight(n),
    ensures
        insert_by_weight(s, n) == s.insert(p, n),
    decreases s.len(),
{
    if p == 0 {
        assert(insert_by_weight(s, n) =~= s.insert(0, n));
    } else {
        assert(node_weight(s[0]) <= node_weight(n));
        lemma_insert_by_weight_at(s.drop_first(), n, p - 1);
        assert(insert_by_weight(s, n) =~= s.insert(p, n));
    }
}

/// Reads the weight of a node.
fn node_weight_exec(n: &HuffmanNode) -> (w: u128)
    ensures
        w as int == node_weight(*n),
{
    match n {
        HuffmanNode::Leaf { weight, .. } => *weight,
        HuffmanNode::Internal { weight, .. } => *weight,
    }
}

/// Builds the Huffman tree of a frequency table sorted into the
/// deterministic ascending order: one leaf per entry, then repeatedly
/// merge the two lowest-weight nodes into an internal node re-inserted at
/// the position preserving ascending weight order (stable for ties), until
/// one root remains. Returns a tree exactly when the table is non-empty;
/// a single-entry table yields a single-leaf tree. The tree is
/// well-formed, its leaves carry exactly the table's symbols, and the root
/// weight is the total symbol count.
pub fn build_huffman_tree(entries: &Vec<FreqEntry>) -> (r: Option<HuffmanTree>)
    requires
        forall|i: int, j: int|
            0 <= i < j < entries@.len() ==> entry_le(#[trigger] entries@[i], #[trigger] entries@[j]),
    ensures
        r is Some <==> entries@.len() > 0,
        r is Some ==> wf_node(r->Some_0.root),
        r is Some ==> leaf_ms(r->Some_0.root) == keys_ms(entries@),
        r is Some ==> node_weight(r->Some_0.root) == total_count(entries@),
        r is Some ==> huffman_merge_spec(leaves_spec(entries@)).len() == 1
            && r->Some_0.root == huffman_merge_spec(leaves_spec(entries@))[0],
{
    broadcast use group_to_multiset_ensures;
    broadcast use vstd::multiset::group_multiset_axioms;

    let n = entries.len();
    if n == 0 {
        proof {
            assert(entries@.map_values(|e: FreqEntry| e.symbol) =~= Seq::<RleSymbol>::empty());
        }
        return None;
    }
    let ghost keys = keys_ms(entries@);
    let mut nodes: Vec<HuffmanNode> = Vec::new();
    for k in 0..n
        invariant
            n == entries@.len(),
            forall|i: int, j: int|
                0 <= i < j < entries@.len()
                    ==> entry_le(#[trigger] entries@[i], #[trigger] entries@[j]),
            nodes@.len() == k,
            nodes@ == leaves_spec(entries@.subrange(0, k as int)),
            all_leaf_ms(nodes@) == keys_ms(entries@.subrange(0, k as int)),
            total_node_weight(nodes@) == total_count(entries@.subrange(0, k as int)),
            forall|i: int| 0 <= i < nodes@.len() ==> wf_node(#[trigger] nodes@[i]),
            forall|i: int|
                0 <= i < nodes@.len()
                    ==> node_weight(#[trigger] nodes@[i]) == entries@[i].count,
            forall|i: int, j: int|
                0 <= i < j < nodes@.len()
                    ==> node_weight(#[trigger] nodes@[i]) <= node_weight(#[trigger] nodes@[j]),
    {
        let e = entries[k];
        let leaf = HuffmanNode::Leaf { symbol: e.symbol, weight: e.count as u128 };
        proof {
            lemma_nodes_push(nodes@, leaf);
            lemma_total_count_take(entries@, k as int);
            assert(keys_ms(entries@.subrange(0, k + 1))
                == keys_ms(entries@.subrange(0, k as int)).insert(e.symbol)) by {
                let m0 = entries@.subrange(0, k as int).map_values(|x: FreqEntry| x.symbol);
                let m1 = entries@.subrange(0, k + 1).map_values(|x: FreqEntry| x.symbol);
                assert(m1 =~= m0.push(e.symbol));
                vstd::seq_lib::to_multiset_build(m0, e.symbol);
            }
            assert(leaf_ms(leaf) =~= Multiset::empty().insert(e.symbol));
            assert(all_leaf_ms(nodes@).add(leaf_ms(leaf))
                =~= all_leaf_ms(nodes@).insert(e.symbol));
            assert(leaves_spec(entries@.subrange(0, k + 1))
                =~= nodes@.push(leaf_of(e)));
        }
        nodes.push(leaf);
    }
    proof {
        assert(entries@.subrange(0, n as int) =~= entries@);
        assert(keys.len() == entries@.len()) by {
            assert(entries@.map_values(|e: FreqEntry| e.symbol).len() == entries@.len());
        }
    }
    while nodes.len() >= 2
        invariant
            nodes@.len() >= 1,
            huffman_merge_spec(nodes@) == huffman_merge_spec(leaves_spec(entries@)),
            all_leaf_ms(nodes@) == keys,
            total_node_weight(nodes@) == total_count(entries@),
            keys.len() <= usize::MAX,
            forall|i: int| 0 <= i < nodes@.len() ==> wf_node(#[trigger] nodes@[i]),
            forall|i: int, j: int|
                0 <= i < j < nodes@.len()
                    ==> node_weight(#[trigger] nodes@[i]) <= node_weight(#[trigger] nodes@[j]),
        decreases nodes@.len(),
    {
        let ghost s0 = nodes@;
        let a = nodes.remove(0);
        let ghost s1 = nodes@;
        let b = nodes.remove(0);
        let ghost s2 = nodes@;
        proof {
            assert(s0.remove(0) =~= s0.drop_first());
            assert(s1.remove(0) =~= s1.drop_first());
            assert(all_leaf_ms(s0) == leaf_ms(a).add(all_leaf_ms(s1)));
            assert(all_leaf_ms(s1) == leaf_ms(b).add(all_leaf_ms(s2)));
            assert(total_node_weight(s0) == node_weight(a) + total_node_weight(s1));
            assert(total_node_weight(s1) == node_weight(b) + total_node_weight(s2));
            lemma_wf_weight_bound(a);
            lemma_wf_weight_bound(b);
            let la = leaf_ms(a).len() as int;
            let lb = leaf_ms(b).len() as int;
            assert(keys.len() == la + lb + all_leaf_ms(s2).len());
            assert(la * (usize::MAX as int) + lb * (usize::MAX as int)
                == (la + lb) * (usize::MAX as int)) by (nonlinear_arith);
            assert((la + lb) * (usize::MAX as int) <= (usize::MAX as int) * (usize::MAX as int))
                by (nonlinear_arith)
                requires 0 <= la + lb <= usize::MAX as int;
            assert((usize::MAX as int) * (usize::MAX as int) < u128::MAX as int)
                by (nonlinear_arith);
        }
        let wa = node_weight_exec(&a);
        let wb = node_weight_exec(&b);
        let w = wa + wb;
        let merged = HuffmanNode::Internal { weight: w, left: Box::new(a), right: Box::new(b) };
        let m = nodes.len();
        let mut p: usize = 0;
        while p < m && node_weight_exec(&nodes[p]) <= w
            invariant
                m == nodes@.len(),
                p <= m,
                forall|q: int| 0 <= q < p ==> node_weight(#[trigger] nodes@[q]) <= w as int,
            decreases m - p,
        {
            p = p + 1;
        }
        let ghost before = nodes@;
        nodes.insert(p, merged);
        proof {
            assert(s2 =~= s0.subrange(2, s0.len() as int));
            assert(merged == HuffmanNode::Internal {
                weight: (node_weight(s0[0]) + node_weight(s0[1])) as u128,
                left: Box::new(s0[0]),
                right: Box::new(s0[1]),
            });
            lemma_insert_by_weight_at(before, merged, p as int);
            assert(nodes@ == insert_by_weight(s0.subrange(2, s0.len() as int), merged));
            assert(huffman_merge_spec(s0) == huffman_merge_spec(nodes@));
            lemma_nodes_insert(before, p as int, merged);
            assert(all_leaf_ms(nodes@) =~= keys);
            assert forall|i: int, j: int| 0 <= i < j < nodes@.len()
                implies node_weight(#[trigger] nodes@[i]) <= node_weight(#[trigger] nodes@[j]) by {
                let pi = p as int;
                if j < pi {
                    assert(nodes@[i] == before[i] && nodes@[j] == before[j]);
                } else if i < pi && j == pi {
                    assert(nodes@[i] == before[i] && nodes@[j] == merged);
                } else if i < pi && j > pi {
                    assert(nodes@[i] == before[i] && nodes@[j] == before[j - 1]);
                    assert(node_weight(before[pi]) > w as int || pi == m);
                } else if i == pi {
                    assert(nodes@[i] == merged && nodes@[j] == before[j - 1]);
                    assert(!(node_weight(before[pi]) <= w as int));
                    if pi < j - 1 {
                        assert(node_weight(before[pi]) <= node_weight(before[j - 1]));
                    }
                } else {
                    assert(nodes@[i] == before[i - 1] && nodes@[j] == before[j - 1]);
                }
            }
        }
    }
    let ghost prev = nodes@;
    let root = match nodes.pop() {
        Some(r) => r,
        None => vstd::pervasive::unreached(),
    };
    proof {
        assert(prev.len() == 1 && root == prev[0]);
        assert(prev.drop_first() =~= Seq::<HuffmanNode>::empty());
        assert(all_leaf_ms(prev) == leaf_ms(root).add(all_leaf_ms(prev.drop_first())));
        assert(all_leaf_ms(prev.drop_first()) == Multiset::<RleSymbol>::empty());
        assert forall|v: RleSymbol|
            leaf_ms(root).add(Multiset::<RleSymbol>::empty()).count(v)
                == leaf_ms(root).count(v) by {
            assert(Multiset::<RleSymbol>::empty().count(v) == 0);
        }
        assert(leaf_ms(root).add(Multiset::<RleSymbol>::empty()) =~= leaf_ms(root));
        assert(total_node_weight(prev.drop_first()) == 0);
        assert(total_node_weight(prev) == node_weight(prev.first())
            + total_node_weight(prev.drop_first()));
        assert(huffman_merge_spec(prev) == prev);
        assert(huffman_merge_spec(leaves_spec(entries@))[0] == root);
    }
    Some(HuffmanTree { root })
}

/// Splitting off the prefix of length `k + 1` splits off its last count.
proof fn lemma_total_count_take(s: Seq<FreqEntry>, k: int)
    requires
        0 <= k < s.len(),
    ensures
        total_count(s.subrange(0, k + 1)) == total_count(s.subrange(0, k)) + s[k].count,
    decreases k,
{
    let a = s.subrange(0, k + 1);
    let b = s.subrange(0, k);
    if k == 0 {
        assert(a.drop_first() =~= Seq::<FreqEntry>::empty());
        assert(b =~= Seq::<FreqEntry>::empty());
    } else {
        assert(a.drop_first() =~= s.subrange(1, s.len() as int).subrange(0, k));
        assert(b.drop_first() =~= s.subrange(1, s.len() as int).subrange(0, k - 1));
        lemma_total_count_take(s.subrange(1, s.len() as int), k - 1);
        assert(s.subrange(1, s.len() as int).subrange(0, k)
            =~= s.subrange(1, s.len() as int).subrange(0, (k - 1) + 1));
        assert(s.subrange(1, s.len() as int)[k - 1] == s[k]);
        assert(a.first() == s[0] && b.first() == s[0]);
    }
}

/// The code assignment of a subtree under a given path prefix: one
/// `(symbol, codeword)` pair per leaf, left edges extending the path with
/// `false`, right edges with `true`.
pub open spec fn codes_of(n: HuffmanNode, prefix: Seq<bool>) -> Seq<(RleSymbol, Seq<bool>)>
    decreases n,
{
    match n {
        HuffmanNode::Leaf { symbol, .. } => seq![(symbol, prefix)],
        HuffmanNode::Internal { left, right, .. } => codes_of(*left, prefix.push(false)) + codes_of(
            *right,
            prefix.push(true),
        ),
    }
}

/// Whether codeword `a` is a prefix of codeword `b`.
pub open spec fn is_prefix_of(a: Seq<bool>, b: Seq<bool>) -> bool {
    a.len() <= b.len() && a == b.subrange(0, a.len() as int)
}

/// A codeword extending `p.push(bit)` extends `p`, is longer than `p`, and
/// carries `bit` right after `p`.
proof fn lemma_prefix_step(p: Seq<bool>, bit: bool, c: Seq<bool>)
    requires
        is_prefix_of(p.push(bit), c),
    ensures
        is_prefix_of(p, c),
        c.len() > p.len(),
        c[p.len() as int] == bit,
{
    assert(p =~= c.subrange(0, p.len() as int)) by {
        assert forall|i: int| 0 <= i < p.len() implies p[i] == c[i] by {
            assert(p.push(bit)[i] == c.subrange(0, p.len() as int + 1)[i]);
        }
    }
    assert(p.push(bit)[p.len() as int] == c.subrange(0, p.len() as int + 1)[p.len() as int]);
}

/// Every codeword of a subtree extends the subtree's path prefix, and no
/// codeword of the subtree is a prefix of another: root-to-leaf paths form
/// a prefix-free code.
proof fn lemma_codes_prefix_free(n: HuffmanNode, prefix: Seq<bool>)
    ensures
        codes_of(n, prefix).len() >= 1,
        forall|i: int|
            0 <= i < codes_of(n, prefix).len()
                ==> is_prefix_of(prefix, (#[trigger] codes_of(n, prefix)[i]).1),
        forall|i: int, j: int|
            0 <= i < codes_of(n, prefix).len() && 0 <= j < codes_of(n, prefix).len() && i != j
                ==> !is_prefix_of(
                    (#[trigger] codes_of(n, prefix)[i]).1,
                    (#[trigger] codes_of(n, prefix)[j]).1,
                ),
    decreases n,
{
    match n {
        HuffmanNode::Leaf { symbol, .. } => {
            assert(is_prefix_of(prefix, prefix)) by {
                assert(prefix =~= prefix.subrange(0, prefix.len() as int));
            }
        },
        HuffmanNode::Internal { left, right, .. } => {
            let p0 = prefix.push(false);
            let p1 = prefix.push(true);
            let cl = codes_of(*left, p0);
            let cr = codes_of(*right, p1);
            let cs = codes_of(n, prefix);
            lemma_codes_prefix_free(*left, p0);
            lemma_codes_prefix_free(*right, p1);
            assert(cs == cl + cr);
            assert forall|i: int| 0 <= i < cs.len()
                implies is_prefix_of(prefix, (#[trigger] cs[i]).1) by {
                if i < cl.len() {
                    assert(cs[i] == cl[i]);
                    lemma_prefix_step(prefix, false, cl[i].1);
                } else {
                    assert(cs[i] == cr[i - cl.len()]);
                    lemma_prefix_step(prefix, true, cr[i - cl.len()].1);
                }
            }
            assert forall|i: int, j: int|
                0 <= i < cs.len() && 0 <= j < cs.len() && i != j
                implies !is_prefix_of((#[trigger] cs[i]).1, (#[trigger] cs[j]).1) by {
                let a = cs[i].1;
                let b = cs[j].1;
                if i < cl.len() && j < cl.len() {
                    assert(cs[i] == cl[i] && cs[j] == cl[j]);
                } else if i >= cl.len() && j >= cl.len() {
                    assert(cs[i] == cr[i - cl.len()] && cs[j] == cr[j - cl.len()]);
                } else if i < cl.len() && j >= cl.len() {
                    assert(cs[i] == cl[i] && cs[j] == cr[j - cl.len()]);
                    lemma_prefix_step(prefix, false, a);
                    lemma_prefix_step(prefix, true, b);
                    if is_prefix_of(a, b) {
                        assert(a[prefix.len() as int] == b.subrange(0, a.len() as int)[prefix.len() as int]);
                        assert(false);
                    }
                } else {
                    assert(cs[i] == cr[i - cl.len()] && cs[j] == cl[j]);
                    lemma_prefix_step(prefix, true, a);
                    lemma_prefix_step(prefix, false, b);
                    if is_prefix_of(a, b) {
                        assert(a[prefix.len() as int] == b.subrange(0, a.len() as int)[prefix.len() as int]);
                        assert(false);
                    }
                }
            }
        },
    }
}

/// Every symbol on a leaf of the subtree owns a codeword in its code
/// assignment.
proof fn lemma_codes_cover(n: HuffmanNode, prefix: Seq<bool>, s: RleSymbol)
    requires
        leaf_ms(n).count(s) > 0,
    ensures
        exists|i: int|
            0 <= i < codes_of(n, prefix).len() && (#[trigger] codes_of(n, prefix)[i]).0 == s,
    decreases n,
{
    broadcast use vstd::multiset::group_multiset_axioms;

    match n {
        HuffmanNode::Leaf { symbol, .. } => {
            assert(s == symbol);
            assert(codes_of(n, prefix)[0].0 == s);
        },
        HuffmanNode::Internal { left, right, .. } => {
            let cl = codes_of(*left, prefix.push(false));
            let cr = codes_of(*right, prefix.push(true));
            if leaf_ms(*left).count(s) > 0 {
                lemma_codes_cover(*left, prefix.push(false), s);
                let i = choose|i: int| 0 <= i < cl.len() && (#[trigger] cl[i]).0 == s;
                assert(codes_of(n, prefix)[i].0 == s);
            } else {
                lemma_codes_cover(*right, prefix.push(true), s);
                let i = choose|i: int| 0 <= i < cr.len() && (#[trigger] cr[i]).0 == s;
                assert(codes_of(n, prefix)[cl.len() + i].0 == s);
            }
        },
    }
}

/// The code table of a finished tree: the root-to-leaf path codewords, or
/// the defined degenerate single-bit code `[false]` when the whole tree is
/// one leaf.
pub open spec fn code_table_spec(root: HuffmanNode) -> Seq<(RleSymbol, Seq<bool>)> {
    match root {
        HuffmanNode::Leaf { symbol, .. } => seq![(symbol, seq![false])],
        HuffmanNode::Internal { .. } => codes_of(root, Seq::empty()),
    }
}

/// Huffman validity: the code table of any tree is a prefix-free code --
/// no codeword is a prefix of another codeword of the table.
pub proof fn lemma_code_table_prefix_free(root: HuffmanNode)
    ensures
        forall|i: int, j: int|
            0 <= i < code_table_spec(root).len() && 0 <= j < code_table_spec(root).len() && i != j
                ==> !is_prefix_of(
                    (#[trigger] code_table_spec(root)[i]).1,
                    (#[trigger] code_table_spec(root)[j]).1,
                ),
{
    match root {
        HuffmanNode::Leaf { .. } => {},
        HuffmanNode::Internal { .. } => {
            lemma_codes_prefix_free(root, Seq::empty());
        },
    }
}

/// Every leaf symbol of the tree owns an entry of its code table.
pub proof fn lemma_code_table_covers(root: HuffmanNode, s: RleSymbol)
    requires
        leaf_ms(root).count(s) > 0,
    ensures
        exists|i: int|
            0 <= i < code_table_spec(root).len() && (#[trigger] code_table_spec(root)[i]).0 == s,
{
    broadcast use vstd::multiset::group_multiset_axioms;

    match root {
        HuffmanNode::Leaf { symbol, .. } => {
            assert(s == symbol);
            assert(code_table_spec(root)[0].0 == s);
        },
        HuffmanNode::Internal { .. } => {
            lemma_codes_cover(root, Seq::empty(), s);
            let i = choose|i: int|
                0 <= i < codes_of(root, Seq::empty()).len()
                    && (#[trigger] codes_of(root, Seq::empty())[i]).0 == s;
            assert(code_table_spec(root)[i].0 == s);
        },
    }
}

/// The mathematical view of an executable code table.
pub open spec fn code_views(s: Seq<(RleSymbol, Vec<bool>)>) -> Seq<(RleSymbol, Seq<bool>)> {
    s.map_values(|p: (RleSymbol, Vec<bool>)| (p.0, p.1@))
}

/// Copies a codeword buffer.
fn copy_bits(v: &Vec<bool>) -> (r: Vec<bool>)
    ensures
        r@ == v@,
{
    let mut r: Vec<bool> = Vec::new();
    let n = v.len();
    for k in 0..n
        invariant
            n == v@.len(),
            r@ == v@.subrange(0, k as int),
    {
        r.push(v[k]);
        proof {
            assert(r@ =~= v@.subrange(0, k + 1));
        }
    }
    proof {
        assert(v@.subrange(0, n as int) =~= v@);
    }
    r
}

/// Walks the subtree in leaf order, appending each leaf's symbol with its
/// root-to-leaf codeword to `out`.
fn collect_codes(
    n: &HuffmanNode,
    prefix: &mut Vec<bool>,
    out: &mut Vec<(RleSymbol, Vec<bool>)>,
)
    ensures
        final(prefix)@ == old(prefix)@,
        code_views(final(out)@) == code_views(old(out)@) + codes_of(*n, old(prefix)@),
    decreases *n,
{
    match n {
        HuffmanNode::Leaf { symbol, .. } => {
            let code = copy_bits(prefix);
            out.push((*symbol, code));
            proof {
                assert(code_views(out@) =~= code_views(old(out)@) + codes_of(*n, old(prefix)@));
            }
        },
        HuffmanNode::Internal { left, right, .. } => {
            let ghost p = prefix@;
            let ghost out0 = out@;
            prefix.push(false);
            collect_codes(&**left, prefix, out);
            let ghost out1 = out@;
            prefix.pop();
            proof {
                assert(prefix@ =~= p);
            }
            prefix.push(true);
            collect_codes(&**right, prefix, out);
            prefix.pop();
            proof {
                assert(prefix@ =~= p);
                assert(code_views(out1) == code_views(out0) + codes_of(**left, p.push(false)));
                assert(code_views(out@)
                    == code_views(out1) + codes_of(**right, p.push(true)));
                assert(code_views(out@) =~= code_views(out0) + codes_of(*n, p));
            }
        },
    }
}

/// Assigns the codewords of a finished tree: the root-to-leaf paths, with
/// the defined degenerate single-bit code `[false]` for a single-leaf
/// tree. The resulting table is prefix-free
/// (`lemma_code_table_prefix_free`) and has one entry per leaf.
pub fn codes_for_tree(t: &HuffmanTree) -> (table: Vec<(RleSymbol, Vec<bool>)>)
    ensures
        code_views(table@) == code_table_spec(t.root),
{
    match &t.root {
        HuffmanNode::Leaf { symbol, .. } => {
            let mut bit: Vec<bool> = Vec::new();
            bit.push(false);
            let mut table: Vec<(RleSymbol, Vec<bool>)> = Vec::new();
            table.push((*symbol, bit));
            proof {
                assert(bit@ =~= seq![false]);
                assert(code_views(table@) =~= code_table_spec(t.root));
            }
            table
        },
        HuffmanNode::Internal { .. } => {
            let mut prefix: Vec<bool> = Vec::new();
            let mut table: Vec<(RleSymbol, Vec<bool>)> = Vec::new();
            collect_codes(&t.root, &mut prefix, &mut table);
            proof {
                assert(code_views(Seq::<(RleSymbol, Vec<bool>)>::empty())
                    =~= Seq::<(RleSymbol, Seq<bool>)>::empty());
                assert(code_views(table@) =~= code_table_spec(t.root));
            }
            table
        },
    }
}

/// Whether some entry of a code table carries symbol `s`.
pub open spec fn has_entry(table: Seq<(RleSymbol, Vec<bool>)>, s: RleSymbol) -> bool {
    exists|i: int| 0 <= i < table.len() && table[i].0 == s
}

/// Rewrites a symbol stream as indices into a code table, each symbol
/// replaced by the first table entry carrying it. Succeeds exactly when
/// every stream symbol has an entry; otherwise reports the invariant
/// violation instead of substituting a wrong value.
pub fn encode_symbols(
    stream: &Vec<RleSymbol>,
    table: &Vec<(RleSymbol, Vec<bool>)>,
) -> (r: Result<Vec<usize>, EncodeError>)
    ensures
        r is Err ==> r->Err_0 == EncodeError::SymbolNotInTable
            && exists|k: int|
                0 <= k < stream@.len() && !has_entry(table@, #[trigger] stream@[k]),
        r is Ok ==> r->Ok_0@.len() == stream@.len()
            && forall|k: int|
                0 <= k < stream@.len()
                    ==> (#[trigger] r->Ok_0@[k]) < table@.len()
                        && table@[r->Ok_0@[k] as int].0 == stream@[k]
                        && forall|j: int| 0 <= j < r->Ok_0@[k] ==> (#[trigger] table@[j]).0 != stream@[k],
{
    let n = stream.len();
    let m = table.len();
    let mut out: Vec<usize> = Vec::new();
    for k in 0..n
        invariant
            n == stream@.len(),
            m == table@.len(),
            out@.len() == k,
            forall|t: int|
                0 <= t < k
                    ==> (#[trigger] out@[t]) < table@.len()
                        && table@[out@[t] as int].0 == stream@[t]
                        && forall|j: int| 0 <= j < out@[t] ==> (#[trigger] table@[j]).0 != stream@[t],
    {
        let s = stream[k];
        let mut found = false;
        let mut idx: usize = 0;
        for i in 0..m
            invariant
                m == table@.len(),
                !found ==> forall|j: int| 0 <= j < i ==> (#[trigger] table@[j]).0 != s,
                found ==> idx < table@.len() && table@[idx as int].0 == s
                    && forall|j: int| 0 <= j < idx ==> (#[trigger] table@[j]).0 != s,
        {
            if !found && table[i].0 == s {
                found = true;
                idx = i;
            }
        }
        if !found {
            return Err(EncodeError::SymbolNotInTable);
        }
        out.push(idx);
    }
    Ok(out)
}

/// The height of a node: the longest root-to-leaf path below it.
pub open spec fn node_height(n: HuffmanNode) -> int
    decreases n,
{
    match n {
        HuffmanNode::Leaf { .. } => 0,
        HuffmanNode::Internal { left, right, .. } => {
            let hl = node_height(*left);
            let hr = node_height(*right);
            1 + if hl >= hr {
                hl
            } else {
                hr
            }
        },
    }
}

/// The Kraft sum of a code assignment at depth budget `d`: the sum over
/// all codewords of `2^(d - length)`, i.e. how many depth-`d` tree slots
/// the codewords occupy.
pub open spec fn kraft_sum(codes: Seq<(RleSymbol, Seq<bool>)>, d: int) -> int
    decreases codes.len(),
{
    if codes.len() == 0 {
        0
    } else {
        pow2((d - codes.first().1.len()) as nat) as int + kraft_sum(codes.drop_first(), d)
    }
}

/// The Kraft sum distributes over concatenation.
proof fn lemma_kraft_sum_add(a: Seq<(RleSymbol, Seq<bool>)>, b: Seq<(RleSymbol, Seq<bool>)>, d: int)
    ensures
        kraft_sum(a + b, d) == kraft_sum(a, d) + kraft_sum(b, d),
    decreases a.len(),
{
    if a.len() == 0 {
        assert(a + b =~= b);
    } else {
        assert((a + b).first() == a.first());
        assert((a + b).drop_first() =~= a.drop_first() + b);
        lemma_kraft_sum_add(a.drop_first(), b, d);
    }
}

/// The code assignment of a subtree fills its share of depth-`d` slots
/// exactly: its Kraft sum is `2^(d - |prefix|)` whenever `d` covers the
/// deepest leaf.
proof fn lemma_kraft_sum_codes(n: HuffmanNode, prefix: Seq<bool>, d: int)
    requires
        d >= prefix.len() + node_height(n),
    ensures
        kraft_sum(codes_of(n, prefix), d) == pow2((d - prefix.len()) as nat),
    decreases n,
{
    match n {
        HuffmanNode::Leaf { symbol, .. } => {
            let cs = codes_of(n, prefix);
            assert(cs.first() == (symbol, prefix));
            assert(cs.drop_first() =~= Seq::<(RleSymbol, Seq<bool>)>::empty());
            assert(kraft_sum(Seq::<(RleSymbol, Seq<bool>)>::empty(), d) == 0);
            assert(kraft_sum(cs, d)
                == pow2((d - prefix.len()) as nat) as int + kraft_sum(cs.drop_first(), d));
        },
        HuffmanNode::Internal { left, right, .. } => {
            let p0 = prefix.push(false);
            let p1 = prefix.push(true);
            lemma_node_height_nonneg(*left);
            lemma_node_height_nonneg(*right);
            lemma_kraft_sum_codes(*left, p0, d);
            lemma_kraft_sum_codes(*right, p1, d);
            lemma_kraft_sum_add(codes_of(*left, p0), codes_of(*right, p1), d);
            vstd::arithmetic::power2::lemma_pow2_unfold((d - prefix.len()) as nat);
        },
    }
}

/// No node has negative height.
proof fn lemma_node_height_nonneg(n: HuffmanNode)
    ensures
        node_height(n) >= 0,
    decreases n,
{
    match n {
        HuffmanNode::Leaf { .. } => {},
        HuffmanNode::Internal { left, right, .. } => {
            lemma_node_height_nonneg(*left);
            lemma_node_height_nonneg(*right);
        },
    }
}

/// Kraft equality: the root-to-leaf codewords of any Huffman tree fill a
/// full binary tree exactly -- for every depth budget `d` at least the
/// tree's height, the codeword lengths `l_i` satisfy
/// `sum_i 2^(d - l_i) == 2^d`, the integer form of
/// `sum_i 2^(-l_i) == 1`. (The degenerate single-leaf table instead uses
/// the defined one-bit code and occupies half the slots.)
pub proof fn lemma_kraft_equality(root: HuffmanNode, d: int)
    requires
        d >= node_height(root),
    ensures
        kraft_sum(codes_of(root, Seq::empty()), d) == pow2(d as nat),
{
    lemma_kraft_sum_codes(root, Seq::empty(), d);
}

/// Key distinctness survives reordering: a table with the same entry
/// multiset as a table of pairwise distinct keys has pairwise distinct
/// keys itself.
proof fn lemma_keys_distinct_transfer(a: Seq<FreqEntry>, b: Seq<FreqEntry>)
    requires
        a.to_multiset() == b.to_multiset(),
        forall|i: int, j: int| 0 <= i < j < a.len() ==> a[i].symbol != a[j].symbol,
    ensures
        forall|i: int, j: int| 0 <= i < j < b.len() ==> b[i].symbol != b[j].symbol,
{
    broadcast use group_to_multiset_ensures;

    assert(a.no_duplicates()) by {
        assert forall|i: int, j: int| 0 <= i < a.len() && 0 <= j < a.len() && i != j
            implies a[i] != a[j] by {
            if i < j {
                assert(a[i].symbol != a[j].symbol);
            } else {
                assert(a[j].symbol != a[i].symbol);
            }
        }
    }
    a.lemma_multiset_has_no_duplicates();
    assert forall|i: int, j: int| 0 <= i < j < b.len()
        implies b[i].symbol != b[j].symbol by {
        if b[i].symbol == b[j].symbol {
            if b[i] == b[j] {
                let s0 = b.subrange(0, j);
                let s1 = b.subrange(j, b.len() as int);
                assert(b =~= s0 + s1);
                vstd::seq_lib::lemma_multiset_commutative(s0, s1);
                assert(s0.contains(b[i]) && s1.contains(b[i])) by {
                    assert(s0[i] == b[i]);
                    assert(s1[0] == b[j]);
                }
                assert(b.to_multiset().count(b[i]) >= 2);
                assert(a.to_multiset().contains(b[i]));
                assert(false);
            } else {
                assert(b.contains(b[i]) && b.contains(b[j])) by {
                    assert(b[i] == b[i] && b[j] == b[j]);
                }
                assert(b.to_multiset().count(b[i]) > 0 && b.to_multiset().count(b[j]) > 0);
                assert(a.to_multiset().count(b[i]) > 0 && a.to_multiset().count(b[j]) > 0);
                assert(a.contains(b[i]) && a.contains(b[j]));
                let i1 = choose|t: int| 0 <= t < a.len() && a[t] == b[i];
                let j1 = choose|t: int| 0 <= t < a.len() && a[t] == b[j];
                assert(i1 != j1);
                if i1 < j1 {
                    assert(a[i1].symbol != a[j1].symbol);
                } else {
                    assert(a[j1].symbol != a[i1].symbol);
                }
                assert(false);
            }
        }
    }
}

/// The symbols of a subtree's code assignment are exactly its leaf
/// symbols.
proof fn lemma_codes_symbols_ms(n: HuffmanNode, prefix: Seq<bool>)
    ensures
        codes_of(n, prefix).map_values(|c: (RleSymbol, Seq<bool>)| c.0).to_multiset()
            == leaf_ms(n),
    decreases n,
{
    broadcast use group_to_multiset_ensures;
    broadcast use vstd::multiset::group_multiset_axioms;

    match n {
        HuffmanNode::Leaf { symbol, .. } => {
            let m = codes_of(n, prefix).map_values(|c: (RleSymbol, Seq<bool>)| c.0);
            assert(m =~= Seq::<RleSymbol>::empty().push(symbol));
            assert(Seq::<RleSymbol>::empty().push(symbol).to_multiset()
                =~= Seq::<RleSymbol>::empty().to_multiset().insert(symbol));
        },
        HuffmanNode::Internal { left, right, .. } => {
            let f = |c: (RleSymbol, Seq<bool>)| c.0;
            let cl = codes_of(*left, prefix.push(false));
            let cr = codes_of(*right, prefix.push(true));
            lemma_codes_symbols_ms(*left, prefix.push(false));
            lemma_codes_symbols_ms(*right, prefix.push(true));
            assert((cl + cr).map_values(f) =~= cl.map_values(f) + cr.map_values(f));
            vstd::seq_lib::lemma_multiset_commutative(cl.map_values(f), cr.map_values(f));
        },
    }
}

/// When no symbol sits on two leaves, the code table carries pairwise
/// distinct symbols.
proof fn lemma_code_table_symbols_distinct(root: HuffmanNode)
    requires
        forall|x: RleSymbol| #[trigger] leaf_ms(root).count(x) <= 1,
    ensures
        forall|i: int, j: int|
            0 <= i < code_table_spec(root).len() && 0 <= j < code_table_spec(root).len() && i != j
                ==> (#[trigger] code_table_spec(root)[i]).0
                    != (#[trigger] code_table_spec(root)[j]).0,
{
    broadcast use group_to_multiset_ensures;

    match root {
        HuffmanNode::Leaf { .. } => {},
        HuffmanNode::Internal { .. } => {
            lemma_codes_symbols_ms(root, Seq::empty());
            let m = code_table_spec(root).map_values(|c: (RleSymbol, Seq<bool>)| c.0);
            m.lemma_multiset_has_no_duplicates_conv();
            assert forall|i: int, j: int|
                0 <= i < code_table_spec(root).len() && 0 <= j < code_table_spec(root).len()
                    && i != j
                implies (#[trigger] code_table_spec(root)[i]).0
                    != (#[trigger] code_table_spec(root)[j]).0 by {
                assert(m[i] == code_table_spec(root)[i].0);
                assert(m[j] == code_table_spec(root)[j].0);
            }
        },
    }
}

/// A symbol is carried over from one frequency table to another with the
/// same entry multiset.
proof fn lemma_has_key_transfer(a: Seq<FreqEntry>, b: Seq<FreqEntry>, s: RleSymbol)
    requires
        a.to_multiset() == b.to_multiset(),
        has_key(a, s),
    ensures
        has_key(b, s),
{
    broadcast use group_to_multiset_ensures;

    let i = choose|i: int| 0 <= i < a.len() && a[i].symbol == s;
    assert(a.contains(a[i]));
    assert(b.to_multiset().count(a[i]) > 0);
    assert(b.contains(a[i]));
    let j = choose|j: int| 0 <= j < b.len() && b[j] == a[i];
    assert(b[j].symbol == s);
}

/// The entropy-coded artifact of one color plane: each block's run-length
/// symbol stream rewritten as codeword-table indices, the prefix-free code
/// table, and the Huffman tree that decodes it. A plane with no blocks has
/// no tree and an empty table.
pub struct EncodedPlane {
    pub blocks: Vec<Vec<usize>>,
    pub table: Vec<(RleSymbol, Vec<bool>)>,
    pub tree: Option<HuffmanTree>,
}

/// The symbol stream named by a sequence of code-table indices.
pub open spec fn decoded_symbols(
    idxs: Seq<usize>,
    table: Seq<(RleSymbol, Vec<bool>)>,
) -> Seq<RleSymbol> {
    Seq::new(idxs.len(), |k: int| table[idxs[k] as int].0)
}

/// What the entropy stage guarantees of one encoded plane against the
/// plane's quantized blocks: every index is in range; decoding each
/// block's indices through the table and expanding the run-length pairs
/// restores exactly the block's zigzag sequence; the code table is
/// prefix-free; and the tree exists exactly for a non-empty plane and is
/// the well-formed tree whose leaf paths are the table.
pub open spec fn valid_encoded_plane(r: EncodedPlane, blocks: Seq<Seq<i32>>) -> bool {
    &&& r.blocks@.len() == blocks.len()
    &&& forall|b: int, k: int|
        0 <= b < r.blocks@.len() && 0 <= k < r.blocks@[b]@.len()
            ==> #[trigger] r.blocks@[b]@[k] < r.table@.len()
    &&& forall|b: int|
        0 <= b < blocks.len()
            ==> expand_rle(decoded_symbols((#[trigger] r.blocks@[b])@, r.table@))
                == zigzag_seq(blocks[b])
    &&& forall|i: int, j: int|
        0 <= i < r.table@.len() && 0 <= j < r.table@.len() && i != j
            ==> !is_prefix_of(
                (#[trigger] code_views(r.table@)[i]).1,
                (#[trigger] code_views(r.table@)[j]).1,
            )
    &&& forall|i: int, j: int|
        0 <= i < r.table@.len() && 0 <= j < r.table@.len() && i != j
            ==> (#[trigger] r.table@[i]).0 != (#[trigger] r.table@[j]).0
    &&& (r.tree is Some <==> blocks.len() > 0)
    &&& (r.tree is Some ==> wf_node(r.tree->Some_0.root)
        && code_views(r.table@) == code_table_spec(r.tree->Some_0.root))
    &&& (r.tree is None ==> r.table@.len() == 0)
}

/// A stream symbol reaches the code table: it is counted, survives the
/// sort, sits on a leaf of the tree, and so owns a table entry.
proof fn lemma_symbol_covered(
    all_syms: Seq<RleSymbol>,
    freqs: Seq<FreqEntry>,
    sorted: Seq<FreqEntry>,
    root: HuffmanNode,
    table: Seq<(RleSymbol, Vec<bool>)>,
    s: RleSymbol,
)
    requires
        all_syms.contains(s),
        forall|k: int| 0 <= k < all_syms.len() ==> has_key(freqs, #[trigger] all_syms[k]),
        freqs.to_multiset() == sorted.to_multiset(),
        leaf_ms(root) == keys_ms(sorted),
        code_views(table) == code_table_spec(root),
    ensures
        has_entry(table, s),
{
    broadcast use group_to_multiset_ensures;

    let i = choose|i: int| 0 <= i < all_syms.len() && all_syms[i] == s;
    assert(has_key(freqs, all_syms[i]));
    lemma_has_key_transfer(freqs, sorted, s);
    let j = choose|j: int| 0 <= j < sorted.len() && sorted[j].symbol == s;
    let m = sorted.map_values(|e: FreqEntry| e.symbol);
    assert(m[j] == s);
    assert(m.contains(s));
    assert(leaf_ms(root).count(s) > 0);
    lemma_code_table_covers(root, s);
    let t = choose|t: int|
        0 <= t < code_table_spec(root).len() && (#[trigger] code_table_spec(root)[t]).0 == s;
    assert(code_views(table)[t].0 == s);
    assert(table[t as int].0 == s);
    assert(has_entry(table, s));
}

/// Entropy-codes one plane: zigzag-scans and run-length encodes every
/// quantized block, builds one Huffman code over the whole plane's symbol
/// stream, and rewrites each block's stream as codeword-table indices.
pub fn encode_plane(blocks: &Vec<Vec<i32>>) -> (r: EncodedPlane)
    requires
        forall|b: int| 0 <= b < blocks@.len() ==> (#[trigger] blocks@[b])@.len() == 64,
    ensures
        valid_encoded_plane(r, blocks@.map_values(|v: Vec<i32>| v@)),
{
    broadcast use group_to_multiset_ensures;

    let ghost bviews = blocks@.map_values(|v: Vec<i32>| v@);
    let n = blocks.len();
    if n == 0 {
        let r = EncodedPlane { blocks: Vec::new(), table: Vec::new(), tree: None };
        proof {
            assert(r.blocks@.len() == 0 && r.table@.len() == 0);
        }
        return r;
    }
    let mut streams: Vec<Vec<RleSymbol>> = Vec::new();
    let mut all_syms: Vec<RleSymbol> = Vec::new();
    for b in 0..n
        invariant
            n == blocks@.len(),
            forall|t: int| 0 <= t < blocks@.len() ==> (#[trigger] blocks@[t])@.len() == 64,
            streams@.len() == b,
            forall|t: int|
                0 <= t < b
                    ==> expand_rle((#[trigger] streams@[t])@) == zigzag_seq(blocks@[t]@),
            forall|t: int, k: int|
                0 <= t < streams@.len() && 0 <= k < streams@[t]@.len()
                    ==> all_syms@.contains(#[trigger] streams@[t]@[k]),
    {
        let z = zigzag_scan(&blocks[b]);
        let s = run_length_encode(&z);
        let m = s.len();
        let ghost before = all_syms@;
        for k in 0..m
            invariant
                m == s@.len(),
                all_syms@ == before + s@.subrange(0, k as int),
                forall|t: int, kk: int|
                    0 <= t < streams@.len() && 0 <= kk < streams@[t]@.len()
                        ==> before.contains(#[trigger] streams@[t]@[kk]),
        {
            all_syms.push(s[k]);
            proof {
                assert(all_syms@ =~= before + s@.subrange(0, k + 1));
            }
        }
        proof {
            assert(all_syms@ =~= before + s@) by {
                assert(s@.subrange(0, m as int) =~= s@);
            }
        }
        streams.push(s);
        proof {
            assert forall|t: int, k: int|
                0 <= t < streams@.len() && 0 <= k < streams@[t]@.len()
                implies all_syms@.contains(#[trigger] streams@[t]@[k]) by {
                if t < streams@.len() - 1 {
                    assert(before.contains(streams@[t]@[k]));
                    let i = choose|i: int| 0 <= i < before.len() && before[i] == streams@[t]@[k];
                    assert(all_syms@[i] == streams@[t]@[k]);
                } else {
                    assert(streams@[t] == s);
                    assert(all_syms@[before.len() + k] == s@[k]);
                }
            }
        }
    }
    let freqs = count_frequencies(&all_syms);
    let sorted = sort_entries(&freqs);
    proof {
        assert(streams@[0]@.len() > 0) by {
            if streams@[0]@.len() == 0 {
                assert(expand_rle(streams@[0]@) =~= Seq::<i32>::empty());
                assert(zigzag_seq(blocks@[0]@).len() == 64);
            }
        }
        assert(all_syms@.contains(streams@[0]@[0]));
        let i = choose|i: int| 0 <= i < all_syms@.len() && all_syms@[i] == streams@[0]@[0];
        assert(has_key(freqs@, all_syms@[i]));
        assert(freqs@.len() > 0);
    }
    let tree = match build_huffman_tree(&sorted) {
        Some(t) => t,
        None => vstd::pervasive::unreached(),
    };
    let table = codes_for_tree(&tree);
    proof {
        assert forall|t: int, k: int|
            0 <= t < streams@.len() && 0 <= k < streams@[t]@.len()
            implies has_entry(table@, #[trigger] streams@[t]@[k]) by {
            lemma_symbol_covered(
                all_syms@,
                freqs@,
                sorted@,
                tree.root,
                table@,
                streams@[t]@[k],
            );
        }
    }
    let mut out_blocks: Vec<Vec<usize>> = Vec::new();
    for b in 0..n
        invariant
            n == blocks@.len(),
            n == streams@.len(),
            forall|t: int|
                0 <= t < n
                    ==> expand_rle((#[trigger] streams@[t])@) == zigzag_seq(blocks@[t]@),
            forall|t: int, k: int|
                0 <= t < streams@.len() && 0 <= k < streams@[t]@.len()
                    ==> has_entry(table@, #[trigger] streams@[t]@[k]),
            out_blocks@.len() == b,
            forall|t: int, k: int|
                0 <= t < out_blocks@.len() && 0 <= k < out_blocks@[t]@.len()
                    ==> #[trigger] out_blocks@[t]@[k] < table@.len(),
            forall|t: int|
                0 <= t < b
                    ==> expand_rle(decoded_symbols((#[trigger] out_blocks@[t])@, table@))
                        == zigzag_seq(blocks@[t]@),
    {
        let enc = match encode_symbols(&streams[b], &table) {
            Ok(v) => v,
            Err(_) => {
                proof {
                    let k = choose|k: int|
                        0 <= k < streams@[b as int]@.len()
                            && !has_entry(table@, #[trigger] streams@[b as int]@[k]);
                    assert(has_entry(table@, streams@[b as int]@[k]));
                }
                vstd::pervasive::unreached()
            },
        };
        proof {
            assert(decoded_symbols(enc@, table@) =~= streams@[b as int]@);
        }
        out_blocks.push(enc);
    }
    let r = EncodedPlane { blocks: out_blocks, table, tree: Some(tree) };
    proof {
        lemma_keys_distinct_transfer(freqs@, sorted@);
        let ks = sorted@.map_values(|e: FreqEntry| e.symbol);
        assert(ks.no_duplicates()) by {
            assert forall|i: int, j: int| 0 <= i < ks.len() && 0 <= j < ks.len() && i != j
                implies ks[i] != ks[j] by {
                if i < j {
                    assert(sorted@[i].symbol != sorted@[j].symbol);
                } else {
                    assert(sorted@[j].symbol != sorted@[i].symbol);
                }
            }
        }
        ks.lemma_multiset_has_no_duplicates();
        assert forall|x: RleSymbol| #[trigger] leaf_ms(tree.root).count(x) <= 1 by {
            broadcast use group_to_multiset_ensures;

            if leaf_ms(tree.root).count(x) > 0 {
                assert(ks.to_multiset().contains(x));
            }
        }
        lemma_code_table_symbols_distinct(tree.root);
        assert forall|i: int, j: int|
            0 <= i < r.table@.len() && 0 <= j < r.table@.len() && i != j
            implies (#[trigger] r.table@[i]).0 != (#[trigger] r.table@[j]).0 by {
            assert(code_views(r.table@)[i] == code_table_spec(tree.root)[i]);
            assert(code_views(r.table@)[j] == code_table_spec(tree.root)[j]);
            assert(code_views(r.table@)[i].0 == r.table@[i].0);
            assert(code_views(r.table@)[j].0 == r.table@[j].0);
        }
        lemma_code_table_prefix_free(tree.root);
        assert forall|i: int, j: int|
            0 <= i < r.table@.len() && 0 <= j < r.table@.len() && i != j
            implies !is_prefix_of(
                (#[trigger] code_views(r.table@)[i]).1,
                (#[trigger] code_views(r.table@)[j]).1,
            ) by {
            assert(code_views(r.table@)[i] == code_table_spec(tree.root)[i]);
            assert(code_views(r.table@)[j] == code_table_spec(tree.root)[j]);
        }
        assert forall|b: int| 0 <= b < bviews.len()
            implies expand_rle(decoded_symbols((#[trigger] r.blocks@[b])@, r.table@))
                == zigzag_seq(bviews[b]) by {
            assert(bviews[b] == blocks@[b]@);
        }
    }
    r
}

/// Entropy-codes the three quantized planes independently: stages six to
/// eight of the pipeline (zigzag scan, run-length encoding, Huffman
/// coding), one code per color plane across all its blocks.
pub fn statistical_enconding(
    y: &Vec<Vec<i32>>,
    cb: &Vec<Vec<i32>>,
    cr: &Vec<Vec<i32>>,
) -> (out: (EncodedPlane, EncodedPlane, EncodedPlane))
    requires
        forall|b: int| 0 <= b < y@.len() ==> (#[trigger] y@[b])@.len() == 64,
        forall|b: int| 0 <= b < cb@.len() ==> (#[trigger] cb@[b])@.len() == 64,
        forall|b: int| 0 <= b < cr@.len() ==> (#[trigger] cr@[b])@.len() == 64,
    ensures
        valid_encoded_plane(out.0, y@.map_values(|v: Vec<i32>| v@)),
        valid_encoded_plane(out.1, cb@.map_values(|v: Vec<i32>| v@)),
        valid_encoded_plane(out.2, cr@.map_values(|v: Vec<i32>| v@)),
{
    (encode_plane(y), encode_plane(cb), encode_plane(cr))
}

} // verus!
