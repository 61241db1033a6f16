use jpg_encoder::errors::EncodeError;
use jpg_encoder::huffman::{
    build_huffman_tree, codes_for_tree, count_frequencies, encode_plane, encode_symbols,
    sort_entries, statistical_enconding, HuffmanNode,
};
use jpg_encoder::rle::RleSymbol;

fn sym(value: i32, run: usize) -> RleSymbol {
    RleSymbol { value, run }
}

#[test]
fn frequencies_count_each_distinct_symbol() {
    let stream = vec![sym(1, 1), sym(1, 1), sym(2, 3), sym(1, 1)];
    let freqs = count_frequencies(&stream);
    assert_eq!(freqs.len(), 2);
    assert_eq!(freqs[0].symbol, sym(1, 1));
    assert_eq!(freqs[0].count, 3);
    assert_eq!(freqs[1].symbol, sym(2, 3));
    assert_eq!(freqs[1].count, 1);
}

#[test]
fn sort_orders_by_count_then_symbol() {
    let stream = vec![sym(2, 1), sym(2, 1), sym(7, 1), sym(1, 1), sym(1, 1)];
    let sorted = sort_entries(&count_frequencies(&stream));
    // Counts: (2,1) -> 2, (7,1) -> 1, (1,1) -> 2. Ascending count, ties by value.
    assert_eq!(sorted[0].symbol, sym(7, 1));
    assert_eq!(sorted[1].symbol, sym(1, 1));
    assert_eq!(sorted[2].symbol, sym(2, 1));
}

#[test]
fn huffman_tree_merges_two_lowest() {
    // x three times, y twice, z once: z and y merge first, then x joins.
    let stream = vec![sym(1, 1), sym(1, 1), sym(1, 1), sym(2, 1), sym(2, 1), sym(3, 1)];
    let sorted = sort_entries(&count_frequencies(&stream));
    let tree = build_huffman_tree(&sorted).expect("non-empty table");
    match &tree.root {
        HuffmanNode::Internal { weight, left, right } => {
            assert_eq!(*weight, 6);
            match &**left {
                HuffmanNode::Leaf { symbol, weight } => {
                    assert_eq!(*symbol, sym(1, 1));
                    assert_eq!(*weight, 3);
                }
                _ => panic!("expected the most frequent symbol as a leaf"),
            }
            match &**right {
                HuffmanNode::Internal { weight, left, right } => {
                    assert_eq!(*weight, 3);
                    match (&**left, &**right) {
                        (
                            HuffmanNode::Leaf { symbol: ls, .. },
                            HuffmanNode::Leaf { symbol: rs, .. },
                        ) => {
                            assert_eq!(*ls, sym(3, 1));
                            assert_eq!(*rs, sym(2, 1));
                        }
                        _ => panic!("expected two leaves"),
                    }
                }
                _ => panic!("expected a merged internal node"),
            }
        }
        _ => panic!("expected an internal root"),
    }
}

#[test]
fn codewords_are_tree_paths_and_prefix_free() {
    let stream = vec![sym(1, 1), sym(1, 1), sym(1, 1), sym(2, 1), sym(2, 1), sym(3, 1)];
    let sorted = sort_entries(&count_frequencies(&stream));
    let tree = build_huffman_tree(&sorted).expect("non-empty table");
    let table = codes_for_tree(&tree);
    assert_eq!(table.len(), 3);
    assert_eq!(table[0], (sym(1, 1), vec![false]));
    assert_eq!(table[1], (sym(3, 1), vec![true, false]));
    assert_eq!(table[2], (sym(2, 1), vec![true, true]));
    for i in 0..table.len() {
        for j in 0..table.len() {
            if i != j {
                let a = &table[i].1;
                let b = &table[j].1;
                let is_prefix = a.len() <= b.len() && a[..] == b[..a.len()];
                assert!(!is_prefix);
            }
        }
    }
}

#[test]
fn codeword_lengths_satisfy_kraft_equality() {
    // sum over codewords of 2^(d - length) == 2^d for d at least the height.
    let stream = vec![
        sym(1, 1), sym(1, 1), sym(1, 1), sym(1, 1), sym(2, 1), sym(2, 1),
        sym(3, 1), sym(4, 2),
    ];
    let sorted = sort_entries(&count_frequencies(&stream));
    let tree = build_huffman_tree(&sorted).expect("non-empty table");
    let table = codes_for_tree(&tree);
    let d = table.iter().map(|e| e.1.len()).max().unwrap();
    let total: u64 = table.iter().map(|e| 1u64 << (d - e.1.len())).sum();
    assert_eq!(total, 1u64 << d);
}

#[test]
fn encoding_is_reproducible() {
    let blocks = vec![vec![3i32; 64], {
        let mut b = vec![0i32; 64];
        b[0] = -7;
        b[9] = 2;
        b
    }];
    let first = encode_plane(&blocks);
    let second = encode_plane(&blocks);
    assert_eq!(first.blocks, second.blocks);
    assert_eq!(first.table, second.table);
}

#[test]
fn single_symbol_gets_one_bit_code() {
    let stream = vec![sym(0, 64)];
    let sorted = sort_entries(&count_frequencies(&stream));
    let tree = build_huffman_tree(&sorted).expect("non-empty table");
    let table = codes_for_tree(&tree);
    assert_eq!(table.len(), 1);
    assert_eq!(table[0], (sym(0, 64), vec![false]));
}

#[test]
fn empty_frequency_table_has_no_tree() {
    let sorted = sort_entries(&count_frequencies(&vec![]));
    assert!(build_huffman_tree(&sorted).is_none());
}

#[test]
fn encode_symbols_rewrites_stream_as_indices() {
    let stream = vec![sym(1, 1), sym(1, 1), sym(1, 1), sym(2, 1), sym(2, 1), sym(3, 1)];
    let sorted = sort_entries(&count_frequencies(&stream));
    let tree = build_huffman_tree(&sorted).expect("non-empty table");
    let table = codes_for_tree(&tree);
    let indices = encode_symbols(&stream, &table).expect("all symbols in table");
    assert_eq!(indices, vec![0, 0, 0, 2, 2, 1]);
}

#[test]
fn encode_symbols_reports_missing_symbol() {
    let stream = vec![sym(1, 1)];
    let table = Vec::new();
    assert_eq!(encode_symbols(&stream, &table), Err(EncodeError::SymbolNotInTable));
}

#[test]
fn encode_plane_on_zero_blocks() {
    // Two all-zero quantized blocks share one degenerate single-bit code.
    let blocks = vec![vec![0i32; 64], vec![0i32; 64]];
    let plane = encode_plane(&blocks);
    assert_eq!(plane.blocks.len(), 2);
    assert_eq!(plane.table.len(), 1);
    assert_eq!(plane.table[0], (sym(0, 64), vec![false]));
    assert_eq!(plane.blocks[0], vec![0usize]);
    assert_eq!(plane.blocks[1], vec![0usize]);
    assert!(plane.tree.is_some());
}

#[test]
fn encode_empty_plane_has_no_tree() {
    let blocks: Vec<Vec<i32>> = Vec::new();
    let plane = encode_plane(&blocks);
    assert_eq!(plane.blocks.len(), 0);
    assert_eq!(plane.table.len(), 0);
    assert!(plane.tree.is_none());
}

#[test]
fn statistical_enconding_covers_three_planes() {
    let y = vec![vec![0i32; 64]];
    let cb = vec![vec![0i32; 64]];
    let cr: Vec<Vec<i32>> = Vec::new();
    let (ey, ecb, ecr) = statistical_enconding(&y, &cb, &cr);
    assert_eq!(ey.blocks.len(), 1);
    assert_eq!(ecb.blocks.len(), 1);
    assert_eq!(ecr.blocks.len(), 0);
    assert!(ecr.tree.is_none());
}
