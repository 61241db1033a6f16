use jpg_encoder::dct::dct_block;
use jpg_encoder::encoder::{encode_image, encode_image_with_tables};
use jpg_encoder::errors::EncodeError;
use jpg_encoder::huffman::encode_plane;
use jpg_encoder::quant::quantize_block;
use jpg_encoder::rle::{run_length_encode, RleSymbol};
use jpg_encoder::zigzag::zigzag_scan;

#[test]
fn zero_dimension_image_is_rejected() {
    let pixels = Vec::new();
    assert_eq!(
        encode_image(&pixels, 0, 0, 50).err(),
        Some(EncodeError::InvalidDimensions)
    );
    assert_eq!(
        encode_image(&pixels, 0, 5, 50).err(),
        Some(EncodeError::InvalidDimensions)
    );
}

#[test]
fn gray_block_scenario_runs_whole_chain() {
    // A single 8x8 all-gray (128) luma block: the DCT shift zeroes the
    // input, all 64 coefficients are exactly 0, the quantized block is all
    // zero, the zigzag sequence is 64 zeros, run-length encoding yields the
    // single pair (0, 64), and the one-symbol Huffman code is one bit.
    let block = vec![128u8; 64];
    let coeffs = dct_block(&block);
    assert_eq!(coeffs, vec![0i64; 64]);
    let table = vec![1u8; 64];
    let quantized = quantize_block(&coeffs, &table);
    assert_eq!(quantized, vec![0i32; 64]);
    let scanned = zigzag_scan(&quantized);
    assert_eq!(scanned, vec![0i32; 64]);
    let pairs = run_length_encode(&scanned);
    assert_eq!(pairs, vec![RleSymbol { value: 0, run: 64 }]);
    let plane = encode_plane(&vec![quantized]);
    assert_eq!(plane.table.len(), 1);
    assert_eq!(plane.table[0].1, vec![false]);
    assert_eq!(plane.blocks, vec![vec![0usize]]);
}

#[test]
fn gray_image_encodes_to_single_bit_codes() {
    let pixels = vec![(128u8, 128u8, 128u8); 64];
    let img = encode_image(&pixels, 8, 8, 50).expect("nonzero dimensions");
    assert_eq!(img.width, 8);
    assert_eq!(img.height, 8);
    // One full-resolution luma block, one 4x4-sourced block per chroma plane.
    assert_eq!(img.y.blocks.len(), 1);
    assert_eq!(img.cb.blocks.len(), 1);
    assert_eq!(img.cr.blocks.len(), 1);
    // Gray converts to (128, 128, 128) exactly, so every plane is one
    // all-zero quantized block: one symbol, one single-bit codeword.
    assert_eq!(img.y.table.len(), 1);
    assert_eq!(img.y.table[0], (RleSymbol { value: 0, run: 64 }, vec![false]));
    assert_eq!(img.y.blocks[0], vec![0usize]);
    assert_eq!(img.cb.table.len(), 1);
    assert_eq!(img.cr.table.len(), 1);
}

#[test]
fn ten_by_ten_image_has_four_blocks_per_luma_plane() {
    let pixels = vec![(200u8, 30u8, 90u8); 100];
    let img = encode_image(&pixels, 10, 10, 50).expect("nonzero dimensions");
    // Luma: ceil(10/8)^2 = 4 blocks; chroma subsamples to 5x5, still 1 block.
    assert_eq!(img.y.blocks.len(), 4);
    assert_eq!(img.cb.blocks.len(), 1);
    assert_eq!(img.cr.blocks.len(), 1);
}

#[test]
fn encoded_image_carries_scaled_tables() {
    let pixels = vec![(10u8, 20u8, 30u8); 4];
    let img = encode_image(&pixels, 2, 2, 100).expect("nonzero dimensions");
    assert!(img.luma_table.iter().all(|&s| s == 1));
    assert!(img.chroma_table.iter().all(|&s| s == 1));
}

#[test]
fn caller_supplied_tables_are_used_verbatim() {
    let pixels = vec![(250u8, 250u8, 250u8); 64];
    let luma = vec![255u8; 64];
    let chroma = vec![255u8; 64];
    let img = encode_image_with_tables(&pixels, 8, 8, luma.clone(), chroma.clone())
        .expect("nonzero dimensions");
    assert_eq!(img.luma_table, luma);
    assert_eq!(img.chroma_table, chroma);
    // Luma 250 shifts to +122; with step 255 the DC quantizes to
    // round(122 * 7.99875 / 255) = 4, and the AC terms stay zero.
    assert_eq!(img.y.table.len(), 2);
}

#[test]
fn constant_image_keeps_only_dc_symbols() {
    // A constant non-gray image: per block, the DC quantized coefficient is
    // non-zero and the 63 AC coefficients vanish, so the zigzag sequence is
    // one value followed by 63 zeros: exactly two run-length symbols.
    let pixels = vec![(250u8, 250u8, 250u8); 64];
    let img = encode_image(&pixels, 8, 8, 50).expect("nonzero dimensions");
    assert_eq!(img.y.table.len(), 2);
    assert_eq!(img.y.blocks[0].len(), 2);
}
