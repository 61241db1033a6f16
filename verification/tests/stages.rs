use jpg_encoder::blocks::{merge_blocks, split_into_blocks};
use jpg_encoder::color::{colorspace_conversion, rgb_to_ycbcr};
use jpg_encoder::dct::{dct_block, discrete_cosine_transform};
use jpg_encoder::quant::{
    chroma_quantization_table, luma_quantization_table, quantization, quantize_block,
    scale_quantization_table,
};
use jpg_encoder::rle::{run_length_decode, run_length_encode, RleSymbol};
use jpg_encoder::subsample::subsample_plane;
use jpg_encoder::zigzag::{zigzag_scan, zigzag_unscan};

#[test]
fn colorspace_gray_is_fixed_point() {
    assert_eq!(rgb_to_ycbcr(128, 128, 128), (128, 128, 128));
    assert_eq!(rgb_to_ycbcr(0, 0, 0), (0, 128, 128));
}

#[test]
fn colorspace_pure_red() {
    // Y = 299*255/1000, Cb = (1280000 - 1687*255)/10000, Cr = (1280000 + 5000*255)/10000.
    assert_eq!(rgb_to_ycbcr(255, 0, 0), (76, 84, 255));
}

#[test]
fn colorspace_white_saturates_luma() {
    assert_eq!(rgb_to_ycbcr(255, 255, 255), (255, 128, 128));
}

#[test]
fn colorspace_conversion_maps_every_pixel() {
    let pixels = vec![(255, 0, 0), (0, 0, 0), (128, 128, 128)];
    let out = colorspace_conversion(&pixels);
    assert_eq!(out.len(), 3);
    assert_eq!(out[0], (76, 84, 255));
    assert_eq!(out[1], (0, 128, 128));
    assert_eq!(out[2], (128, 128, 128));
}

#[test]
fn subsample_constant_block_is_exact() {
    // A 4x4 all-equal chroma plane averages to the same constant exactly.
    let plane = vec![7u8; 16];
    let out = subsample_plane(&plane, 4, 4);
    assert_eq!(out, vec![7u8; 4]);
}

#[test]
fn subsample_averages_with_truncation() {
    // One 2x2 group: (1 + 2 + 3 + 4) / 4 = 2 (truncated from 2.5).
    let plane = vec![1u8, 2, 3, 4];
    let out = subsample_plane(&plane, 2, 2);
    assert_eq!(out, vec![2u8]);
}

#[test]
fn subsample_odd_dimensions_replicate_edge() {
    // 3x3 plane: the right column and bottom row replicate inward.
    let plane = vec![10u8, 20, 30, 40, 50, 60, 70, 80, 90];
    let out = subsample_plane(&plane, 3, 3);
    assert_eq!(out.len(), 4);
    assert_eq!(out[0], (10 + 20 + 40 + 50) / 4);
    // (i, j) = (0, 1): columns 2 and 2, rows 0 and 1.
    assert_eq!(out[1], (30 + 30 + 60 + 60) / 4);
    // (i, j) = (1, 1): the corner sample replicated four times.
    assert_eq!(out[3], 90);
}

#[test]
fn split_ten_by_ten_makes_four_blocks() {
    // ceil(10/8) = 2 per axis: exactly 4 blocks, with edge replication.
    let plane: Vec<u8> = (0..100).map(|i| i as u8).collect();
    let blocks = split_into_blocks(&plane, 10, 10);
    assert_eq!(blocks.len(), 4);
    for b in &blocks {
        assert_eq!(b.len(), 64);
    }
    assert_eq!(blocks[0][0], plane[0]);
    // Top-right block, row 0: columns 8..9 are real, 10..15 replicate column 9.
    assert_eq!(blocks[1][0], plane[8]);
    assert_eq!(blocks[1][1], plane[9]);
    assert_eq!(blocks[1][7], plane[9]);
    // Bottom-right block, fully padded corner replicates the last sample.
    assert_eq!(blocks[3][63], plane[99]);
}

#[test]
fn split_then_merge_restores_plane() {
    let plane: Vec<u8> = (0..100).map(|i| (i * 7 % 251) as u8).collect();
    let blocks = split_into_blocks(&plane, 10, 10);
    let merged = merge_blocks(&blocks, 10, 10);
    assert_eq!(merged, plane);
}

#[test]
fn dct_gray_block_is_all_zero() {
    // Value 128 shifts to zero, so every coefficient is exactly zero.
    let block = vec![128u8; 64];
    let out = dct_block(&block);
    assert_eq!(out, vec![0i64; 64]);
}

#[test]
fn dct_constant_block_concentrates_in_dc() {
    // Only the DC coefficient is non-zero: (v - 128) * 23168^2.
    let block = vec![130u8; 64];
    let out = dct_block(&block);
    assert_eq!(out[0], 2 * 536756224);
    for k in 1..64 {
        assert_eq!(out[k], 0);
    }
}

#[test]
fn dct_dc_tracks_mean_sign() {
    let block = vec![0u8; 64];
    let out = dct_block(&block);
    assert_eq!(out[0], -128 * 536756224);
}

#[test]
fn transform_and_quantize_three_planes() {
    let y = vec![vec![130u8; 64], vec![128u8; 64]];
    let cb = vec![vec![128u8; 64]];
    let cr = vec![vec![128u8; 64]];
    let (cy, ccb, ccr) = discrete_cosine_transform(&y, &cb, &cr);
    assert_eq!(cy.len(), 2);
    assert_eq!(cy[0][0], 2 * 536756224);
    assert_eq!(cy[1], vec![0i64; 64]);
    assert_eq!(ccb[0], vec![0i64; 64]);
    assert_eq!(ccr[0], vec![0i64; 64]);
    let luma = luma_quantization_table();
    let chroma = chroma_quantization_table();
    let (qy, qcb, qcr) = quantization(&cy, &ccb, &ccr, &luma, &chroma);
    // DC step 16: round(2 * 7.99875 / 16) = round(0.99984) = 1.
    assert_eq!(qy[0][0], 1);
    assert_eq!(qy[1], vec![0i32; 64]);
    assert_eq!(qcb[0], vec![0i32; 64]);
    assert_eq!(qcr[0], vec![0i32; 64]);
}

#[test]
fn quantize_rounds_half_away_from_zero() {
    const ONE: i64 = 67108864; // 2^26, the fixed-point scale.
    let mut coeffs = vec![0i64; 64];
    coeffs[0] = 10 * ONE;
    coeffs[1] = 5 * ONE + ONE / 2; // 5.5 rounds to 6
    coeffs[2] = -(5 * ONE + ONE / 2); // -5.5 rounds to -6
    coeffs[3] = 11 * ONE; // 11 / step 1
    coeffs[4] = 2 * ONE + ONE / 4; // 2.25 rounds to 2
    let table = vec![1u8; 64];
    let out = quantize_block(&coeffs, &table);
    assert_eq!(out[0], 10);
    assert_eq!(out[1], 6);
    assert_eq!(out[2], -6);
    assert_eq!(out[3], 11);
    assert_eq!(out[4], 2);
    assert_eq!(out[5], 0);
}

#[test]
fn quantize_divides_by_step() {
    const ONE: i64 = 67108864;
    let mut coeffs = vec![0i64; 64];
    coeffs[0] = 11 * ONE;
    let mut table = vec![1u8; 64];
    table[0] = 2; // 11 / 2 = 5.5 rounds to 6
    let out = quantize_block(&coeffs, &table);
    assert_eq!(out[0], 6);
}

#[test]
fn standard_tables_have_expected_entries() {
    let luma = luma_quantization_table();
    let chroma = chroma_quantization_table();
    assert_eq!(luma.len(), 64);
    assert_eq!(chroma.len(), 64);
    assert_eq!(luma[0], 16);
    assert_eq!(luma[1], 11);
    assert_eq!(luma[63], 99);
    assert_eq!(chroma[0], 17);
    assert_eq!(chroma[63], 99);
    assert!(luma.iter().all(|&s| s >= 1));
    assert!(chroma.iter().all(|&s| s >= 1));
}

#[test]
fn quality_fifty_keeps_base_table() {
    let luma = luma_quantization_table();
    let scaled = scale_quantization_table(&luma, 50);
    assert_eq!(scaled, luma);
}

#[test]
fn quality_extremes_clamp_steps() {
    let luma = luma_quantization_table();
    let finest = scale_quantization_table(&luma, 100);
    assert!(finest.iter().all(|&s| s == 1));
    let coarsest = scale_quantization_table(&luma, 1);
    assert!(coarsest.iter().all(|&s| s == 255));
}

#[test]
fn zigzag_starts_along_first_antidiagonal() {
    let block: Vec<i32> = (0..64).collect();
    let scanned = zigzag_scan(&block);
    // The standard order begins (0,0), (0,1), (1,0), (2,0), (1,1), (0,2), ...
    assert_eq!(&scanned[0..10], &[0, 1, 8, 16, 9, 2, 3, 10, 17, 24]);
    assert_eq!(scanned[63], 63);
}

#[test]
fn zigzag_roundtrip_is_identity() {
    let block: Vec<i32> = (0..64).map(|i| (i * 31 - 700) as i32).collect();
    let scanned = zigzag_scan(&block);
    let restored = zigzag_unscan(&scanned);
    assert_eq!(restored, block);
}

#[test]
fn rle_collapses_runs_and_keeps_final_run() {
    let values = vec![1, 1, 2, 0, 4, 0, 0];
    let pairs = run_length_encode(&values);
    let expected = vec![
        RleSymbol { value: 1, run: 2 },
        RleSymbol { value: 2, run: 1 },
        RleSymbol { value: 0, run: 1 },
        RleSymbol { value: 4, run: 1 },
        RleSymbol { value: 0, run: 2 },
    ];
    assert_eq!(pairs, expected);
}

#[test]
fn rle_single_value_still_emitted() {
    let values = vec![9];
    let pairs = run_length_encode(&values);
    assert_eq!(pairs, vec![RleSymbol { value: 9, run: 1 }]);
}

#[test]
fn rle_roundtrip_restores_sequence() {
    let values = vec![5, 5, 5, -1, 0, 0, 0, 0, 3];
    let pairs = run_length_encode(&values);
    let back = run_length_decode(&pairs);
    assert_eq!(back, values);
}

#[test]
fn rle_all_equal_is_one_pair() {
    let values = vec![0; 64];
    let pairs = run_length_encode(&values);
    assert_eq!(pairs, vec![RleSymbol { value: 0, run: 64 }]);
}
