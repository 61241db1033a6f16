//! The full forward pipeline: from an in-memory RGB sample grid to the
//! entropy-coded representation of its three color planes.
//!
//! Stages run strictly forward, each consuming the full output of the
//! previous one: colorspace conversion, 4:2:0 chroma subsampling, 8x8
//! block splitting with edge replication, the fixed-point forward DCT,
//! quantization against quality-scaled step tables, zigzag serialization,
//! run-length encoding and per-plane Huffman coding. The result carries
//! everything a container writer needs: the encoded planes, the image
//! dimensions and the quantization tables used.

use vstd::prelude::*;
use crate::blocks::block_count;
use crate::blocks::block_sample;
use crate::blocks::is_block_decomposition;
use crate::blocks::split_into_blocks;
use crate::color::colorspace_conversion;
use crate::color::ycbcr_of;
use crate::dct::dct_coeff;
use crate::dct::dct_plane;
use crate::errors::EncodeError;
use crate::huffman::EncodedPlane;
use crate::huffman::encode_plane;
use crate::huffman::valid_encoded_plane;
use crate::quant::chroma_base_step;
use crate::quant::chroma_quantization_table;
use crate::quant::luma_base_step;
use crate::quant::luma_quantization_table;
use crate::quant::quantized_value;
use crate::quant::scale_quantization_table;
use crate::quant::scaled_step;
use crate::quant::quantize_plane;
use crate::subsample::half_up;
use crate::subsample::subsample_at;
use crate::subsample::subsample_plane;

verus! {

/// The luma plane of a pixel grid after colorspace conversion.
pub open spec fn luma_plane_spec(px: Seq<(u8, u8, u8)>) -> Seq<u8> {
    px.map_values(|p: (u8, u8, u8)| ycbcr_of(p).0)
}

/// The full-resolution blue-difference plane after colorspace conversion.
pub open spec fn cb_plane_spec(px: Seq<(u8, u8, u8)>) -> Seq<u8> {
    px.map_values(|p: (u8, u8, u8)| ycbcr_of(p).1)
}

/// The full-resolution red-difference plane after colorspace conversion.
pub open spec fn cr_plane_spec(px: Seq<(u8, u8, u8)>) -> Seq<u8> {
    px.map_values(|p: (u8, u8, u8)| ycbcr_of(p).2)
}

/// A plane subsampled 2x2 to `ceil(w/2) x ceil(h/2)`, row-major.
pub open spec fn subsampled_spec(p: Seq<u8>, w: int, h: int) -> Seq<u8> {
    Seq::new(
        (half_up(h) * half_up(w)) as nat,
        |t: int| subsample_at(p, w, h, t / half_up(w), t % half_up(w)) as u8,
    )
}

/// The 8x8 block decomposition of a plane, row-major blocks of row-major
/// samples.
pub open spec fn plane_blocks_spec(p: Seq<u8>, w: int, h: int) -> Seq<Seq<u8>> {
    Seq::new(
        block_count(w, h) as nat,
        |b: int| Seq::new(64, |t: int| block_sample(p, w, h, b, t / 8, t % 8)),
    )
}

/// Each sample block transformed and quantized: the rounded quotient of
/// every scaled DCT coefficient by its quantization step.
pub open spec fn quantized_blocks_spec(sample_blocks: Seq<Seq<u8>>, table: Seq<u8>) -> Seq<
    Seq<i32>,
> {
    Seq::new(
        sample_blocks.len(),
        |b: int|
            Seq::new(
                64,
                |k: int|
                    quantized_value(
                        dct_coeff(sample_blocks[b], k / 8, k % 8),
                        table[k] as int,
                    ) as i32,
            ),
    )
}

/// A base step table rescaled for a quality setting.
pub open spec fn scaled_table_spec(base: spec_fn(int) -> int, q: int) -> Seq<u8> {
    Seq::new(64, |k: int| scaled_step(base(k), q) as u8)
}

/// The encoder's complete output: per color plane the ordered encoded
/// blocks with their Huffman code, plus the image dimensions and the
/// quantization tables used -- sufficient to assemble a bitstream without
/// further access to encoder state.
pub struct EncodedImage {
    pub width: usize,
    pub height: usize,
    pub luma_table: Vec<u8>,
    pub chroma_table: Vec<u8>,
    pub y: EncodedPlane,
    pub cb: EncodedPlane,
    pub cr: EncodedPlane,
}

/// Splits a converted pixel grid into its three channel planes, in the
/// pixel order of the input.
pub fn extract_planes(ycbcr: &Vec<(u8, u8, u8)>) -> (out: (Vec<u8>, Vec<u8>, Vec<u8>))
    ensures
        out.0@.len() == ycbcr@.len(),
        out.1@.len() == ycbcr@.len(),
        out.2@.len() == ycbcr@.len(),
        forall|k: int|
            0 <= k < ycbcr@.len()
                ==> out.0@[k] == (#[trigger] ycbcr@[k]).0 && out.1@[k] == ycbcr@[k].1
                    && out.2@[k] == ycbcr@[k].2,
{
    let n = ycbcr.len();
    let mut py: Vec<u8> = Vec::new();
    let mut pcb: Vec<u8> = Vec::new();
    let mut pcr: Vec<u8> = Vec::new();
    for k in 0..n
        invariant
            n == ycbcr@.len(),
            py@.len() == k,
            pcb@.len() == k,
            pcr@.len() == k,
            forall|j: int|
                0 <= j < k
                    ==> py@[j] == (#[trigger] ycbcr@[j]).0 && pcb@[j] == ycbcr@[j].1
                        && pcr@[j] == ycbcr@[j].2,
    {
        let (y, cb, cr) = ycbcr[k];
        py.push(y);
        pcb.push(cb);
        pcr.push(cr);
    }
    (py, pcb, pcr)
}

/// Quantizes and entropy-codes the blocks of one plane against one step
/// table.
fn encode_sample_blocks(blocks: &Vec<Vec<u8>>, table: &Vec<u8>) -> (r: EncodedPlane)
    requires
        table@.len() == 64,
        forall|k: int| 0 <= k < 64 ==> #[trigger] table@[k] >= 1,
        forall|b: int| 0 <= b < blocks@.len() ==> (#[trigger] blocks@[b])@.len() == 64,
    ensures
        valid_encoded_plane(
            r,
            quantized_blocks_spec(blocks@.map_values(|v: Vec<u8>| v@), table@),
        ),
{
    let coeffs = dct_plane(blocks);
    let q = quantize_plane(&coeffs, table);
    let r = encode_plane(&q);
    proof {
        let sb = blocks@.map_values(|v: Vec<u8>| v@);
        assert(q@.map_values(|v: Vec<i32>| v@) =~~= quantized_blocks_spec(sb, table@)) by {
            assert forall|b: int| 0 <= b < q@.len()
                implies q@.map_values(|v: Vec<i32>| v@)[b]
                    =~= quantized_blocks_spec(sb, table@)[b] by {
                assert forall|k: int| 0 <= k < 64
                    implies q@[b]@[k] == quantized_blocks_spec(sb, table@)[b][k] by {
                    assert(coeffs@[b]@[k] == dct_coeff(blocks@[b]@, k / 8, k % 8));
                    assert(sb[b] == blocks@[b]@);
                }
            }
        }
    }
    r
}

/// Encodes an RGB image supplied as a row-major grid of `(r, g, b)`
/// samples. Rejects an empty image before any transform work; on every
/// image with nonzero extent it succeeds and produces, per plane, the
/// decodable entropy coding of the quantized transform of that plane, with
/// the luma plane at full resolution and both chroma planes subsampled
/// 2x2, each quantized against its quality-scaled standard table.
pub fn encode_image(
    pixels: &Vec<(u8, u8, u8)>,
    width: usize,
    height: usize,
    quality: u8,
) -> (r: Result<EncodedImage, EncodeError>)
    requires
        pixels@.len() == width * height,
        1 <= quality <= 100,
    ensures
        r is Err <==> width == 0 || height == 0,
        r is Err ==> r->Err_0 == EncodeError::InvalidDimensions,
        r is Ok ==> {
            let img = r->Ok_0;
            let w = width as int;
            let h = height as int;
            &&& img.width == width
            &&& img.height == height
            &&& img.luma_table@ == scaled_table_spec(|k: int| luma_base_step(k), quality as int)
            &&& img.chroma_table@ == scaled_table_spec(
                |k: int| chroma_base_step(k),
                quality as int,
            )
            &&& valid_encoded_plane(
                img.y,
                quantized_blocks_spec(
                    plane_blocks_spec(luma_plane_spec(pixels@), w, h),
                    img.luma_table@,
                ),
            )
            &&& valid_encoded_plane(
                img.cb,
                quantized_blocks_spec(
                    plane_blocks_spec(
                        subsampled_spec(cb_plane_spec(pixels@), w, h),
                        half_up(w),
                        half_up(h),
                    ),
                    img.chroma_table@,
                ),
            )
            &&& valid_encoded_plane(
                img.cr,
                quantized_blocks_spec(
                    plane_blocks_spec(
                        subsampled_spec(cr_plane_spec(pixels@), w, h),
                        half_up(w),
                        half_up(h),
                    ),
                    img.chroma_table@,
                ),
            )
        },
{
    let base_luma = luma_quantization_table();
    let base_chroma = chroma_quantization_table();
    let luma_table = scale_quantization_table(&base_luma, quality);
    let chroma_table = scale_quantization_table(&base_chroma, quality);
    proof {
        assert(luma_table@ =~= scaled_table_spec(|k: int| luma_base_step(k), quality as int));
        assert(chroma_table@ =~= scaled_table_spec(|k: int| chroma_base_step(k), quality as int));
    }
    encode_image_with_tables(pixels, width, height, luma_table, chroma_table)
}

/// Encodes an RGB image against caller-supplied quantization step tables
/// (64 steps each, every step in `[1, 255]`), otherwise exactly as
/// `encode_image`.
pub fn encode_image_with_tables(
    pixels: &Vec<(u8, u8, u8)>,
    width: usize,
    height: usize,
    luma_table: Vec<u8>,
    chroma_table: Vec<u8>,
) -> (r: Result<EncodedImage, EncodeError>)
    requires
        pixels@.len() == width * height,
        luma_table@.len() == 64,
        chroma_table@.len() == 64,
        forall|k: int| 0 <= k < 64 ==> #[trigger] luma_table@[k] >= 1,
        forall|k: int| 0 <= k < 64 ==> #[trigger] chroma_table@[k] >= 1,
    ensures
        r is Err <==> width == 0 || height == 0,
        r is Err ==> r->Err_0 == EncodeError::InvalidDimensions,
        r is Ok ==> {
            let img = r->Ok_0;
            let w = width as int;
            let h = height as int;
            &&& img.width == width
            &&& img.height == height
            &&& img.luma_table@ == luma_table@
            &&& img.chroma_table@ == chroma_table@
            &&& valid_encoded_plane(
                img.y,
                quantized_blocks_spec(
                    plane_blocks_spec(luma_plane_spec(pixels@), w, h),
                    luma_table@,
                ),
            )
            &&& valid_encoded_plane(
                img.cb,
                quantized_blocks_spec(
                    plane_blocks_spec(
                        subsampled_spec(cb_plane_spec(pixels@), w, h),
                        half_up(w),
                        half_up(h),
                    ),
                    chroma_table@,
                ),
            )
            &&& valid_encoded_plane(
                img.cr,
                quantized_blocks_spec(
                    plane_blocks_spec(
                        subsampled_spec(cr_plane_spec(pixels@), w, h),
                        half_up(w),
                        half_up(h),
                    ),
                    chroma_table@,
                ),
            )
        },
{
    if width == 0 || height == 0 {
        return Err(EncodeError::InvalidDimensions);
    }
    let ycbcr = colorspace_conversion(pixels);
    let (py, pcb, pcr) = extract_planes(&ycbcr);
    proof {
        assert(py@ =~= luma_plane_spec(pixels@));
        assert(pcb@ =~= cb_plane_spec(pixels@));
        assert(pcr@ =~= cr_plane_spec(pixels@));
    }

    let cw = width / 2 + width % 2;
    let ch = height / 2 + height % 2;
    let scb = subsample_plane(&pcb, width, height);
    let scr = subsample_plane(&pcr, width, height);
    proof {
        lemma_subsampled_view(scb@, pcb@, width as int, height as int);
        lemma_subsampled_view(scr@, pcr@, width as int, height as int);
        assert(cw == half_up(width as int) && ch == half_up(height as int));
    }

    let yblocks = split_into_blocks(&py, width, height);
    let cbblocks = split_into_blocks(&scb, cw, ch);
    let crblocks = split_into_blocks(&scr, cw, ch);
    proof {
        lemma_blocks_view(yblocks@, py@, width as int, height as int);
        lemma_blocks_view(cbblocks@, scb@, cw as int, ch as int);
        lemma_blocks_view(crblocks@, scr@, cw as int, ch as int);
        assert(forall|b: int|
            0 <= b < yblocks@.len()
                ==> (#[trigger] yblocks@[b])@ == yblocks@.map_values(|v: Vec<u8>| v@)[b]);
        assert(forall|b: int|
            0 <= b < cbblocks@.len()
                ==> (#[trigger] cbblocks@[b])@ == cbblocks@.map_values(|v: Vec<u8>| v@)[b]);
        assert(forall|b: int|
            0 <= b < crblocks@.len()
                ==> (#[trigger] crblocks@[b])@ == crblocks@.map_values(|v: Vec<u8>| v@)[b]);
    }

    let ey = encode_sample_blocks(&yblocks, &luma_table);
    let ecb = encode_sample_blocks(&cbblocks, &chroma_table);
    let ecr = encode_sample_blocks(&crblocks, &chroma_table);

    Ok(
        EncodedImage {
            width,
            height,
            luma_table,
            chroma_table,
            y: ey,
            cb: ecb,
            cr: ecr,
        },
    )
}

/// The subsampler's pointwise contract names exactly the row-major
/// subsampled plane.
proof fn lemma_subsampled_view(out: Seq<u8>, p: Seq<u8>, w: int, h: int)
    requires
        w >= 1,
        h >= 1,
        out.len() == half_up(w) * half_up(h),
        forall|i: int, j: int|
            0 <= i < half_up(h) && 0 <= j < half_up(w)
                ==> #[trigger] out[i * half_up(w) + j] as int == subsample_at(p, w, h, i, j),
    ensures
        out == subsampled_spec(p, w, h),
{
    let cw = half_up(w);
    let ch = half_up(h);
    vstd::arithmetic::mul::lemma_mul_is_commutative(cw, ch);
    assert forall|t: int| 0 <= t < out.len()
        implies out[t] == subsampled_spec(p, w, h)[t] by {
        vstd::arithmetic::div_mod::lemma_fundamental_div_mod(t, cw);
        let i = t / cw;
        let j = t % cw;
        assert(0 <= i < ch) by (nonlinear_arith)
            requires 0 <= t < ch * cw && cw >= 1 && t == i * cw + j && 0 <= j < cw;
        assert(out[i * cw + j] as int == subsample_at(p, w, h, i, j));
    }
    assert(out =~= subsampled_spec(p, w, h));
}

/// The block splitter's pointwise contract names exactly the block
/// decomposition sequence.
proof fn lemma_blocks_view(blocks: Seq<Vec<u8>>, p: Seq<u8>, w: int, h: int)
    requires
        is_block_decomposition(blocks.map_values(|v: Vec<u8>| v@), p, w, h),
    ensures
        blocks.map_values(|v: Vec<u8>| v@) =~~= plane_blocks_spec(p, w, h),
{
    let m = blocks.map_values(|v: Vec<u8>| v@);
    let s = plane_blocks_spec(p, w, h);
    assert forall|b: int| 0 <= b < m.len() implies m[b] =~= s[b] by {
        assert forall|t: int| 0 <= t < 64 implies m[b][t] == s[b][t] by {
            let r = t / 8;
            let c = t % 8;
            assert(m[b][r * 8 + c] == block_sample(p, w, h, b, r, c));
            assert(t == r * 8 + c);
        }
    }
}

} // verus!
