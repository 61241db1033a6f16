//! A verified baseline JPEG still-image encoder pipeline.
//!
//! The pipeline takes a decoded raster image (RGB samples, in memory) and
//! produces, per color plane, an entropy-coded representation: colorspace
//! conversion, 4:2:0 chroma subsampling, 8x8 block decomposition, a forward
//! discrete cosine transform in exact fixed-point arithmetic, quantization,
//! zigzag serialization, run-length encoding, and Huffman coding.
//!
//! Container framing and file I/O are out of scope: callers hand in plain
//! sample grids and receive plain encoded data back.

pub mod blocks;
pub mod color;
pub mod dct;
pub mod encoder;
pub mod errors;
pub mod huffman;
pub mod quant;
pub mod rle;
pub mod subsample;
pub mod zigzag;

pub use encoder::encode_image;
pub use encoder::EncodedImage;
pub use errors::EncodeError;
