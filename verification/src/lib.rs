//! A verified streaming codec for the QOI ("Quite OK Image") lossless image
//! format: pixels plus a header are encoded into a QOI byte stream, and a QOI
//! byte stream is decoded back into the header and the pixel sequence.
//!
//! The layout follows the data: [`pixel`] holds pixels, the pixel hash and
//! the rolling coder state; [`chunk`] the six chunk kinds and their byte
//! forms; [`header`] the 14-byte file header; [`encode`] and [`decode`] the
//! pull-based transformers in both directions; [`raster`] the expansion of
//! raw raster bytes into pixels; and [`laws`] the proofs that tie them
//! together, up to the round-trip theorem that decoding an encoded stream
//! returns exactly the header and pixels it came from.

pub mod chunk;
pub mod decode;
pub mod encode;
pub mod header;
pub mod laws;
pub mod pixel;
pub mod raster;

pub use chunk::ChunkBuf;
pub use chunk::QoiChunk;
pub use decode::decode;
pub use decode::load;
pub use decode::QoiChunkDecoder;
pub use decode::QoiDecoder;
pub use encode::encode;
pub use encode::encode_to_chunks;
pub use encode::QoiChunkEncoder;
pub use encode::QoiEncoder;
pub use header::QoiChannels;
pub use header::QoiColorSpace;
pub use header::QoiHeader;
pub use pixel::CoderState;
pub use pixel::Pixel;
