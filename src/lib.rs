//! A lossless codec for a byte-oriented raster-image format: a buffer of 8-bit
//! pixels with three or four channels is written as a 14-byte header, a stream
//! of chunks and an 8-byte end marker, and read back bit for bit.
pub mod chunk;
pub mod decoder;
pub mod encoder;
pub mod header;
pub mod history;
pub mod laws;
pub mod pixel;

pub use decoder::{decode, DecodeError, Image};
pub use encoder::encode;
pub use pixel::{add, index_position, lte, sub};
