//! Decoders for compressed image containers: the PNG pixel pipeline with its
//! zlib/DEFLATE stream, and the metadata core of a JPEG reader.

pub mod adam7;
pub mod bits;
pub mod bytes;
pub mod canonical;
pub mod crc;
pub mod error;
pub mod filter;
pub mod huffman;
pub mod jpeg;
pub mod netpbm;
pub mod png;
pub mod prefix;
pub mod zlib;
