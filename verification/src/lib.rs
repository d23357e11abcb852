//! Streaming Brotli-style decompressor core: a bit reader over a byte
//! sequence with implicit zero padding, canonical Huffman table
//! construction and symbol decoding, dictionary word transforms, and a
//! meta-block decoder for the header, empty and uncompressed block forms.

use vstd::prelude::*;

pub mod bitreader;
pub mod decoder;
pub mod huffman;
pub mod prefix;
pub mod transforms;
pub mod window;

verus! {

/// Errors reported by the decoder.
#[derive(Debug, Clone, Copy, PartialEq, Eq, Structural)]
pub enum BrotliError {
    /// The input is not a valid Brotli data stream.
    InvalidEncoding,

    /// The stream appears to be truncated: the real input ended before the
    /// logical stream did.
    InsufficientData,

    /// A failure of the underlying byte source, reported by the caller that
    /// feeds the decoder its bytes.
    Io,
}

} // verus!
