//! Lossless entropy coding: a canonical Huffman coder and an adaptive
//! Golomb-Rice coder, both working on byte streams and bit sequences.

pub mod golomb;
pub mod huffman;
pub mod util;

