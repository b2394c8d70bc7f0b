//! Lossless compression of byte buffers with two independent codecs, a
//! Huffman entropy coder and an LZSS dictionary coder, built on a shared
//! bit-granular stream layer.

pub mod error;
pub mod bits;
pub mod bitreader;
pub mod bitwriter;
pub mod heap;
pub mod map;
pub mod node;
pub mod tree;
pub mod forest;
pub mod huffman;
pub mod window;
pub mod lzss;
pub mod fnv;
