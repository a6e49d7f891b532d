//! Two self-contained data-compression codecs, verified end to end:
//!
//! * a block-transform codec that chains the Burrows-Wheeler transform,
//!   move-to-front coding, run-length encoding and Huffman coding, block by
//!   block, into a small archive format; and
//! * a context-model arithmetic codec that drives an adaptive order-3 byte
//!   model through a 64-bit-precision arithmetic coder.
//!
//! Every transform carries a contract that pins its output down exactly, and
//! the codec laws are proved as lemmas alongside the code: the involutions of
//! the Burrows-Wheeler, move-to-front and run-length transforms, the
//! prefix-freeness of every Huffman code table, the full round-trip identity
//! of the block-transform codec (`block::lemma_block_round_trip`), the
//! determinism of the arithmetic coder, and that a compressed arithmetic
//! stream always reopens to its original length.

pub mod error;
pub mod lock;
pub mod mtf;
pub mod rle;
pub mod bwt;
pub mod bwt_inverse;
pub mod bits;
pub mod huffman;
pub mod block;
pub mod model;
pub mod arith;
pub mod paq;
