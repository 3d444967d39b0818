//! Gorilla time-series compression.
//!
//! A verified implementation of the compression scheme from Facebook's
//! Gorilla time-series database (Pelkonen et al., VLDB 2015): timestamps are
//! stored as variable-length delta-of-delta codewords, and values as
//! XOR-compressed IEEE-754 bit patterns with a shared leading/trailing-zero
//! window. A point's value travels as its raw 64-bit pattern (`to_bits`
//! form), so every pattern — including NaN payloads and signed zeros —
//! round-trips exactly.

pub mod bits;
pub mod bitbuffer;
pub mod wire;
pub mod encoder;
pub mod decoder;
pub mod laws;

pub use bitbuffer::BitBuffer;
pub use bitbuffer::BitReader;
pub use bitbuffer::BufferFull;
pub use decoder::DecodeError;
pub use decoder::Decoder;
pub use decoder::DecoderIter;
pub use encoder::CompressedBlock;
pub use encoder::DataPoint;
pub use encoder::Encoder;
