//! Codec for the binary replay container format of a rhythm game.
//!
//! The crate decodes a raw byte buffer into a structured [`replay::Replay`]
//! record and encodes such a record back into bytes.  The container mixes
//! fixed-width little-endian integers, a length-prefixed string encoding, an
//! LZMA-compressed delimited text stream of input frames, and a small
//! pipe-delimited "life bar" format.  Reading and writing files is left to
//! the caller: the codec works on in-memory buffers only.

pub mod decimal;
pub mod error;
pub mod fileext;
pub mod lifebar;
pub mod lzma;
pub mod numtext;
pub mod reader;
pub mod replay;
pub mod replay_data;
pub mod split;
pub mod timeconv;
pub mod types;
