//! A lossless image codec: a fixed 14-byte header followed by a stream of
//! variable-length opcodes describing pixel transitions, closed by an 8-byte
//! trailer. Encoding and decoding are verified against one spec-level state
//! machine, and decoding is proved to invert encoding.

pub mod decode;
pub mod encode;
pub mod header;
pub mod laws;
pub mod model;
pub mod pixel;
