//! Verified implementations of common data structures and algorithms,
//! centred on a lossless image codec with a machine-checked proof that
//! decoding inverts encoding.

pub mod arrays;
pub mod distances;
pub mod graphs;
pub mod permutation;
pub mod qoi;
pub mod randomness;
pub mod sorts;
pub mod strings;
pub mod trees;
