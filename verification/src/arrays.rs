//! Array algorithms: flag partitioning, even/odd partitioning, shuffling
//! and sampling.

pub mod dutch_national_flag;
pub mod even_odd_array;
pub mod sample;
pub mod shuffle;
