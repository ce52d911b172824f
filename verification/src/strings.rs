//! String utilities: a copy-on-write wrapper and substring search.

pub mod copy_on_write;
pub mod rabin_karp;
