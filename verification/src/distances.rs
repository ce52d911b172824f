//! String distances.

pub mod levenshtein;
