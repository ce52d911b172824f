//! Sorting and selection: merge sort and quickselect.

pub mod merge_sort;
pub mod quickselect;
