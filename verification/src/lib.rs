//! Two small verified exercises: an in-place comparison sort and a lazy,
//! zero-copy splitter of string slices with pluggable delimiter strategies.

pub mod sorting_algos;
pub mod str_split;
