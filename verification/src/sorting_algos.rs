//! In-place comparison sorting.

pub mod bubblesort;
pub mod order;
pub mod sorter;
