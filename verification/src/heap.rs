//! Heaps.

pub mod binary_heap;
pub mod layout;
