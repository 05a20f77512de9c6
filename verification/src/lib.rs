//! Classic data structures and sorting routines, verified with Verus.

pub mod heap;
pub mod order;
pub mod ordered_seq;
pub mod permutation;
pub mod random;
pub mod sort;
pub mod tree;
