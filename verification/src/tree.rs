//! Search trees.

pub mod bst;
pub mod laws;
pub mod shape;
pub mod treap;
