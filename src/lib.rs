//! A sorted multiset kept in an unbalanced binary search tree, with
//! set algebra over trees and a double-ended buffer that carries the
//! tree's ascending output.

pub mod order;
pub mod sorted_seq;
pub mod node;
pub mod iter;
pub mod tree;
