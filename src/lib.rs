//! An order-statistics tree: an unbalanced binary search tree whose nodes
//! record the size of their subtree, so that values can be read and removed
//! by their rank in sorted order, and the line-oriented record format that
//! feeds it.

pub mod laws;
pub mod order;
pub mod records;
pub mod tree;

pub use order::TotalOrder;
pub use tree::{Container, OrderStatisticTree};
