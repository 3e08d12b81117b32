//! A persistent ordered map kept as a red-black tree.
//!
//! Every update returns a new map that shares the untouched subtrees with
//! the map it was made from, so earlier versions stay valid. Deletion uses
//! two transient colors, double black and negative black, which carry a
//! displaced unit of black height up the tree until one rebalancing step
//! absorbs it.
//!
//! Keys may be of any type whose comparisons form a total order
//! ([`order::obeys_total_order`]). Keys and values are held behind
//! reference counts, so neither is ever copied when nodes are rebuilt.

pub mod color;
pub mod order;
pub mod node;
pub mod balance;
pub mod insert;
pub mod delete;
pub mod invariants;
pub mod tree;
pub mod laws;

pub use crate::color::Color;
pub use crate::tree::RedBlackTree;
