//! An ordered in-memory map kept as a height-balanced binary search tree.
//!
//! Keys and values are [`OrderedValue`]s: numbers or texts under one total
//! order. An [`AVLTree`] stands, in contracts, for a map from keys to
//! values; `model` holds what the operations mean on such a map, `laws`
//! what follows from that, and `render` the textual form of a listing.

mod insert;
pub mod laws;
pub mod model;
mod node;
mod remove;
pub mod render;
mod rotate;
mod search;
pub mod tree;
pub mod value;

pub use tree::AVLTree;
pub use value::OrderedValue;
