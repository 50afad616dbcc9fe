//! Ordered collections over integer keys, with machine-checked contracts.

pub mod heap;
pub mod laws;
pub mod node;
pub mod sizing;
pub mod tree;
pub mod walker;

pub use heap::BinomialHeap;
pub use node::{Node, Siblings};
pub use tree::VanEmdeBoas;
pub use walker::VanEmdeBoasWalker;
