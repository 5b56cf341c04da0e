//! Chtholly tree: an ordered run-length container over a dense integer index
//! space, with range assignment, range addition, order statistics and power
//! sums.

mod arith;
pub mod model;
mod node;
pub mod theorems;
mod tree;

pub use model::Run;
pub use node::ChthollyNode;
pub use tree::ChthollyTree;
