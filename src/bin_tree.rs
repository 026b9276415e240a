pub mod order;
pub mod shape;
pub mod node;
pub mod tree;
pub mod search;
pub mod laws;

pub use node::{BinNode, InsertErr, Link, Node};
pub use shape::{Side, Tree};
pub use tree::{BinTree, Iter, NodePos, RawBinTree};
