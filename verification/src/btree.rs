//! The B+ tree: leaf and internal nodes, the tagged node type, and the
//! byte-level helpers of the page codec.

pub mod intern;
pub mod leaf;
pub mod node;
pub mod utils;
