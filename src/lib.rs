//! A path-keyed lookup tree: values are attached to sequences of keys, and a
//! lookup returns the value stored at the shortest prefix of the query path.

pub mod laws;
pub mod tree;

pub use tree::Tree;
