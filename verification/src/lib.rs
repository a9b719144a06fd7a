//! An AVL tree over ordered monoid elements: an ordered, duplicate-free set
//! that also keeps, at every node, the monoid combination of its subtree, so
//! that the combination over any key range can be had without visiting every
//! element.

pub mod balance;
pub mod first;
pub mod ints;
pub mod laws;
pub mod merge;
pub mod model;
pub mod monoid;
pub mod ops;
pub mod outside;
pub mod range;
pub mod text;
pub mod tree;
