//! A verified splay tree over a fixed arena of index-keyed nodes.
//!
//! Nodes live in a flat arena and are identified by their position, which is
//! also their sort key: the in-order traversal of a well-formed tree is always
//! `0, 1, ..., n-1`. The tree is built once with a fixed node count and is
//! afterwards reorganized only by `splay`, which moves a chosen node to the
//! root through zig, zig-zig and zig-zag rotations.

pub mod shape;
pub mod tree;
