//! Content-defined chunking built on a Cartesian tree of scanned chunks.
pub mod arena;
pub mod cart_tree;
pub mod chunk;
pub mod recursive;
pub mod shape;
pub mod window;
