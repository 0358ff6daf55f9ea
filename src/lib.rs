//! An embedding similarity index: k-dimensional trees over integer
//! coordinates, a compact binary format for them, and a memory-budgeted
//! cache of named trees with least-recently-used eviction.
pub mod point;
pub mod kdtree;
pub mod codec;
pub mod cache;
pub mod storage;
