//! An arena-backed segment tree: point updates and contiguous range sums
//! over a fixed-length sequence, in logarithmic time.
//!
//! Two interchangeable tree representations are provided:
//! - a sparse one whose nodes store explicit child handles
//!   (`SegmentTreeWithRealId`), and
//! - a complete one whose nodes store data only, with parent/child
//!   relationships recovered by integer arithmetic on arena handles
//!   (`SegmentTreeWithEphemeralId`).
//!
//! Both own their nodes through an append-only `Arena` that hands out
//! stable integer handles (`Id`) instead of pointers.

pub mod arena;
pub mod complete_tree;
pub mod laws;
pub mod node_path;
pub mod nodes;
pub mod sparse_tree;
pub mod sums;

pub use arena::{Arena, Id};
