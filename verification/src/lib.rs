//! In-memory data structures with verified contracts.
//!
//! The centrepiece is a fixed-capacity least-recently-used cache built from a
//! hash index and an arena-backed recency list that are kept in one-to-one
//! correspondence.  Around it stand a handful of smaller container exercises:
//! linked lists, search trees and tries.

pub mod binary;
pub mod doubly;
pub mod lending_iter_tree;
pub mod linear;
pub mod lru;
pub mod tenary;
mod text;
pub mod tries;
