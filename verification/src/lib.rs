//! A disjoint-set (union-find) forest.
//!
//! Elements live in an arena ([`forest::Forest`]) and are addressed by stable
//! integer indices, so a node's `parent` link is an index that stays valid for
//! the whole life of the forest.  The two classic operations are provided:
//! `find` (with path compression) and `union` (by rank, first argument's root
//! surviving a tie).  The module [`model`] holds the mathematical model the
//! contracts are stated over, and the proved laws of the structure.

pub mod forest;
pub mod model;

pub use forest::Forest;
pub use forest::Repr;
