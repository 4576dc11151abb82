//! A point quadtree over the unit square.
//!
//! Positions are fixed-point fractions: a coordinate `v` stands for
//! `v / 2^32`, so the unit square is the set of pairs below `2^32` on both
//! axes. The tree stores positioned items, at most a configured capacity per
//! leaf; a leaf that reaches its capacity short of the configured maximum
//! depth subdivides into four quadrant children and redistributes its items,
//! while a leaf at the maximum depth grows without bound.
//!
//! The verified contracts tie every tree to `model::tree_of`, the canonical
//! tree of its insertion history: what the structure holds, that every item
//! lies in its leaf's square, the capacity bound, and the determinism of
//! quadrant assignment are all proved from that single characterization.

pub mod model;
pub mod position;
pub mod tree;
