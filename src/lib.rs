//! Discrete core of a Barnes–Hut N-body engine: octant indexing and an
//! octree over per-body octant routes, with the membership invariant that
//! every node holds exactly the bodies whose route passes through it.
//! Floating-point geometry and physics stay with the caller.

pub mod boundary;
pub mod octant;
pub mod tree;
