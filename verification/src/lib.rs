//! Cyclic vertex sequences over a mesh graph: reorientation of a cycle to a
//! chosen directed edge, fusion of two vertex-disjoint cycles at a pair of
//! adjacent boundary edges, and derivation of a cycle's canonical edge set
//! (plain or geometrically filtered) together with its edge-adjacency closure.

pub mod edges;
pub mod rotation;
pub mod tables;
pub mod cycle;
