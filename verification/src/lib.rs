//! A polygonal mesh represented as an explicit connectivity graph of
//! vertices, directed half-edges, and faces.
//!
//! The graph is built incrementally through a guarded mutation API that keeps
//! the connectivity invariants intact: every half-edge is keyed by the
//! ordered pair of its endpoint vertices, antiparallel half-edges are linked
//! symmetrically, and every face closes over a cycle of at least three
//! half-edges.

pub mod container;
pub mod cube;
pub mod geometry;
pub mod mesh;
pub mod storage;
