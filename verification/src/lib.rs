//! Topology and shape primitives.
//!
//! This crate provides the canonical combinatorial simplex together with its
//! signed boundary operator, the foundation for simplicial complexes and
//! chain-complex constructions built on top of it.

pub mod flow;
pub mod topology;
