//! Scalar reverse-mode automatic differentiation over an append-only arena of nodes.
//!
//! The arena records the structure of every node (which operation produced it and from
//! which operands); the numeric values and gradients are kept by the caller in vectors
//! indexed by node id. The library proves the parts of reverse-mode differentiation that
//! decide correctness: the topological order of the reachable subgraph and the schedule
//! of gradient contributions derived from it. On top of the engine, `nn` composes nodes
//! into neurons, layers and multi-layer perceptrons.

pub mod engine;
pub mod nn;
