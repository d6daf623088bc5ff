//! Reverse-mode automatic differentiation on an append-only arena of nodes,
//! and a small multi-layer perceptron library built on top of it.
//!
//! The arithmetic on node values is abstracted by [`engine::Scalar`]; every
//! structural property of the arena (which node feeds which, in what order
//! gradients are propagated, where a network's parameters live) is proved
//! here for every choice of scalar.

pub mod engine;
pub mod nn;
pub mod text;
pub mod trainer;
