//! A scalar reverse-mode automatic-differentiation engine.
//!
//! An expression is built from elementary arithmetic and nonlinear operators
//! on scalar values; one traversal of the recorded computation graph then
//! yields the partial derivative of the expression's output with respect to
//! every input that contributed to it.
//!
//! Nodes live in an arena ([`Graph`]) and are addressed by slot index
//! ([`Value`]); the operand edges of a node always point at earlier slots, so
//! the graph is a DAG by construction. Scalars are the bit patterns of IEEE
//! 754 binary64 numbers (see [`scalar`]).

pub mod backprop;
pub mod fns;
pub mod graph;
pub mod node;
pub mod ops;
pub mod scalar;
pub mod trace;

pub use graph::Graph;
pub use graph::Value;
