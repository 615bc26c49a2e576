//! Reverse-mode automatic differentiation over small N-dimensional arrays.
//!
//! A [`tensor::Tensor`] is a strided view of a shared flat buffer. A
//! [`graph::Graph`] records the operations applied to tensors and runs
//! the backward pass that hands gradients from a result to everything it
//! was computed from.
//!
//! The crate is generic in the element type. Every arithmetic step on
//! elements is a function value handed in by the caller; the library
//! decides shapes, strides, which elements meet, what is remembered for
//! the backward pass and in which order gradients flow, and states all
//! of that in its contracts.

pub mod error;
pub mod shape;
pub mod index;
pub mod tensor;
pub mod elementwise;
pub mod view;
pub mod reduce;
pub mod matmul;
pub mod grad_fn;
pub mod graph;
pub mod topo;
pub mod ops;
pub mod backward;
pub mod nn;
pub mod stopper;
