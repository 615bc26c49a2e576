//! The ways an operation on tensors can be refused.

use vstd::prelude::*;

verus! {

/// Why an operation was refused. Every failure is detected before any
/// result is produced.
#[derive(Debug, Clone, Copy, PartialEq, Eq, Structural)]
pub enum TensorError {
    /// The shapes handed to an operation do not fit together.
    ShapeMismatch,
    /// A shape cannot be expanded to the requested one.
    NotBroadcastable,
    /// An index lies beyond the dimension it addresses.
    IndexOutOfBounds,
    /// Flat access was asked of a strided or shifted view.
    NotContiguous,
    /// Division by a scalar that is zero.
    DivisionByZero,
    /// Differentiation was started at a tensor that does not track gradients.
    NoGradientPath,
    /// The operation has no derivative rule.
    GradientNotImplemented,
}

} // verus!
