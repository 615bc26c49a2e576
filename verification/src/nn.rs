//! Activation layers applied to a node of the graph.

use vstd::prelude::*;
use crate::error::TensorError;
use crate::graph::Graph;
use crate::ops::all_axes;
use crate::reduce::kept_shape;
use crate::shape::{broadcast_shape, broadcastable, left_padded};

verus! {

/// The rectifier layer.
pub struct ReLU {}

impl ReLU {
    /// Applies the rectifier `rectify` to node `input`; `step` is its
    /// derivative. Fails with `IndexOutOfBounds` when `input` is no node.
    pub fn forward<T: Copy, F: Fn(T) -> T, D: Fn(T) -> T>(
        &self,
        graph: &mut Graph<T>,
        input: usize,
        rectify: F,
        step: D,
    ) -> (r: Result<usize, TensorError>)
        requires
            old(graph).wf(),
            forall|v: T| rectify.requires((v,)),
            forall|v: T| step.requires((v,)),
        ensures
            input < old(graph).len() ==> r.is_ok(),
            input >= old(graph).len() ==> r == Err::<usize, TensorError>(
                TensorError::IndexOutOfBounds,
            ) && *final(graph) == *old(graph),
            r.is_ok() ==> final(graph).unary_of(old(graph), input, rectify, step, r.unwrap() as int),
    {
        graph.unary(input, rectify, step)
    }
}

/// The logistic layer.
pub struct Sigmoid {}

impl Sigmoid {
    /// Applies the logistic function `logistic` to node `input`; `slope`
    /// is its derivative. Fails with `IndexOutOfBounds` when `input` is
    /// no node.
    pub fn forward<T: Copy, F: Fn(T) -> T, D: Fn(T) -> T>(
        &self,
        graph: &mut Graph<T>,
        input: usize,
        logistic: F,
        slope: D,
    ) -> (r: Result<usize, TensorError>)
        requires
            old(graph).wf(),
            forall|v: T| logistic.requires((v,)),
            forall|v: T| slope.requires((v,)),
        ensures
            input < old(graph).len() ==> r.is_ok(),
            input >= old(graph).len() ==> r == Err::<usize, TensorError>(
                TensorError::IndexOutOfBounds,
            ) && *final(graph) == *old(graph),
            r.is_ok() ==> final(graph).unary_of(
                old(graph),
                input,
                logistic,
                slope,
                r.unwrap() as int,
            ),
    {
        graph.unary(input, logistic, slope)
    }
}

/// A shape broadcasts against what is left of it after all of its
/// dimensions have been reduced, and stays as it is.
pub proof fn lemma_broadcast_against_total(shape: Seq<usize>)
    ensures
        broadcastable(shape, kept_shape(shape, all_axes(shape.len()))),
        broadcast_shape(shape, kept_shape(shape, all_axes(shape.len()))) == shape,
{
    let total = kept_shape(shape, all_axes(shape.len()));
    assert(left_padded(shape, shape.len()) =~= shape);
    assert(left_padded(total, shape.len()) =~= total);
    assert(broadcast_shape(shape, total) =~= shape);
}

impl<T: Copy> Graph<T> {
    /// Node `id` of `self` is the softmax of node `x` of `before`, built
    /// from three operations added one after the other: `grow` applied
    /// to every element, the sum of the grown elements, and each grown
    /// element divided by that sum.
    pub open spec fn softmax_of<
        E: Fn(T) -> T,
        D: Fn(T) -> T,
        P: Fn(T, T) -> T,
        Q: Fn(T, T) -> T,
        Qa: Fn(T, T) -> T,
        Qb: Fn(T, T) -> T,
    >(
        &self,
        before: &Graph<T>,
        x: usize,
        grow: E,
        grow_slope: D,
        zero: T,
        plus: P,
        divide: Q,
        divide_da: Qa,
        divide_db: Qb,
        id: int,
    ) -> bool {
        &&& id == before.len() + 2
        &&& exists|first: Graph<T>, second: Graph<T>, grown: usize, total: usize| #[trigger]
            self.softmax_steps(
                before,
                x,
                grow,
                grow_slope,
                zero,
                plus,
                divide,
                divide_da,
                divide_db,
                id,
                &first,
                &second,
                grown,
                total,
            )
    }

    /// The three steps behind `softmax_of`: `first` is `before` with the
    /// grown elements added as node `grown`, `second` is `first` with
    /// their sum added as node `total`, and `self` is `second` with the
    /// quotients added as node `id`.
    pub open spec fn softmax_steps<
        E: Fn(T) -> T,
        D: Fn(T) -> T,
        P: Fn(T, T) -> T,
        Q: Fn(T, T) -> T,
        Qa: Fn(T, T) -> T,
        Qb: Fn(T, T) -> T,
    >(
        &self,
        before: &Graph<T>,
        x: usize,
        grow: E,
        grow_slope: D,
        zero: T,
        plus: P,
        divide: Q,
        divide_da: Qa,
        divide_db: Qb,
        id: int,
        first: &Graph<T>,
        second: &Graph<T>,
        grown: usize,
        total: usize,
    ) -> bool {
        &&& grown == before.len()
        &&& total == before.len() + 1
        &&& first.unary_of(before, x, grow, grow_slope, grown as int)
        &&& second.sum_of(first, grown, zero, plus, total as int)
        &&& self.binary_of(second, grown, total, divide, divide_da, divide_db, id)
    }
}

/// The softmax layer.
pub struct Softmax {}

impl Softmax {
    /// Adds the softmax of node `input`: every element is grown by
    /// `grow`, the exponential of the element, shifted as the caller
    /// sees fit, and divided by the sum of all grown elements. The
    /// gradient follows from the rules of the three operations.
    /// Fails with `IndexOutOfBounds` when `input` is no node.
    pub fn forward<
        T: Copy,
        E: Fn(T) -> T,
        D: Fn(T) -> T,
        P: Fn(T, T) -> T,
        Q: Fn(T, T) -> T,
        Qa: Fn(T, T) -> T,
        Qb: Fn(T, T) -> T,
    >(
        &self,
        graph: &mut Graph<T>,
        input: usize,
        grow: E,
        grow_slope: D,
        zero: T,
        plus: P,
        divide: Q,
        divide_da: Qa,
        divide_db: Qb,
    ) -> (r: Result<usize, TensorError>)
        requires
            old(graph).wf(),
            forall|v: T| grow.requires((v,)),
            forall|v: T| grow_slope.requires((v,)),
            forall|u: T, v: T| plus.requires((u, v)),
            forall|u: T, v: T| divide.requires((u, v)),
            forall|u: T, v: T| divide_da.requires((u, v)),
            forall|u: T, v: T| divide_db.requires((u, v)),
        ensures
            input < old(graph).len() ==> r.is_ok(),
            input >= old(graph).len() ==> r == Err::<usize, TensorError>(
                TensorError::IndexOutOfBounds,
            ),
            r.is_err() ==> *final(graph) == *old(graph),
            r.is_ok() ==> final(graph).wf() && final(graph).softmax_of(
                old(graph),
                input,
                grow,
                grow_slope,
                zero,
                plus,
                divide,
                divide_da,
                divide_db,
                r.unwrap() as int,
            ),
    {
        let grown = match graph.unary(input, grow, grow_slope) {
            Ok(id) => id,
            Err(e) => {
                return Err(e);
            },
        };
        let ghost first = *graph;
        let total = match graph.sum(grown, zero, plus) {
            Ok(id) => id,
            Err(e) => {
                return Err(e);
            },
        };
        let ghost second = *graph;
        proof {
            assert(second.node_ok(grown as int));
            lemma_broadcast_against_total(second.values@[grown as int].shape@);
            assert(second.values@[grown as int] == first.values@[grown as int]) by {
                assert(second.values@.subrange(0, first.len() as int)[grown as int]
                    == first.values@[grown as int]);
            }
        }
        let out = match graph.binary(grown, total, divide, divide_da, divide_db) {
            Ok(id) => id,
            Err(e) => {
                return Err(e);
            },
        };
        proof {
            assert(graph.softmax_steps(
                old(graph),
                input,
                grow,
                grow_slope,
                zero,
                plus,
                divide,
                divide_da,
                divide_db,
                out as int,
                &first,
                &second,
                grown,
                total,
            ));
        }
        Ok(out)
    }
}

/// The log-softmax layer.
pub struct LogSoftmax {}

impl LogSoftmax {
    /// Adds the logarithm of the softmax of node `input`: the softmax is
    /// built as `Softmax` builds it, and `ln`, with derivative
    /// `ln_slope`, is applied to it. Fails with `IndexOutOfBounds` when
    /// `input` is no node.
    pub fn forward<
        T: Copy,
        E: Fn(T) -> T,
        D: Fn(T) -> T,
        P: Fn(T, T) -> T,
        Q: Fn(T, T) -> T,
        Qa: Fn(T, T) -> T,
        Qb: Fn(T, T) -> T,
        L: Fn(T) -> T,
        Ls: Fn(T) -> T,
    >(
        &self,
        graph: &mut Graph<T>,
        input: usize,
        grow: E,
        grow_slope: D,
        zero: T,
        plus: P,
        divide: Q,
        divide_da: Qa,
        divide_db: Qb,
        ln: L,
        ln_slope: Ls,
    ) -> (r: Result<usize, TensorError>)
        requires
            old(graph).wf(),
            forall|v: T| grow.requires((v,)),
            forall|v: T| grow_slope.requires((v,)),
            forall|u: T, v: T| plus.requires((u, v)),
            forall|u: T, v: T| divide.requires((u, v)),
            forall|u: T, v: T| divide_da.requires((u, v)),
            forall|u: T, v: T| divide_db.requires((u, v)),
            forall|v: T| ln.requires((v,)),
            forall|v: T| ln_slope.requires((v,)),
        ensures
            input < old(graph).len() ==> r.is_ok(),
            input >= old(graph).len() ==> r == Err::<usize, TensorError>(
                TensorError::IndexOutOfBounds,
            ),
            r.is_err() ==> *final(graph) == *old(graph),
            r.is_ok() ==> final(graph).wf() && exists|shares: Graph<T>| #[trigger]
                shares.softmax_of(
                    old(graph),
                    input,
                    grow,
                    grow_slope,
                    zero,
                    plus,
                    divide,
                    divide_da,
                    divide_db,
                    (old(graph).len() + 2) as int,
                ) && final(graph).unary_of(
                    &shares,
                    (old(graph).len() + 2) as usize,
                    ln,
                    ln_slope,
                    r.unwrap() as int,
                ),
    {
        let softmax = Softmax {};
        let shares = match softmax.forward(
            graph,
            input,
            grow,
            grow_slope,
            zero,
            plus,
            divide,
            divide_da,
            divide_db,
        ) {
            Ok(id) => id,
            Err(e) => {
                return Err(e);
            },
        };
        let ghost built = *graph;
        match graph.unary(shares, ln, ln_slope) {
            Ok(id) => {
                proof {
                    assert(built.softmax_of(
                        old(graph),
                        input,
                        grow,
                        grow_slope,
                        zero,
                        plus,
                        divide,
                        divide_da,
                        divide_db,
                        (old(graph).len() + 2) as int,
                    ) && graph.unary_of(&built, shares, ln, ln_slope, id as int));
                }
                Ok(id)
            },
            Err(e) => {
                Err(e)
            },
        }
    }
}

} // verus!
