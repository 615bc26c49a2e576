//! Traced operations: each computes its result from the current values
//! of its operands, adds it to the graph and, when an operand tracks
//! gradients, attaches the derivative rule and the operands to it.

use vstd::prelude::*;
use crate::elementwise::{divided, mapped, source_index, zipped};
use crate::error::TensorError;
use crate::grad_fn::{GradFn, MeanGradFn, SumAxisGradFn, SumGradFn};
use crate::graph::Graph;
use crate::index::{unravel, valid_index};
use crate::matmul::{cols_of, matmul_of, matmul_ok, rows_of};
use crate::reduce::{
    axes_in_rank, axes_mask, block_shape, fold_left_rel, kept_shape, lemma_ones_numel, reduced,
};
use crate::shape::{
    broadcast_shape, broadcastable, dims_compatible, joint_rank, left_padded, lemma_numel_single,
    numel,
};
use crate::tensor::{copy_sizes, Tensor};
use crate::view::{
    broadcast_strides, expandable, gather_ok, lemma_numel_insert, lemma_numel_pair, picked,
    shifted,
};

verus! {

/// Each operand of a broadcast can be expanded to the joint shape.
pub proof fn lemma_expandable_to_joint(a: Seq<usize>, b: Seq<usize>)
    requires
        broadcastable(a, b),
    ensures
        expandable(a, broadcast_shape(a, b)),
        expandable(b, broadcast_shape(a, b)),
{
    let r = joint_rank(a, b);
    let out = broadcast_shape(a, b);
    assert forall|i: int| 0 <= i < out.len() implies {
        let p = #[trigger] left_padded(a, out.len())[i];
        p == out[i] || p == 1
    } by {}
    assert forall|i: int| 0 <= i < out.len() implies {
        let p = #[trigger] left_padded(b, out.len())[i];
        p == out[i] || p == 1
    } by {
        assert(dims_compatible(left_padded(a, r)[i], left_padded(b, r)[i]));
    }
}

/// A shape can be expanded to itself.
pub proof fn lemma_expandable_same(shape: Seq<usize>)
    ensures
        expandable(shape, shape),
{
    assert(left_padded(shape, shape.len()) =~= shape);
}

impl<T: Copy> Graph<T> {
    /// Node `id` carries no history: gradients are not tracked for it and
    /// it has neither rule nor operands.
    pub open spec fn untraced(&self, id: int) -> bool {
        self.is_leaf(id, false)
    }

    /// Node `id` is the fresh result of an operation on `operands` under
    /// rule `rule`: gradients are tracked for it and none has arrived.
    pub open spec fn traced(&self, id: int, operands: Seq<usize>) -> bool {
        &&& self.requires_grad@[id]
        &&& self.grad_fns@[id].is_some()
        &&& self.parents@[id]@ == operands
        &&& self.grads@[id].is_none()
    }

    /// Node `id` of `self` is the result of applying `f` to every element
    /// of node `x` of `before`, with `df` as derivative.
    pub open spec fn unary_of<F: Fn(T) -> T, D: Fn(T) -> T>(
        &self,
        before: &Graph<T>,
        x: usize,
        f: F,
        df: D,
        id: int,
    ) -> bool {
        &&& self.recorded(before, id, seq![x])
        &&& mapped(&before.values@[x as int], f, &self.values@[id])
        &&& (self.requires_grad@[id] ==> {
            &&& self.grad_fns@[id].unwrap() is Scaled
            &&& self.grad_fns@[id].unwrap()->Scaled_0@.len() == 1
            &&& mapped(&before.values@[x as int], df, &self.grad_fns@[id].unwrap()->Scaled_0@[0])
        })
    }

    /// Node `id` of `self` is the result of combining nodes `a` and `b`
    /// of `before` with `f`, with `da` and `db` as partial derivatives.
    pub open spec fn binary_of<F: Fn(T, T) -> T, A: Fn(T, T) -> T, B: Fn(T, T) -> T>(
        &self,
        before: &Graph<T>,
        a: usize,
        b: usize,
        f: F,
        da: A,
        db: B,
        id: int,
    ) -> bool {
        let va = before.values@[a as int];
        let vb = before.values@[b as int];
        &&& self.recorded(before, id, seq![a, b])
        &&& zipped(&va, &vb, f, &self.values@[id])
        &&& (self.requires_grad@[id] ==> {
            &&& self.grad_fns@[id].unwrap() is Scaled
            &&& self.grad_fns@[id].unwrap()->Scaled_0@.len() == 2
            &&& zipped(&va, &vb, da, &self.grad_fns@[id].unwrap()->Scaled_0@[0])
            &&& zipped(&va, &vb, db, &self.grad_fns@[id].unwrap()->Scaled_0@[1])
        })
    }

    /// Node `id` of `self` is the fold of all elements of node `x` of
    /// `before` with `plus`, started at `zero`.
    pub open spec fn sum_of<F: Fn(T, T) -> T>(
        &self,
        before: &Graph<T>,
        x: usize,
        zero: T,
        plus: F,
        id: int,
    ) -> bool {
        let v = before.values@[x as int];
        &&& self.recorded(before, id, seq![x])
        &&& reduced(&v, all_axes(v.shape@.len()), zero, plus, &self.values@[id])
        &&& (self.requires_grad@[id] ==> {
            &&& self.grad_fns@[id].unwrap() is Sum
            &&& self.grad_fns@[id].unwrap()->Sum_0.input_shape@ == v.shape@
        })
    }

    /// Applies `f` to every element of node `x`. When `x` tracks
    /// gradients the result does too, and its rule multiplies an arriving
    /// gradient with the derivative `df` taken at the elements of `x`.
    /// Fails with `IndexOutOfBounds` when `x` is no node.
    pub fn unary<F: Fn(T) -> T, D: Fn(T) -> T>(&mut self, x: usize, f: F, df: D) -> (r: Result<
        usize,
        TensorError,
    >)
        requires
            old(self).wf(),
            forall|v: T| f.requires((v,)),
            forall|v: T| df.requires((v,)),
        ensures
            x < old(self).len() ==> r.is_ok(),
            x >= old(self).len() ==> r == Err::<usize, TensorError>(
                TensorError::IndexOutOfBounds,
            ) && *final(self) == *old(self),
            r.is_ok() ==> final(self).unary_of(old(self), x, f, df, r.unwrap() as int),
    {
        if x >= self.values.len() {
            return Err(TensorError::IndexOutOfBounds);
        }
        proof {
            assert(self.node_ok(x as int));
        }
        let value = self.values[x].map(f);
        if self.requires_grad[x] {
            let factor = self.values[x].map(df);
            let mut factors: Vec<Tensor<T>> = Vec::new();
            factors.push(factor);
            proof {
                lemma_expandable_same(value.shape@);
            }
            Ok(self.record_unary(x, value, GradFn::Scaled(factors)))
        } else {
            Ok(self.record_unary(x, value, GradFn::NotImplemented))
        }
    }

    /// Combines nodes `a` and `b` element by element with `f` under the
    /// broadcasting rule. When an operand tracks gradients the result
    /// does too, and its rule multiplies an arriving gradient with the
    /// partial derivatives `da` and `db`, taken where the operand
    /// elements met. Fails with `IndexOutOfBounds` when an operand is no
    /// node and with `ShapeMismatch` when the shapes cannot be broadcast.
    pub fn binary<F: Fn(T, T) -> T, A: Fn(T, T) -> T, B: Fn(T, T) -> T>(
        &mut self,
        a: usize,
        b: usize,
        f: F,
        da: A,
        db: B,
    ) -> (r: Result<usize, TensorError>)
        requires
            old(self).wf(),
            forall|x: T, y: T| f.requires((x, y)),
            forall|x: T, y: T| da.requires((x, y)),
            forall|x: T, y: T| db.requires((x, y)),
            a < old(self).len() && b < old(self).len() && broadcastable(
                old(self).values@[a as int].shape@,
                old(self).values@[b as int].shape@,
            ) ==> numel(
                broadcast_shape(
                    old(self).values@[a as int].shape@,
                    old(self).values@[b as int].shape@,
                ),
            ) <= usize::MAX,
        ensures
            !(a < old(self).len() && b < old(self).len()) ==> r == Err::<usize, TensorError>(
                TensorError::IndexOutOfBounds,
            ),
            a < old(self).len() && b < old(self).len() && !broadcastable(
                old(self).values@[a as int].shape@,
                old(self).values@[b as int].shape@,
            ) ==> r == Err::<usize, TensorError>(TensorError::ShapeMismatch),
            a < old(self).len() && b < old(self).len() && broadcastable(
                old(self).values@[a as int].shape@,
                old(self).values@[b as int].shape@,
            ) ==> r.is_ok(),
            r.is_err() ==> *final(self) == *old(self),
            r.is_ok() ==> final(self).binary_of(old(self), a, b, f, da, db, r.unwrap() as int),
    {
        if a >= self.values.len() || b >= self.values.len() {
            return Err(TensorError::IndexOutOfBounds);
        }
        proof {
            assert(self.node_ok(a as int));
            assert(self.node_ok(b as int));
        }
        let value = match self.values[a].zip_with(&self.values[b], f) {
            Ok(v) => v,
            Err(e) => {
                return Err(e);
            },
        };
        if self.requires_grad[a] || self.requires_grad[b] {
            let fa = match self.values[a].zip_with(&self.values[b], da) {
                Ok(v) => v,
                Err(e) => {
                    return Err(e);
                },
            };
            let fb = match self.values[a].zip_with(&self.values[b], db) {
                Ok(v) => v,
                Err(e) => {
                    return Err(e);
                },
            };
            let mut factors: Vec<Tensor<T>> = Vec::new();
            factors.push(fa);
            factors.push(fb);
            proof {
                lemma_expandable_to_joint(self.values@[a as int].shape@, self.values@[b as int].shape@);
            }
            Ok(self.record_binary(a, b, value, GradFn::Scaled(factors)))
        } else {
            Ok(self.record_binary(a, b, value, GradFn::NotImplemented))
        }
    }

    /// Adds nodes `a` and `b` under the broadcasting rule: every operand
    /// later receives the gradient of the sum as it is. Fails with
    /// `IndexOutOfBounds` when an operand is no node and with
    /// `ShapeMismatch` when the shapes cannot be broadcast.
    pub fn broadcast_add<F: Fn(T, T) -> T>(&mut self, a: usize, b: usize, plus: F) -> (r: Result<
        usize,
        TensorError,
    >)
        requires
            old(self).wf(),
            forall|x: T, y: T| plus.requires((x, y)),
            a < old(self).len() && b < old(self).len() && broadcastable(
                old(self).values@[a as int].shape@,
                old(self).values@[b as int].shape@,
            ) ==> numel(
                broadcast_shape(
                    old(self).values@[a as int].shape@,
                    old(self).values@[b as int].shape@,
                ),
            ) <= usize::MAX,
        ensures
            !(a < old(self).len() && b < old(self).len()) ==> r == Err::<usize, TensorError>(
                TensorError::IndexOutOfBounds,
            ),
            a < old(self).len() && b < old(self).len() && !broadcastable(
                old(self).values@[a as int].shape@,
                old(self).values@[b as int].shape@,
            ) ==> r == Err::<usize, TensorError>(TensorError::ShapeMismatch),
            a < old(self).len() && b < old(self).len() && broadcastable(
                old(self).values@[a as int].shape@,
                old(self).values@[b as int].shape@,
            ) ==> r.is_ok(),
            r.is_err() ==> *final(self) == *old(self),
            r.is_ok() ==> {
                let id = r.unwrap() as int;
                &&& final(self).recorded(old(self), id, seq![a, b])
                &&& zipped(
                    &old(self).values@[a as int],
                    &old(self).values@[b as int],
                    plus,
                    &final(self).values@[id],
                )
                &&& (final(self).requires_grad@[id] ==> final(self).grad_fns@[id].unwrap() is Add)
            },
    {
        if a >= self.values.len() || b >= self.values.len() {
            return Err(TensorError::IndexOutOfBounds);
        }
        proof {
            assert(self.node_ok(a as int));
            assert(self.node_ok(b as int));
        }
        let value = match self.values[a].zip_with(&self.values[b], plus) {
            Ok(v) => v,
            Err(e) => {
                return Err(e);
            },
        };
        proof {
            lemma_expandable_to_joint(self.values@[a as int].shape@, self.values@[b as int].shape@);
        }
        Ok(self.record_binary(a, b, value, GradFn::Add))
    }

    /// Node `id` was added to `before` as the result of an operation on
    /// `operands`: it follows gradients exactly when one of them does,
    /// and then remembers them; otherwise it carries no history.
    pub open spec fn recorded(&self, before: &Graph<T>, id: int, operands: Seq<usize>) -> bool {
        let follows = exists|k: int|
            0 <= k < operands.len() && before.requires_grad@[#[trigger] operands[k] as int];
        &&& self.wf()
        &&& self.extends(before)
        &&& id == before.len()
        &&& self.requires_grad@[id] == follows
        &&& (!follows ==> self.untraced(id))
        &&& (follows ==> self.traced(id, operands))
    }

    /// Matrix product of nodes `a` and `b`. Fails with
    /// `IndexOutOfBounds` when an operand is no node and with
    /// `ShapeMismatch` when the operands cannot be multiplied.
    pub fn matmul<M: Fn(T, T) -> T + Copy, A: Fn(T, T) -> T + Copy>(
        &mut self,
        a: usize,
        b: usize,
        zero: T,
        times: M,
        plus: A,
    ) -> (r: Result<usize, TensorError>)
        requires
            old(self).wf(),
            forall|x: T, y: T| times.requires((x, y)),
            forall|x: T, y: T| plus.requires((x, y)),
            a < old(self).len() && b < old(self).len() && matmul_ok(
                old(self).values@[a as int].shape@,
                old(self).values@[b as int].shape@,
            ) ==> rows_of(old(self).values@[a as int].shape@) * cols_of(
                old(self).values@[b as int].shape@,
            ) <= usize::MAX,
        ensures
            !(a < old(self).len() && b < old(self).len()) ==> r == Err::<usize, TensorError>(
                TensorError::IndexOutOfBounds,
            ),
            a < old(self).len() && b < old(self).len() && !matmul_ok(
                old(self).values@[a as int].shape@,
                old(self).values@[b as int].shape@,
            ) ==> r == Err::<usize, TensorError>(TensorError::ShapeMismatch),
            a < old(self).len() && b < old(self).len() && matmul_ok(
                old(self).values@[a as int].shape@,
                old(self).values@[b as int].shape@,
            ) ==> r.is_ok(),
            r.is_err() ==> *final(self) == *old(self),
            r.is_ok() ==> {
                let id = r.unwrap() as int;
                let va = old(self).values@[a as int];
                let vb = old(self).values@[b as int];
                &&& final(self).recorded(old(self), id, seq![a, b])
                &&& matmul_of(&va, &vb, zero, times, plus, &final(self).values@[id])
                &&& (final(self).requires_grad@[id] ==> {
                    &&& final(self).grad_fns@[id].unwrap() is MatMul
                    &&& final(self).grad_fns@[id].unwrap()->MatMul_0.elements() == va.elements()
                    &&& final(self).grad_fns@[id].unwrap()->MatMul_0.shape@ == seq![
                        rows_of(va.shape@) as usize,
                        va.shape@.last(),
                    ]
                    &&& final(self).grad_fns@[id].unwrap()->MatMul_1.elements() == vb.elements()
                    &&& final(self).grad_fns@[id].unwrap()->MatMul_1.shape@ == seq![
                        vb.shape@[0],
                        cols_of(vb.shape@) as usize,
                    ]
                })
            },
    {
        if a >= self.values.len() || b >= self.values.len() {
            return Err(TensorError::IndexOutOfBounds);
        }
        proof {
            assert(self.node_ok(a as int));
            assert(self.node_ok(b as int));
        }
        let value = match self.values[a].matmul(&self.values[b], zero, times, plus) {
            Ok(v) => v,
            Err(e) => {
                return Err(e);
            },
        };
        let mut parents: Vec<usize> = Vec::new();
        parents.push(a);
        parents.push(b);
        proof {
            assert(parents@ =~= seq![a, b]);
            assert(parents@[0] == a && parents@[1] == b);
        }
        if self.requires_grad[a] || self.requires_grad[b] {
            let va = &self.values[a];
            let vb = &self.values[b];
            let mut lhs_shape: Vec<usize> = Vec::new();
            if va.shape.len() == 1 {
                lhs_shape.push(1);
                lhs_shape.push(va.shape[0]);
            } else {
                lhs_shape.push(va.shape[0]);
                lhs_shape.push(va.shape[1]);
            }
            let mut rhs_shape: Vec<usize> = Vec::new();
            if vb.shape.len() == 1 {
                rhs_shape.push(vb.shape[0]);
                rhs_shape.push(1);
            } else {
                rhs_shape.push(vb.shape[0]);
                rhs_shape.push(vb.shape[1]);
            }
            proof {
                lemma_numel_pair(lhs_shape@);
                lemma_numel_pair(rhs_shape@);
                if va.shape@.len() == 1 {
                    lemma_numel_single(va.shape@[0]);
                    assert(va.shape@ =~= seq![va.shape@[0]]);
                    assert(1 * (va.shape@[0] as nat) == va.shape@[0]) by (nonlinear_arith);
                } else {
                    lemma_numel_pair(va.shape@);
                }
                if vb.shape@.len() == 1 {
                    lemma_numel_single(vb.shape@[0]);
                    assert(vb.shape@ =~= seq![vb.shape@[0]]);
                    assert((vb.shape@[0] as nat) * 1 == vb.shape@[0]) by (nonlinear_arith);
                } else {
                    lemma_numel_pair(vb.shape@);
                }
            }
            let lhs = match va.reshape(lhs_shape.as_slice()) {
                Ok(t) => t,
                Err(e) => {
                    return Err(e);
                },
            };
            let rhs = match vb.reshape(rhs_shape.as_slice()) {
                Ok(t) => t,
                Err(e) => {
                    return Err(e);
                },
            };
            proof {
                assert(lhs.shape@ =~= seq![rows_of(va.shape@) as usize, va.shape@.last()]);
                assert(rhs.shape@ =~= seq![vb.shape@[0], cols_of(vb.shape@) as usize]);
                assert(self.requires_grad@[parents@[0] as int] || self.requires_grad@[parents@[1] as int]);
            }
            Ok(self.push_node(value, true, Some(GradFn::MatMul(lhs, rhs)), parents))
        } else {
            proof {
                assert(!(exists|k: int|
                    0 <= k < parents@.len() && self.requires_grad@[#[trigger] parents@[k] as int]));
            }
            Ok(self.push_node(value, false, None, Vec::new()))
        }
    }

    /// Transposes the matrix in node `x`. Fails with `IndexOutOfBounds`
    /// when `x` is no node and with `ShapeMismatch` when its value is
    /// not two-dimensional.
    pub fn transpose(&mut self, x: usize) -> (r: Result<usize, TensorError>)
        requires
            old(self).wf(),
        ensures
            x >= old(self).len() ==> r == Err::<usize, TensorError>(TensorError::IndexOutOfBounds),
            x < old(self).len() && old(self).values@[x as int].shape@.len() != 2 ==> r == Err::<
                usize,
                TensorError,
            >(TensorError::ShapeMismatch),
            x < old(self).len() && old(self).values@[x as int].shape@.len() == 2 ==> r.is_ok(),
            r.is_err() ==> *final(self) == *old(self),
            r.is_ok() ==> {
                let id = r.unwrap() as int;
                let v = old(self).values@[x as int];
                let t = final(self).values@[id];
                &&& final(self).recorded(old(self), id, seq![x])
                &&& t.shape@ == seq![v.shape@[1], v.shape@[0]]
                &&& forall|idx: Seq<usize>| #[trigger]
                    valid_index(idx, t.shape@) ==> t.at(idx) == v.at(
                        seq![idx[1], idx[0]],
                    )
                &&& (final(self).requires_grad@[id] ==> final(self).grad_fns@[id].unwrap() is Transpose)
            },
    {
        if x >= self.values.len() {
            return Err(TensorError::IndexOutOfBounds);
        }
        proof {
            assert(self.node_ok(x as int));
        }
        let value = match self.values[x].transpose() {
            Ok(v) => v,
            Err(e) => {
                return Err(e);
            },
        };
        let mut parents: Vec<usize> = Vec::new();
        parents.push(x);
        proof {
            assert(parents@ =~= seq![x]);
            assert(parents@[0] == x);
        }
        if self.requires_grad[x] {
            proof {
                assert(self.requires_grad@[parents@[0] as int]);
            }
            Ok(self.push_node(value, true, Some(GradFn::Transpose), parents))
        } else {
            Ok(self.push_node(value, false, None, Vec::new()))
        }
    }

    /// Gives the elements of node `x` another shape. Fails with
    /// `IndexOutOfBounds` when `x` is no node and with `ShapeMismatch`
    /// when the element counts differ.
    pub fn reshape(&mut self, x: usize, shape: &[usize]) -> (r: Result<usize, TensorError>)
        requires
            old(self).wf(),
        ensures
            x >= old(self).len() ==> r == Err::<usize, TensorError>(TensorError::IndexOutOfBounds),
            x < old(self).len() && numel(shape@) != numel(old(self).values@[x as int].shape@)
                ==> r == Err::<usize, TensorError>(TensorError::ShapeMismatch),
            x < old(self).len() && numel(shape@) == numel(old(self).values@[x as int].shape@)
                ==> r.is_ok(),
            r.is_err() ==> *final(self) == *old(self),
            r.is_ok() ==> {
                let id = r.unwrap() as int;
                let t = final(self).values@[id];
                &&& final(self).recorded(old(self), id, seq![x])
                &&& t.contiguous()
                &&& t.shape@ == shape@
                &&& t.elements() == old(self).values@[x as int].elements()
                &&& (final(self).requires_grad@[id] ==> final(self).grad_fns@[id].unwrap() is Reshape)
            },
    {
        if x >= self.values.len() {
            return Err(TensorError::IndexOutOfBounds);
        }
        proof {
            assert(self.node_ok(x as int));
        }
        let value = match self.values[x].reshape(shape) {
            Ok(v) => v,
            Err(e) => {
                return Err(e);
            },
        };
        let mut parents: Vec<usize> = Vec::new();
        parents.push(x);
        proof {
            assert(parents@ =~= seq![x]);
            assert(parents@[0] == x);
        }
        if self.requires_grad[x] {
            proof {
                assert(self.requires_grad@[parents@[0] as int]);
            }
            Ok(self.push_node(value, true, Some(GradFn::Reshape), parents))
        } else {
            Ok(self.push_node(value, false, None, Vec::new()))
        }
    }

    /// Divides every element of node `x` by `scalar`, after asking
    /// `is_zero` about the divisor; `reciprocal` gives the factor the
    /// rule multiplies gradients with. Fails with `IndexOutOfBounds` when
    /// `x` is no node and with `DivisionByZero` exactly when `is_zero`
    /// answers yes.
    pub fn div_scalar<Z: Fn(T) -> bool, F: Fn(T, T) -> T, R: Fn(T) -> T>(
        &mut self,
        x: usize,
        scalar: T,
        is_zero: Z,
        divide: F,
        reciprocal: R,
    ) -> (r: Result<usize, TensorError>)
        requires
            old(self).wf(),
            is_zero.requires((scalar,)),
            reciprocal.requires((scalar,)),
            forall|u: T, v: T| divide.requires((u, v)),
        ensures
            x >= old(self).len() ==> r == Err::<usize, TensorError>(TensorError::IndexOutOfBounds),
            x < old(self).len() && r.is_err() ==> r == Err::<usize, TensorError>(
                TensorError::DivisionByZero,
            ) && is_zero.ensures((scalar,), true),
            r.is_err() ==> *final(self) == *old(self),
            r.is_ok() ==> {
                let id = r.unwrap() as int;
                let v = old(self).values@[x as int];
                &&& x < old(self).len()
                &&& is_zero.ensures((scalar,), false)
                &&& final(self).recorded(old(self), id, seq![x])
                &&& divided(&v, scalar, divide, &final(self).values@[id])
                &&& (final(self).requires_grad@[id] ==> {
                    &&& final(self).grad_fns@[id].unwrap() is Scaled
                    &&& final(self).grad_fns@[id].unwrap()->Scaled_0@.len() == 1
                    &&& forall|l: int|
                        0 <= l < numel(v.shape@) ==> reciprocal.ensures(
                            (scalar,),
                            #[trigger] final(self).grad_fns@[id].unwrap()->Scaled_0@[0].elements()[l],
                        )
                })
            },
    {
        if x >= self.values.len() {
            return Err(TensorError::IndexOutOfBounds);
        }
        proof {
            assert(self.node_ok(x as int));
        }
        let value = match self.values[x].div_scalar(scalar, is_zero, divide) {
            Ok(v) => v,
            Err(e) => {
                return Err(e);
            },
        };
        if self.requires_grad[x] {
            let factor = Tensor::full(self.values[x].shape.as_slice(), reciprocal(scalar));
            let mut factors: Vec<Tensor<T>> = Vec::new();
            factors.push(factor);
            proof {
                lemma_expandable_same(value.shape@);
            }
            Ok(self.record_unary(x, value, GradFn::Scaled(factors)))
        } else {
            Ok(self.record_unary(x, value, GradFn::NotImplemented))
        }
    }

    /// Views node `x` under the larger shape `target` without copying an
    /// element. A gradient that arrives at the view is summed down to
    /// the shape of `x`. Fails with `IndexOutOfBounds` when `x` is no
    /// node and with `NotBroadcastable` when the shape of `x` cannot be
    /// expanded to `target`.
    pub fn broadcast(&mut self, x: usize, target: &[usize]) -> (r: Result<usize, TensorError>)
        requires
            old(self).wf(),
            numel(target@) <= usize::MAX,
        ensures
            x >= old(self).len() ==> r == Err::<usize, TensorError>(TensorError::IndexOutOfBounds),
            x < old(self).len() && !expandable(old(self).values@[x as int].shape@, target@) ==> r
                == Err::<usize, TensorError>(TensorError::NotBroadcastable),
            x < old(self).len() && expandable(old(self).values@[x as int].shape@, target@)
                ==> r.is_ok(),
            r.is_err() ==> *final(self) == *old(self),
            r.is_ok() ==> {
                let id = r.unwrap() as int;
                let v = old(self).values@[x as int];
                let t = final(self).values@[id];
                &&& final(self).recorded(old(self), id, seq![x])
                &&& t.shape@ == target@
                &&& t.strides@ == broadcast_strides(v.shape@, v.strides@, target@.len())
                &&& t.offset == v.offset
                &&& t.data@ == v.data@
                &&& forall|idx: Seq<usize>| #[trigger]
                    valid_index(idx, target@) ==> t.at(idx) == v.at(source_index(idx, v.shape@))
                &&& (final(self).requires_grad@[id] ==> final(self).grad_fns@[id].unwrap() is Add)
            },
    {
        if x >= self.values.len() {
            return Err(TensorError::IndexOutOfBounds);
        }
        proof {
            assert(self.node_ok(x as int));
        }
        let value = match self.values[x].broadcast_to(target) {
            Ok(v) => v,
            Err(e) => {
                return Err(e);
            },
        };
        Ok(self.record_unary(x, value, GradFn::Add))
    }

    /// Inserts a dimension of size 1 at `axis` of node `x`. Fails with
    /// `IndexOutOfBounds` when `x` is no node or `axis` is beyond the rank.
    pub fn unsqueeze(&mut self, x: usize, axis: usize) -> (r: Result<usize, TensorError>)
        requires
            old(self).wf(),
        ensures
            x < old(self).len() && axis <= old(self).values@[x as int].shape@.len() ==> r.is_ok(),
            !(x < old(self).len() && axis <= old(self).values@[x as int].shape@.len()) ==> r
                == Err::<usize, TensorError>(TensorError::IndexOutOfBounds),
            r.is_err() ==> *final(self) == *old(self),
            r.is_ok() ==> {
                let id = r.unwrap() as int;
                let v = old(self).values@[x as int];
                let t = final(self).values@[id];
                &&& final(self).recorded(old(self), id, seq![x])
                &&& t.contiguous()
                &&& t.shape@ == v.shape@.insert(axis as int, 1usize)
                &&& t.elements() == v.elements()
                &&& (final(self).requires_grad@[id] ==> final(self).grad_fns@[id].unwrap() is Reshape)
            },
    {
        if x >= self.values.len() {
            return Err(TensorError::IndexOutOfBounds);
        }
        proof {
            assert(self.node_ok(x as int));
        }
        let value = match self.values[x].unsqueeze(axis) {
            Ok(v) => v,
            Err(e) => {
                return Err(e);
            },
        };
        proof {
            lemma_numel_insert(self.values@[x as int].shape@, axis as int, 1);
        }
        Ok(self.record_unary(x, value, GradFn::Reshape))
    }

    /// Removes the dimension at `axis` of node `x`, which must have size
    /// 1. Fails with `IndexOutOfBounds` when `x` is no node or `axis` no
    /// dimension, and with `ShapeMismatch` when the size is not 1.
    pub fn squeeze(&mut self, x: usize, axis: usize) -> (r: Result<usize, TensorError>)
        requires
            old(self).wf(),
        ensures
            !(x < old(self).len() && axis < old(self).values@[x as int].shape@.len()) ==> r
                == Err::<usize, TensorError>(TensorError::IndexOutOfBounds),
            x < old(self).len() && axis < old(self).values@[x as int].shape@.len() && old(
                self,
            ).values@[x as int].shape@[axis as int] != 1 ==> r == Err::<usize, TensorError>(
                TensorError::ShapeMismatch,
            ),
            x < old(self).len() && axis < old(self).values@[x as int].shape@.len() && old(
                self,
            ).values@[x as int].shape@[axis as int] == 1 ==> r.is_ok(),
            r.is_err() ==> *final(self) == *old(self),
            r.is_ok() ==> {
                let id = r.unwrap() as int;
                let v = old(self).values@[x as int];
                let t = final(self).values@[id];
                &&& final(self).recorded(old(self), id, seq![x])
                &&& t.contiguous()
                &&& t.shape@ == v.shape@.remove(axis as int)
                &&& t.elements() == v.elements()
                &&& (final(self).requires_grad@[id] ==> final(self).grad_fns@[id].unwrap() is Reshape)
            },
    {
        if x >= self.values.len() {
            return Err(TensorError::IndexOutOfBounds);
        }
        proof {
            assert(self.node_ok(x as int));
        }
        let value = match self.values[x].squeeze(axis) {
            Ok(v) => v,
            Err(e) => {
                return Err(e);
            },
        };
        proof {
            let shape = self.values@[x as int].shape@;
            lemma_numel_insert(shape.remove(axis as int), axis as int, 1);
            assert(shape.remove(axis as int).insert(axis as int, 1usize) =~= shape);
        }
        Ok(self.record_unary(x, value, GradFn::Reshape))
    }

    /// Adds the result of an operation on nodes `a` and `b`.
    fn record_binary(&mut self, a: usize, b: usize, value: Tensor<T>, rule: GradFn<T>) -> (id:
        usize)
        requires
            old(self).wf(),
            a < old(self).len(),
            b < old(self).len(),
            value.wf(),
            old(self).requires_grad@[a as int] || old(self).requires_grad@[b as int] ==> {
                &&& rule.arity_ok(2)
                &&& rule.fits_operand(value.shape@, 0, old(self).values@[a as int].shape@)
                &&& rule.fits_operand(value.shape@, 1, old(self).values@[b as int].shape@)
            },
        ensures
            final(self).recorded(old(self), id as int, seq![a, b]),
            final(self).values@[id as int] == value,
            final(self).requires_grad@[id as int] ==> final(self).grad_fns@[id as int] == Some(rule),
    {
        let mut parents: Vec<usize> = Vec::new();
        parents.push(a);
        parents.push(b);
        proof {
            assert(parents@ =~= seq![a, b]);
            assert(parents@[0] == a && parents@[1] == b);
        }
        if self.requires_grad[a] || self.requires_grad[b] {
            proof {
                assert(self.requires_grad@[parents@[0] as int] || self.requires_grad@[parents@[1] as int]);
            }
            self.push_node(value, true, Some(rule), parents)
        } else {
            proof {
                assert(!(exists|k: int|
                    0 <= k < parents@.len() && self.requires_grad@[#[trigger] parents@[k] as int]));
            }
            self.push_node(value, false, None, Vec::new())
        }
    }

    /// Adds the result of an operation on node `x` alone.
    fn record_unary(&mut self, x: usize, value: Tensor<T>, rule: GradFn<T>) -> (id: usize)
        requires
            old(self).wf(),
            x < old(self).len(),
            value.wf(),
            old(self).requires_grad@[x as int] ==> rule.arity_ok(1) && rule.fits_operand(
                value.shape@,
                0,
                old(self).values@[x as int].shape@,
            ),
        ensures
            final(self).recorded(old(self), id as int, seq![x]),
            final(self).values@[id as int] == value,
            final(self).requires_grad@[id as int] ==> final(self).grad_fns@[id as int] == Some(rule),
    {
        let mut parents: Vec<usize> = Vec::new();
        parents.push(x);
        proof {
            assert(parents@ =~= seq![x]);
            assert(parents@[0] == x);
        }
        if self.requires_grad[x] {
            proof {
                assert(self.requires_grad@[parents@[0] as int]);
            }
            self.push_node(value, true, Some(rule), parents)
        } else {
            self.push_node(value, false, None, Vec::new())
        }
    }

    /// Folds the elements of node `x` along `axes` with `plus`, starting
    /// at `zero`; the reduced dimensions stay with size 1. Fails with
    /// `IndexOutOfBounds` when `x` is no node or an axis is no dimension.
    pub fn sum_axis<F: Fn(T, T) -> T>(&mut self, x: usize, axes: &[usize], zero: T, plus: F) -> (r:
        Result<usize, TensorError>)
        requires
            old(self).wf(),
            forall|u: T, v: T| plus.requires((u, v)),
            x < old(self).len() ==> {
                let shape = old(self).values@[x as int].shape@;
                &&& numel(kept_shape(shape, axes_mask(axes@, shape.len()))) <= usize::MAX
                &&& numel(block_shape(shape, axes_mask(axes@, shape.len()))) <= usize::MAX
            },
        ensures
            x < old(self).len() && axes_in_rank(axes@, old(self).values@[x as int].shape@.len())
                ==> r.is_ok(),
            !(x < old(self).len() && axes_in_rank(axes@, old(self).values@[x as int].shape@.len()))
                ==> r == Err::<usize, TensorError>(TensorError::IndexOutOfBounds),
            r.is_err() ==> *final(self) == *old(self),
            r.is_ok() ==> {
                let id = r.unwrap() as int;
                let v = old(self).values@[x as int];
                &&& final(self).recorded(old(self), id, seq![x])
                &&& reduced(&v, axes_mask(axes@, v.shape@.len()), zero, plus, &final(self).values@[id])
                &&& (final(self).requires_grad@[id] ==> {
                    &&& final(self).grad_fns@[id].unwrap() is SumAxis
                    &&& final(self).grad_fns@[id].unwrap()->SumAxis_0.input_shape@ == v.shape@
                })
            },
    {
        if x >= self.values.len() {
            return Err(TensorError::IndexOutOfBounds);
        }
        proof {
            assert(self.node_ok(x as int));
        }
        let value = match self.values[x].reduce_axes(axes, zero, plus) {
            Ok(v) => v,
            Err(e) => {
                return Err(e);
            },
        };
        let rule = GradFn::SumAxis(SumAxisGradFn::new(copy_sizes(self.values[x].shape.as_slice())));
        proof {
            lemma_kept_expandable(
                self.values@[x as int].shape@,
                axes_mask(axes@, self.values@[x as int].shape@.len()),
            );
        }
        Ok(self.record_unary(x, value, rule))
    }

    /// Folds all elements of node `x` into one with `plus`, starting at
    /// `zero`. The result keeps the rank of `x`, every dimension with
    /// size 1. Fails with `IndexOutOfBounds` when `x` is no node.
    pub fn sum<F: Fn(T, T) -> T>(&mut self, x: usize, zero: T, plus: F) -> (r: Result<
        usize,
        TensorError,
    >)
        requires
            old(self).wf(),
            forall|u: T, v: T| plus.requires((u, v)),
        ensures
            x < old(self).len() ==> r.is_ok(),
            x >= old(self).len() ==> r == Err::<usize, TensorError>(
                TensorError::IndexOutOfBounds,
            ),
            r.is_err() ==> *final(self) == *old(self),
            r.is_ok() ==> final(self).sum_of(old(self), x, zero, plus, r.unwrap() as int),
    {
        if x >= self.values.len() {
            return Err(TensorError::IndexOutOfBounds);
        }
        proof {
            assert(self.node_ok(x as int));
        }
        let n = self.values[x].shape.len();
        let mut axes: Vec<usize> = Vec::new();
        let mut i: usize = 0;
        while i < n
            invariant
                i <= n,
                axes.len() == i,
                forall|j: int| 0 <= j < i ==> axes[j] == j,
            decreases n - i,
        {
            axes.push(i);
            i += 1;
        }
        proof {
            let shape = self.values@[x as int].shape@;
            let mask = axes_mask(axes@, n as nat);
            assert forall|j: int| 0 <= j < n implies mask[j] by {
                assert(axes@[j] == j as usize);
            }
            assert(mask =~= all_axes(n as nat));
            assert(block_shape(shape, mask) =~= shape);
            assert(kept_shape(shape, mask) =~= Seq::new(n as nat, |i: int| 1usize));
            lemma_ones_numel(n as nat);
            lemma_kept_expandable(shape, mask);
        }
        let value = match self.values[x].reduce_axes(axes.as_slice(), zero, plus) {
            Ok(v) => v,
            Err(e) => {
                return Err(e);
            },
        };
        let rule = GradFn::Sum(SumGradFn::new(copy_sizes(self.values[x].shape.as_slice())));
        Ok(self.record_unary(x, value, rule))
    }

    /// Averages the elements of node `x` along `axes`: each block is
    /// summed with `plus` from `zero` and the sum handed to `divide`
    /// together with the number of elements of the block. `inverse`
    /// turns that number into the factor the rule multiplies gradients
    /// with. Fails with `IndexOutOfBounds` when `x` is no node or an
    /// axis is no dimension.
    pub fn mean<F: Fn(T, T) -> T, D: Fn(T, usize) -> T, I: Fn(usize) -> T>(
        &mut self,
        x: usize,
        axes: &[usize],
        zero: T,
        plus: F,
        divide: D,
        inverse: I,
    ) -> (r: Result<usize, TensorError>)
        requires
            old(self).wf(),
            forall|u: T, v: T| plus.requires((u, v)),
            forall|u: T, c: usize| divide.requires((u, c)),
            forall|c: usize| inverse.requires((c,)),
            x < old(self).len() ==> {
                let shape = old(self).values@[x as int].shape@;
                &&& numel(kept_shape(shape, axes_mask(axes@, shape.len()))) <= usize::MAX
                &&& numel(block_shape(shape, axes_mask(axes@, shape.len()))) <= usize::MAX
            },
        ensures
            x < old(self).len() && axes_in_rank(axes@, old(self).values@[x as int].shape@.len())
                ==> r.is_ok(),
            !(x < old(self).len() && axes_in_rank(axes@, old(self).values@[x as int].shape@.len()))
                ==> r == Err::<usize, TensorError>(TensorError::IndexOutOfBounds),
            r.is_err() ==> *final(self) == *old(self),
            r.is_ok() ==> {
                let id = r.unwrap() as int;
                let v = old(self).values@[x as int];
                let mask = axes_mask(axes@, v.shape@.len());
                let out_shape = kept_shape(v.shape@, mask);
                let count = numel(block_shape(v.shape@, mask)) as usize;
                let t = final(self).values@[id];
                &&& final(self).recorded(old(self), id, seq![x])
                &&& t.contiguous()
                &&& t.shape@ == out_shape
                &&& t.elements().len() == numel(out_shape)
                &&& forall|l: int|
                    0 <= l < numel(out_shape) ==> mean_rel(
                        plus,
                        zero,
                        divide,
                        v.block(unravel(l as nat, out_shape), mask),
                        count,
                        #[trigger] t.elements()[l],
                    )
                &&& (final(self).requires_grad@[id] ==> {
                    &&& final(self).grad_fns@[id].unwrap() is Mean
                    &&& final(self).grad_fns@[id].unwrap()->Mean_0.input_shape@ == v.shape@
                    &&& inverse.ensures((count,), final(self).grad_fns@[id].unwrap()->Mean_0.scale)
                })
            },
    {
        if x >= self.values.len() {
            return Err(TensorError::IndexOutOfBounds);
        }
        proof {
            assert(self.node_ok(x as int));
        }
        let sums = match self.values[x].reduce_axes(axes, zero, plus) {
            Ok(v) => v,
            Err(e) => {
                return Err(e);
            },
        };
        let count = self.values[x].block_len(axes);
        let by_count = &divide;
        let per_block = |s: T| -> (m: T)
            ensures
                by_count.ensures((s, count), m),
            {
                by_count(s, count)
            };
        let value = sums.map(per_block);
        let scale = inverse(count);
        let rule = GradFn::Mean(
            MeanGradFn::new(copy_sizes(self.values[x].shape.as_slice()), scale),
        );
        proof {
            let v = self.values@[x as int];
            let mask = axes_mask(axes@, v.shape@.len());
            let out_shape = kept_shape(v.shape@, mask);
            lemma_kept_expandable(v.shape@, mask);
            assert forall|l: int| 0 <= l < numel(out_shape) implies mean_rel(
                plus,
                zero,
                divide,
                v.block(unravel(l as nat, out_shape), mask),
                count,
                #[trigger] value.elements()[l],
            ) by {
                let s = sums.elements()[l];
                assert(fold_left_rel(plus, zero, v.block(unravel(l as nat, out_shape), mask), s));
                assert(divide.ensures((s, count), value.elements()[l]));
            }
        }
        Ok(self.record_unary(x, value, rule))
    }

    /// Folds the elements of node `x` along `axes` with any function.
    /// The result has no derivative rule: a backward pass that reaches
    /// it fails. Fails with `IndexOutOfBounds` when `x` is no node or an
    /// axis is no dimension.
    pub fn reduce_axes<F: Fn(T, T) -> T>(&mut self, x: usize, axes: &[usize], init: T, f: F) -> (r:
        Result<usize, TensorError>)
        requires
            old(self).wf(),
            forall|u: T, v: T| f.requires((u, v)),
            x < old(self).len() ==> {
                let shape = old(self).values@[x as int].shape@;
                &&& numel(kept_shape(shape, axes_mask(axes@, shape.len()))) <= usize::MAX
                &&& numel(block_shape(shape, axes_mask(axes@, shape.len()))) <= usize::MAX
            },
        ensures
            x < old(self).len() && axes_in_rank(axes@, old(self).values@[x as int].shape@.len())
                ==> r.is_ok(),
            !(x < old(self).len() && axes_in_rank(axes@, old(self).values@[x as int].shape@.len()))
                ==> r == Err::<usize, TensorError>(TensorError::IndexOutOfBounds),
            r.is_err() ==> *final(self) == *old(self),
            r.is_ok() ==> {
                let id = r.unwrap() as int;
                let v = old(self).values@[x as int];
                &&& final(self).recorded(old(self), id, seq![x])
                &&& reduced(&v, axes_mask(axes@, v.shape@.len()), init, f, &final(self).values@[id])
                &&& (final(self).requires_grad@[id] ==> final(self).grad_fns@[id].unwrap() is NotImplemented)
            },
    {
        if x >= self.values.len() {
            return Err(TensorError::IndexOutOfBounds);
        }
        proof {
            assert(self.node_ok(x as int));
        }
        let value = match self.values[x].reduce_axes(axes, init, f) {
            Ok(v) => v,
            Err(e) => {
                return Err(e);
            },
        };
        Ok(self.record_unary(x, value, GradFn::NotImplemented))
    }

    /// The part of node `x` where the index along `axis` runs from
    /// `start` to `start + len`. The result has no derivative rule: a
    /// backward pass that reaches it fails. Fails with
    /// `IndexOutOfBounds` when `x` is no node, `axis` no dimension, or
    /// the range leaves the dimension.
    pub fn slice(&mut self, x: usize, axis: usize, start: usize, len: usize) -> (r: Result<
        usize,
        TensorError,
    >)
        requires
            old(self).wf(),
        ensures
            x < old(self).len() && axis < old(self).values@[x as int].shape@.len() && start + len
                <= old(self).values@[x as int].shape@[axis as int] ==> r.is_ok(),
            !(x < old(self).len() && axis < old(self).values@[x as int].shape@.len() && start + len
                <= old(self).values@[x as int].shape@[axis as int]) ==> r == Err::<
                usize,
                TensorError,
            >(TensorError::IndexOutOfBounds),
            r.is_err() ==> *final(self) == *old(self),
            r.is_ok() ==> {
                let id = r.unwrap() as int;
                let v = old(self).values@[x as int];
                let t = final(self).values@[id];
                let out_shape = v.shape@.update(axis as int, len);
                &&& final(self).recorded(old(self), id, seq![x])
                &&& t.contiguous()
                &&& t.shape@ == out_shape
                &&& t.elements().len() == numel(out_shape)
                &&& forall|l: int|
                    0 <= l < numel(out_shape) ==> #[trigger] t.elements()[l] == v.at(
                        shifted(unravel(l as nat, out_shape), axis as int, start as int),
                    )
                &&& (final(self).requires_grad@[id] ==> final(self).grad_fns@[id].unwrap() is NotImplemented)
            },
    {
        if x >= self.values.len() {
            return Err(TensorError::IndexOutOfBounds);
        }
        proof {
            assert(self.node_ok(x as int));
        }
        let value = match self.values[x].slice(axis, start, len) {
            Ok(v) => v,
            Err(e) => {
                return Err(e);
            },
        };
        Ok(self.record_unary(x, value, GradFn::NotImplemented))
    }

    /// The elements of node `x` whose index along `axis` is listed in
    /// `indices`. The result has no derivative rule: a backward pass
    /// that reaches it fails. Fails with `IndexOutOfBounds` when `x` is
    /// no node, `axis` no dimension, or a listed index leaves the dimension.
    pub fn gather(&mut self, x: usize, axis: usize, indices: &[usize]) -> (r: Result<
        usize,
        TensorError,
    >)
        requires
            old(self).wf(),
            x < old(self).len() && axis < old(self).values@[x as int].shape@.len() ==> numel(
                old(self).values@[x as int].shape@.update(axis as int, indices@.len() as usize),
            ) <= usize::MAX,
        ensures
            x < old(self).len() && gather_ok(
                old(self).values@[x as int].shape@,
                axis as int,
                indices@,
            ) ==> r.is_ok(),
            !(x < old(self).len() && gather_ok(
                old(self).values@[x as int].shape@,
                axis as int,
                indices@,
            )) ==> r == Err::<usize, TensorError>(TensorError::IndexOutOfBounds),
            r.is_err() ==> *final(self) == *old(self),
            r.is_ok() ==> {
                let id = r.unwrap() as int;
                let v = old(self).values@[x as int];
                let t = final(self).values@[id];
                let out_shape = v.shape@.update(axis as int, indices@.len() as usize);
                &&& final(self).recorded(old(self), id, seq![x])
                &&& t.contiguous()
                &&& t.shape@ == out_shape
                &&& t.elements().len() == numel(out_shape)
                &&& forall|l: int|
                    0 <= l < numel(out_shape) ==> #[trigger] t.elements()[l] == v.at(
                        picked(unravel(l as nat, out_shape), axis as int, indices@),
                    )
                &&& (final(self).requires_grad@[id] ==> final(self).grad_fns@[id].unwrap() is NotImplemented)
            },
    {
        if x >= self.values.len() {
            return Err(TensorError::IndexOutOfBounds);
        }
        proof {
            assert(self.node_ok(x as int));
        }
        let value = match self.values[x].gather(axis, indices) {
            Ok(v) => v,
            Err(e) => {
                return Err(e);
            },
        };
        Ok(self.record_unary(x, value, GradFn::NotImplemented))
    }
}

/// `m` is a mean of `block`: a sum of its elements that `divide` has
/// been given together with their number.
pub open spec fn mean_rel<T, F: Fn(T, T) -> T, D: Fn(T, usize) -> T>(
    plus: F,
    zero: T,
    divide: D,
    block: Seq<T>,
    count: usize,
    m: T,
) -> bool {
    exists|s: T| #[trigger] fold_left_rel(plus, zero, block, s) && divide.ensures((s, count), m)
}

/// The mask that lists every dimension.
pub open spec fn all_axes(rank: nat) -> Seq<bool> {
    Seq::new(rank, |i: int| true)
}

/// What is left of a shape after a reduction can be expanded to the shape.
pub proof fn lemma_kept_expandable(shape: Seq<usize>, mask: Seq<bool>)
    requires
        mask.len() == shape.len(),
    ensures
        expandable(kept_shape(shape, mask), shape),
{
    let kept = kept_shape(shape, mask);
    assert(left_padded(kept, shape.len()) =~= kept);
}

} // verus!
