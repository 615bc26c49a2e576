//! The computation graph: an arena of nodes addressed by their position.
//!
//! A node holds the value of one tensor, whether gradients are tracked
//! for it, its gradient once one has arrived, the rule that produced it
//! and the nodes it was computed from. A node only ever refers to nodes
//! created before it, so the graph has no cycle.

use vstd::prelude::*;
use crate::error::TensorError;
use crate::grad_fn::GradFn;
use crate::index::valid_index;
use crate::shape::numel;
use crate::tensor::Tensor;

verus! {

/// A computation graph over tensors with elements of type `T`.
pub struct Graph<T> {
    /// The value of each node.
    pub values: Vec<Tensor<T>>,
    /// Whether gradients are tracked for each node.
    pub requires_grad: Vec<bool>,
    /// The gradient accumulated in each node so far.
    pub grads: Vec<Option<Tensor<T>>>,
    /// The derivative rule of the operation that produced each node.
    pub grad_fns: Vec<Option<GradFn<T>>>,
    /// The operands of the operation that produced each node, in the
    /// order its rule expects.
    pub parents: Vec<Vec<usize>>,
}

impl<T: Copy> Graph<T> {
    /// Number of nodes.
    pub open spec fn len(&self) -> nat {
        self.values@.len()
    }

    /// Node `i` is consistent on its own and with the nodes before it.
    pub open spec fn node_ok(&self, i: int) -> bool {
        &&& self.values@[i].wf()
        &&& forall|k: int|
            0 <= k < self.parents@[i]@.len() ==> (#[trigger] self.parents@[i]@[k]) < i
        &&& (self.grad_fns@[i].is_none() ==> self.parents@[i]@.len() == 0)
        &&& (self.grad_fns@[i].is_some() ==> self.requires_grad@[i])
        &&& (self.grads@[i].is_some() ==> {
            &&& self.grads@[i].unwrap().wf()
            &&& self.grads@[i].unwrap().shape@ == self.values@[i].shape@
        })
        &&& (self.grad_fns@[i].is_some() ==> {
            let rule = self.grad_fns@[i].unwrap();
            &&& rule.arity_ok(self.parents@[i]@.len())
            &&& forall|k: int|
                0 <= k < self.parents@[i]@.len() ==> #[trigger] rule.fits_operand(
                    self.values@[i].shape@,
                    k,
                    self.values@[self.parents@[i]@[k] as int].shape@,
                )
        })
    }

    /// `self` holds the nodes of `before`, unchanged, followed by one more node.
    pub open spec fn extends(&self, before: &Graph<T>) -> bool {
        &&& self.len() == before.len() + 1
        &&& self.values@.subrange(0, before.len() as int) == before.values@
        &&& self.requires_grad@.subrange(0, before.len() as int) == before.requires_grad@
        &&& self.grads@.subrange(0, before.len() as int) == before.grads@
        &&& self.grad_fns@.subrange(0, before.len() as int) == before.grad_fns@
        &&& self.parents@.subrange(0, before.len() as int) == before.parents@
    }

    /// The arena is consistent.
    pub open spec fn wf(&self) -> bool {
        &&& self.requires_grad@.len() == self.len()
        &&& self.grads@.len() == self.len()
        &&& self.grad_fns@.len() == self.len()
        &&& self.parents@.len() == self.len()
        &&& forall|i: int| 0 <= i < self.len() ==> #[trigger] self.node_ok(i)
    }

    /// An empty graph.
    pub fn new() -> (g: Graph<T>)
        ensures
            g.wf(),
            g.len() == 0,
    {
        Graph {
            values: Vec::new(),
            requires_grad: Vec::new(),
            grads: Vec::new(),
            grad_fns: Vec::new(),
            parents: Vec::new(),
        }
    }

    /// Appends a node.
    pub(crate) fn push_node(
        &mut self,
        value: Tensor<T>,
        requires_grad: bool,
        rule: Option<GradFn<T>>,
        parents: Vec<usize>,
    ) -> (id: usize)
        requires
            old(self).wf(),
            value.wf(),
            forall|k: int| 0 <= k < parents@.len() ==> (#[trigger] parents@[k]) < old(self).len(),
            rule.is_none() ==> parents@.len() == 0,
            rule.is_some() ==> {
                &&& requires_grad
                &&& rule.unwrap().arity_ok(parents@.len())
                &&& forall|k: int|
                    0 <= k < parents@.len() ==> #[trigger] rule.unwrap().fits_operand(
                        value.shape@,
                        k,
                        old(self).values@[parents@[k] as int].shape@,
                    )
            },
        ensures
            final(self).wf(),
            final(self).extends(old(self)),
            id == old(self).len(),
            final(self).values@[id as int] == value,
            final(self).requires_grad@[id as int] == requires_grad,
            final(self).grads@[id as int].is_none(),
            final(self).grad_fns@[id as int] == rule,
            final(self).parents@[id as int] == parents,
    {
        let id = self.values.len();
        self.values.push(value);
        self.requires_grad.push(requires_grad);
        self.grads.push(None);
        self.grad_fns.push(rule);
        self.parents.push(parents);
        proof {
            let n = old(self).len() as int;
            assert(self.values@.subrange(0, n) =~= old(self).values@);
            assert(self.requires_grad@.subrange(0, n) =~= old(self).requires_grad@);
            assert(self.grads@.subrange(0, n) =~= old(self).grads@);
            assert(self.grad_fns@.subrange(0, n) =~= old(self).grad_fns@);
            assert(self.parents@.subrange(0, n) =~= old(self).parents@);
            assert forall|i: int| 0 <= i < self.len() implies #[trigger] self.node_ok(i) by {
                if i < n {
                    assert(old(self).node_ok(i));
                    assert(self.values@[i] == old(self).values@[i]);
                    assert(self.parents@[i] == old(self).parents@[i]);
                    assert(self.grad_fns@[i] == old(self).grad_fns@[i]);
                    assert(self.grads@[i] == old(self).grads@[i]);
                    if self.grad_fns@[i].is_some() {
                        let r = self.grad_fns@[i].unwrap();
                        assert forall|k: int|
                            0 <= k < self.parents@[i]@.len() implies #[trigger] r.fits_operand(
                            self.values@[i].shape@,
                            k,
                            self.values@[self.parents@[i]@[k] as int].shape@,
                        ) by {
                            assert(old(self).parents@[i]@[k] < i);
                            assert(r.fits_operand(
                                old(self).values@[i].shape@,
                                k,
                                old(self).values@[old(self).parents@[i]@[k] as int].shape@,
                            ));
                        }
                    }
                }
            }
        }
        id
    }

    /// Adds a tensor without gradient tracking. Fails with
    /// `ShapeMismatch` exactly when the number of values is not the
    /// product of the sizes.
    pub fn new_tensor(&mut self, data: Vec<T>, shape: &[usize]) -> (r: Result<usize, TensorError>)
        requires
            old(self).wf(),
        ensures
            data@.len() == numel(shape@) ==> r.is_ok(),
            data@.len() != numel(shape@) ==> r == Err::<usize, TensorError>(
                TensorError::ShapeMismatch,
            ) && *final(self) == *old(self),
            r.is_ok() ==> {
                let id = r.unwrap() as int;
                &&& final(self).wf()
                &&& final(self).extends(old(self))
                &&& id == old(self).len()
                &&& final(self).is_leaf(id, false)
                &&& final(self).values@[id].contiguous()
                &&& final(self).values@[id].shape@ == shape@
                &&& final(self).values@[id].elements() == data@
            },
    {
        match Tensor::new(data, shape) {
            Ok(value) => Ok(self.push_node(value, false, None, Vec::new())),
            Err(e) => Err(e),
        }
    }

    /// Adds a tensor whose gradient is tracked. Fails with
    /// `ShapeMismatch` exactly when the number of values is not the
    /// product of the sizes.
    pub fn with_grad(&mut self, data: Vec<T>, shape: &[usize]) -> (r: Result<usize, TensorError>)
        requires
            old(self).wf(),
        ensures
            data@.len() == numel(shape@) ==> r.is_ok(),
            data@.len() != numel(shape@) ==> r == Err::<usize, TensorError>(
                TensorError::ShapeMismatch,
            ) && *final(self) == *old(self),
            r.is_ok() ==> {
                let id = r.unwrap() as int;
                &&& final(self).wf()
                &&& final(self).extends(old(self))
                &&& id == old(self).len()
                &&& final(self).is_leaf(id, true)
                &&& final(self).values@[id].contiguous()
                &&& final(self).values@[id].shape@ == shape@
                &&& final(self).values@[id].elements() == data@
            },
    {
        match Tensor::new(data, shape) {
            Ok(value) => Ok(self.push_node(value, true, None, Vec::new())),
            Err(e) => Err(e),
        }
    }

    /// Node `id` is a leaf: it has no rule, no operands and no gradient yet.
    pub open spec fn is_leaf(&self, id: int, requires_grad: bool) -> bool {
        &&& self.requires_grad@[id] == requires_grad
        &&& self.grad_fns@[id].is_none()
        &&& self.parents@[id]@.len() == 0
        &&& self.grads@[id].is_none()
    }

    /// Number of nodes.
    pub fn node_count(&self) -> (n: usize)
        ensures
            n == self.len(),
    {
        self.values.len()
    }

    /// The value of node `id`.
    pub fn value(&self, id: usize) -> (r: Option<&Tensor<T>>)
        ensures
            id < self.len() ==> r == Some(&self.values@[id as int]),
            id >= self.len() ==> r.is_none(),
    {
        if id < self.values.len() {
            Some(&self.values[id])
        } else {
            None
        }
    }

    /// Whether gradients are tracked for node `id`; `false` for a
    /// position that holds no node.
    pub fn requires_grad(&self, id: usize) -> (b: bool)
        requires
            self.wf(),
        ensures
            b == (id < self.len() && self.requires_grad@[id as int]),
    {
        id < self.requires_grad.len() && self.requires_grad[id]
    }

    /// The gradient accumulated in node `id`, if any has arrived.
    pub fn grad(&self, id: usize) -> (r: Option<&Tensor<T>>)
        requires
            self.wf(),
        ensures
            id < self.len() && self.grads@[id as int].is_some() ==> r == Some(
                &self.grads@[id as int].unwrap(),
            ),
            !(id < self.len() && self.grads@[id as int].is_some()) ==> r.is_none(),
            r.is_some() ==> r.unwrap().wf() && r.unwrap().shape@ == self.values@[id as int].shape@,
    {
        if id < self.grads.len() {
            proof {
                assert(self.node_ok(id as int));
            }
            self.grads[id].as_ref()
        } else {
            None
        }
    }

    /// Drops the rule and the operands of node `id` and keeps its
    /// gradient: the node becomes a leaf that still holds what arrived.
    pub fn clear_graph(&mut self, id: usize)
        requires
            old(self).wf(),
        ensures
            final(self).wf(),
            final(self).cleared(old(self), id),
    {
        if id < self.grads.len() {
            self.grad_fns.set(id, None);
            self.parents.set(id, Vec::new());
            proof {
                assert forall|i: int| 0 <= i < self.len() implies #[trigger] self.node_ok(i) by {
                    assert(old(self).node_ok(i));
                    if i != id && self.grad_fns@[i].is_some() {
                        let r = self.grad_fns@[i].unwrap();
                        assert forall|k: int|
                            0 <= k < self.parents@[i]@.len() implies #[trigger] r.fits_operand(
                            self.values@[i].shape@,
                            k,
                            self.values@[self.parents@[i]@[k] as int].shape@,
                        ) by {
                            assert(r.fits_operand(
                                old(self).values@[i].shape@,
                                k,
                                old(self).values@[old(self).parents@[i]@[k] as int].shape@,
                            ));
                        }
                    }
                }
            }
        }
    }

    /// `self` is `before` with the history of node `id` dropped; a
    /// position that holds no node changes nothing.
    pub open spec fn cleared(&self, before: &Graph<T>, id: usize) -> bool {
        &&& self.values == before.values
        &&& self.requires_grad == before.requires_grad
        &&& self.grads == before.grads
        &&& self.grad_fns@.len() == before.grad_fns@.len()
        &&& self.parents@.len() == before.parents@.len()
        &&& forall|i: int|
            0 <= i < before.len() ==> {
                if i == id {
                    (#[trigger] self.grad_fns@[i]).is_none() && self.parents@[i]@.len() == 0
                } else {
                    self.grad_fns@[i] == before.grad_fns@[i] && self.parents@[i]
                        == before.parents@[i]
                }
            }
    }

    /// Writes `value` at `indices` of the value of node `id`; the
    /// history and the gradients stay as they are. Fails with
    /// `IndexOutOfBounds` when `id` is no node or the index leaves the
    /// shape, and then changes nothing.
    pub fn set(&mut self, id: usize, indices: &[usize], value: T) -> (r: Result<(), TensorError>)
        requires
            old(self).wf(),
        ensures
            final(self).wf(),
            final(self).requires_grad == old(self).requires_grad,
            final(self).grads == old(self).grads,
            final(self).grad_fns == old(self).grad_fns,
            final(self).parents == old(self).parents,
            final(self).values@.len() == old(self).values@.len(),
            id < old(self).len() && valid_index(
                indices@,
                old(self).values@[id as int].shape@,
            ) ==> r.is_ok(),
            !(id < old(self).len() && valid_index(
                indices@,
                old(self).values@[id as int].shape@,
            )) ==> r == Err::<(), TensorError>(TensorError::IndexOutOfBounds) && final(self).values
                == old(self).values,
            r.is_ok() ==> {
                let was = old(self).values@[id as int];
                let now = final(self).values@[id as int];
                &&& now.shape@ == was.shape@
                &&& now.strides@ == was.strides@
                &&& now.offset == was.offset
                &&& now.data@ == was.data@.update(was.position(indices@) as int, value)
                &&& forall|i: int|
                    0 <= i < old(self).len() && i != id ==> final(self).values@[i] == old(
                        self,
                    ).values@[i]
            },
    {
        if id >= self.values.len() {
            return Err(TensorError::IndexOutOfBounds);
        }
        proof {
            assert(self.node_ok(id as int));
        }
        let mut changed = self.values[id].duplicate();
        match changed.set(indices, value) {
            Ok(()) => {
                self.values.set(id, changed);
                proof {
                    assert forall|i: int| 0 <= i < self.len() implies #[trigger] self.node_ok(
                        i,
                    ) by {
                        assert(old(self).node_ok(i));
                        if self.grad_fns@[i].is_some() {
                            let r = self.grad_fns@[i].unwrap();
                            assert forall|k: int|
                                0 <= k < self.parents@[i]@.len() implies #[trigger] r.fits_operand(
                                self.values@[i].shape@,
                                k,
                                self.values@[self.parents@[i]@[k] as int].shape@,
                            ) by {
                                assert(r.fits_operand(
                                    old(self).values@[i].shape@,
                                    k,
                                    old(self).values@[old(self).parents@[i]@[k] as int].shape@,
                                ));
                            }
                        }
                    }
                }
                Ok(())
            },
            Err(e) => Err(e),
        }
    }

    /// A gradient always has the shape of the value it belongs to.
    pub proof fn lemma_grad_shape(&self, id: usize)
        requires
            self.wf(),
            id < self.len(),
            self.grads@[id as int].is_some(),
        ensures
            self.grads@[id as int].unwrap().wf(),
            self.grads@[id as int].unwrap().shape@ == self.values@[id as int].shape@,
    {
        assert(self.node_ok(id as int));
    }

    /// A result follows gradients only through operands, and every
    /// operand was created before it.
    pub proof fn lemma_history(&self, id: usize, k: int)
        requires
            self.wf(),
            id < self.len(),
            0 <= k < self.parents@[id as int]@.len(),
        ensures
            self.parents@[id as int]@[k] < id,
            self.grad_fns@[id as int].is_some(),
            self.requires_grad@[id as int],
    {
        assert(self.node_ok(id as int));
    }

    /// Forgets the gradient of node `id`. Nothing else changes.
    pub fn zero_grad(&mut self, id: usize)
        requires
            old(self).wf(),
        ensures
            final(self).wf(),
            final(self).values == old(self).values,
            final(self).requires_grad == old(self).requires_grad,
            final(self).grad_fns == old(self).grad_fns,
            final(self).parents == old(self).parents,
            id < old(self).len() ==> final(self).grads@ == old(self).grads@.update(
                id as int,
                None::<Tensor<T>>,
            ),
            id >= old(self).len() ==> final(self).grads@ == old(self).grads@,
    {
        if id < self.grads.len() {
            self.grads.set(id, None);
            proof {
                assert forall|i: int| 0 <= i < self.len() implies #[trigger] self.node_ok(i) by {
                    assert(old(self).node_ok(i));
                }
            }
        }
    }

    /// Cuts node `id` off from its history: its rule, its operands and
    /// its gradient are dropped, so that it becomes a leaf.
    pub fn detach(&mut self, id: usize)
        requires
            old(self).wf(),
        ensures
            final(self).wf(),
            final(self).values == old(self).values,
            final(self).requires_grad == old(self).requires_grad,
            id < old(self).len() ==> {
                &&& final(self).grads@ == old(self).grads@.update(id as int, None::<Tensor<T>>)
                &&& final(self).grad_fns@ == old(self).grad_fns@.update(
                    id as int,
                    None::<GradFn<T>>,
                )
                &&& final(self).parents@.len() == old(self).len()
                &&& final(self).parents@[id as int]@.len() == 0
                &&& forall|i: int|
                    0 <= i < old(self).len() && i != id ==> final(self).parents@[i] == old(
                        self,
                    ).parents@[i]
            },
            id >= old(self).len() ==> *final(self) == *old(self),
    {
        if id < self.grads.len() {
            self.grads.set(id, None);
            self.grad_fns.set(id, None);
            self.parents.set(id, Vec::new());
            proof {
                assert forall|i: int| 0 <= i < self.len() implies #[trigger] self.node_ok(i) by {
                    assert(old(self).node_ok(i));
                    if i != id && self.grad_fns@[i].is_some() {
                        let r = self.grad_fns@[i].unwrap();
                        assert forall|k: int|
                            0 <= k < self.parents@[i]@.len() implies #[trigger] r.fits_operand(
                            self.values@[i].shape@,
                            k,
                            self.values@[self.parents@[i]@[k] as int].shape@,
                        ) by {
                            assert(r.fits_operand(
                                old(self).values@[i].shape@,
                                k,
                                old(self).values@[old(self).parents@[i]@[k] as int].shape@,
                            ));
                        }
                    }
                }
            }
        }
    }
}

} // verus!
