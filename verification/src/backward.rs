//! The backward pass: gradients flow from a result to everything it was
//! computed from, results before their operands.

use vstd::prelude::*;
use crate::elementwise::zipped;
use crate::error::TensorError;
use crate::grad_fn::lemma_broadcast_same;
use crate::graph::Graph;
use crate::shape::numel;
use crate::tensor::Tensor;

verus! {

impl<T: Copy> Graph<T> {
    /// Only gradients differ between `self` and `before`.
    pub open spec fn same_structure(&self, before: &Graph<T>) -> bool {
        &&& self.values == before.values
        &&& self.requires_grad == before.requires_grad
        &&& self.grad_fns == before.grad_fns
        &&& self.parents == before.parents
        &&& self.grads@.len() == before.grads@.len()
    }

    /// Node `x` carries the rule that refuses to differentiate.
    pub open spec fn refuses(&self, x: usize) -> bool {
        &&& x < self.len()
        &&& self.grad_fns@[x as int].is_some()
        &&& self.grad_fns@[x as int].unwrap() is NotImplemented
    }

    /// Something `root` depends on cannot be differentiated.
    pub open spec fn blocked(&self, root: usize) -> bool {
        exists|x: usize| self.reaches(root, x) && #[trigger] self.refuses(x)
    }

    /// Node `p` is an operand of node `n` for which gradients are followed.
    pub open spec fn feeds(&self, p: usize, n: usize, upto: int) -> bool {
        exists|k: int|
            0 <= k < upto && k < self.parents@[n as int]@.len() && (
            #[trigger] self.parents@[n as int]@[k]) == p && self.requires_grad@[p as int]
    }

    /// What operand `k` of node `n` does to the gradients: nothing when
    /// the operand does not follow gradients; otherwise the operand gets
    /// a share the rule of `n` yields for the gradient `g`, added to what
    /// it held, and every other node keeps what it held.
    pub open spec fn operand_step<F: Fn(T, T) -> T, M: Fn(T, T) -> T>(
        &self,
        n: usize,
        k: int,
        g: &Tensor<T>,
        zero: T,
        plus: F,
        times: M,
        prev: Seq<Option<Tensor<T>>>,
        next: Seq<Option<Tensor<T>>>,
    ) -> bool {
        let p = self.parents@[n as int]@[k];
        let rule = self.grad_fns@[n as int].unwrap();
        if !self.requires_grad@[p as int] {
            next == prev
        } else {
            exists|share: Tensor<T>| #[trigger]
                rule.yields(k, g, self.values@[p as int].shape@, zero, plus, times, &share)
                    && next.len() == prev.len() && joined(
                    prev[p as int],
                    &share,
                    plus,
                    next[p as int],
                ) && forall|i: int| 0 <= i < prev.len() && i != p ==> next[i] == prev[i]
        }
    }

    /// `steps` lists the gradients of all nodes before the first operand
    /// of node `n` has been served and after each operand has been, in
    /// the order of the operands; `g` is the gradient `n` hands on.
    pub open spec fn is_share_trace<F: Fn(T, T) -> T, M: Fn(T, T) -> T>(
        &self,
        n: usize,
        g: &Tensor<T>,
        zero: T,
        plus: F,
        times: M,
        steps: Seq<Seq<Option<Tensor<T>>>>,
    ) -> bool {
        &&& steps.len() == self.parents@[n as int]@.len() + 1
        &&& steps[0] == self.grads@
        &&& forall|k: int|
            0 <= k < self.parents@[n as int]@.len() ==> self.operand_step(
                n,
                k,
                g,
                zero,
                plus,
                times,
                #[trigger] steps[k],
                steps[k + 1],
            )
    }

    /// `after` is `self` once node `n` has handed its gradient on: a node
    /// without gradient or without rule changes nothing; otherwise a copy
    /// of the gradient of `n` is taken through the rule once for each
    /// operand, in the order of the operands.
    pub open spec fn passes_on<F: Fn(T, T) -> T, M: Fn(T, T) -> T>(
        &self,
        n: usize,
        zero: T,
        plus: F,
        times: M,
        after: &Graph<T>,
    ) -> bool {
        &&& after.same_structure(self)
        &&& if self.grads@[n as int].is_none() || self.grad_fns@[n as int].is_none() {
            after.grads@ == self.grads@
        } else {
            exists|g: Tensor<T>, steps: Seq<Seq<Option<Tensor<T>>>>| #[trigger]
                self.is_share_trace(n, &g, zero, plus, times, steps) && copy_of(
                    &g,
                    &self.grads@[n as int].unwrap(),
                ) && steps.last() == after.grads@
        }
    }

    /// Hands the gradient of node `n` on to its operands: each operand
    /// that follows gradients gets its share, brought to its own shape,
    /// added to what it already holds. Does nothing when `n` has no
    /// gradient or no rule. Fails, changing nothing, with
    /// `IndexOutOfBounds` when `n` is no node and with
    /// `GradientNotImplemented` when the rule of `n` refuses to differentiate.
    pub fn propagate<F: Fn(T, T) -> T + Copy, M: Fn(T, T) -> T + Copy>(
        &mut self,
        n: usize,
        zero: T,
        plus: F,
        times: M,
    ) -> (r: Result<(), TensorError>)
        requires
            old(self).wf(),
            forall|x: T, y: T| plus.requires((x, y)),
            forall|x: T, y: T| times.requires((x, y)),
        ensures
            n >= old(self).len() ==> r == Err::<(), TensorError>(TensorError::IndexOutOfBounds),
            old(self).refuses(n) ==> r == Err::<(), TensorError>(
                TensorError::GradientNotImplemented,
            ),
            n < old(self).len() && !old(self).refuses(n) ==> r.is_ok(),
            r.is_err() ==> *final(self) == *old(self),
            final(self).wf(),
            final(self).same_structure(old(self)),
            r.is_ok() ==> old(self).passes_on(n, zero, plus, times, final(self)),
            r.is_ok() && (old(self).grads@[n as int].is_none() || old(self).grad_fns@[n as int].is_none())
                ==> final(self).grads@ == old(self).grads@,
            r.is_ok() && old(self).grads@[n as int].is_some() && old(self).grad_fns@[n as int].is_some()
                ==> forall|p: usize|
                p < old(self).len() ==> {
                    if old(self).feeds(p, n, old(self).parents@[n as int]@.len() as int) {
                        (#[trigger] final(self).grads@[p as int]).is_some()
                    } else {
                        final(self).grads@[p as int] == old(self).grads@[p as int]
                    }
                },
    {
        if n >= self.values.len() {
            return Err(TensorError::IndexOutOfBounds);
        }
        let stubbed = match &self.grad_fns[n] {
            Some(rule) => rule.is_not_implemented(),
            None => false,
        };
        if stubbed {
            return Err(TensorError::GradientNotImplemented);
        }
        proof {
            assert(self.node_ok(n as int));
        }
        let g = match &self.grads[n] {
            Some(g) => g.duplicate(),
            None => {
                return Ok(());
            },
        };
        let count = self.parents[n].len();
        let total_nodes = self.values.len();
        let mut k: usize = 0;
        let ghost mut steps: Seq<Seq<Option<Tensor<T>>>> = seq![self.grads@];
        while k < count
            invariant
                self.wf(),
                total_nodes == self.len(),
                steps.len() == k + 1,
                steps[0] == old(self).grads@,
                steps[k as int] == self.grads@,
                copy_of(&g, &old(self).grads@[n as int].unwrap()),
                forall|j: int|
                    0 <= j < k ==> old(self).operand_step(
                        n,
                        j,
                        &g,
                        zero,
                        plus,
                        times,
                        #[trigger] steps[j],
                        steps[j + 1],
                    ),
                self.same_structure(old(self)),
                old(self).wf(),
                n < self.len(),
                !self.refuses(n),
                count == self.parents@[n as int]@.len(),
                k <= count,
                g.wf(),
                g.shape@ == self.values@[n as int].shape@,
                old(self).grads@[n as int].is_some(),
                forall|x: T, y: T| plus.requires((x, y)),
                forall|x: T, y: T| times.requires((x, y)),
                forall|p: usize|
                    p < self.len() ==> {
                        if old(self).feeds(p, n, k as int) {
                            (#[trigger] self.grads@[p as int]).is_some()
                        } else {
                            self.grads@[p as int] == old(self).grads@[p as int]
                        }
                    },
            decreases count - k,
        {
            let p = self.parents[n][k];
            proof {
                assert(self.node_ok(n as int));
                assert(self.parents@[n as int]@[k as int] < n);
                assert(self.node_ok(p as int));
            }
            if self.requires_grad[p] {
                let share = match &self.grad_fns[n] {
                    Some(rule) => {
                        proof {
                            assert(rule.fits_operand(
                                self.values@[n as int].shape@,
                                k as int,
                                self.values@[self.parents@[n as int]@[k as int] as int].shape@,
                            ));
                        }
                        match rule.contribution(
                            k,
                            &g,
                            self.values[p].shape.as_slice(),
                            zero,
                            plus,
                            times,
                        ) {
                            Ok(c) => c,
                            Err(_) => unreached(),
                        }
                    },
                    None => unreached(),
                };
                let ghost given = share;
                let total = match &self.grads[p] {
                    Some(held) => {
                        proof {
                            lemma_broadcast_same(held.shape@);
                        }
                        match held.zip_with(&share, plus) {
                            Ok(sum) => sum,
                            Err(_) => unreached(),
                        }
                    },
                    None => share,
                };
                let ghost before = *self;
                self.grads.set(p, Some(total));
                proof {
                    let prev = before.grads@;
                    let next = self.grads@;
                    assert(old(self).grad_fns@[n as int].unwrap().yields(
                        k as int,
                        &g,
                        old(self).values@[p as int].shape@,
                        zero,
                        plus,
                        times,
                        &given,
                    ) && next.len() == prev.len() && joined(prev[p as int], &given, plus, next[p as int])
                        && forall|i: int| 0 <= i < prev.len() && i != p ==> next[i] == prev[i]);
                    assert(old(self).operand_step(n, k as int, &g, zero, plus, times, prev, next));
                    steps = steps.push(next);
                    assert forall|i: int| 0 <= i < self.len() implies #[trigger] self.node_ok(
                        i,
                    ) by {
                        assert(before.node_ok(i));
                    }
                    assert forall|q: usize| q < self.len() implies {
                        if old(self).feeds(q, n, k + 1) {
                            (#[trigger] self.grads@[q as int]).is_some()
                        } else {
                            self.grads@[q as int] == old(self).grads@[q as int]
                        }
                    } by {
                        if q == p {
                            assert(old(self).feeds(q, n, k + 1));
                        } else {
                            assert(old(self).feeds(q, n, k + 1) == old(self).feeds(q, n, k as int));
                        }
                    }
                }
            } else {
                proof {
                    assert forall|q: usize| q < self.len() implies (old(self).feeds(q, n, k + 1)
                        == old(self).feeds(q, n, k as int)) by {}
                    assert(old(self).operand_step(
                        n,
                        k as int,
                        &g,
                        zero,
                        plus,
                        times,
                        self.grads@,
                        self.grads@,
                    ));
                    steps = steps.push(self.grads@);
                }
            }
            k += 1;
        }
        proof {
            if old(self).grad_fns@[n as int].is_some() {
                assert(old(self).is_share_trace(n, &g, zero, plus, times, steps) && copy_of(
                    &g,
                    &old(self).grads@[n as int].unwrap(),
                ) && steps.last() == self.grads@);
            }
            if old(self).grad_fns@[n as int].is_none() {
                assert(count == 0);
                assert forall|i: int| 0 <= i < self.grads@.len() implies self.grads@[i] == old(
                    self,
                ).grads@[i] by {
                    let p = i as usize;
                    assert(!old(self).feeds(p, n, 0));
                    assert(self.grads@[p as int] == old(self).grads@[p as int]);
                }
                assert(self.grads@ =~= old(self).grads@);
            }
        }
        Ok(())
    }

    /// Additivity: when node `n` has the same operand `p` in both places
    /// and `p` held no gradient, `p` ends up with the elementwise sum of
    /// the two shares the rule of `n` yields for its two places.
    pub proof fn lemma_two_shares_add<F: Fn(T, T) -> T, M: Fn(T, T) -> T>(
        &self,
        n: usize,
        p: usize,
        zero: T,
        plus: F,
        times: M,
        after: &Graph<T>,
    )
        requires
            self.wf(),
            n < self.len(),
            self.parents@[n as int]@ == seq![p, p],
            self.requires_grad@[p as int],
            self.grads@[n as int].is_some(),
            self.grads@[p as int].is_none(),
            self.passes_on(n, zero, plus, times, after),
        ensures
            exists|g: Tensor<T>, first: Tensor<T>, second: Tensor<T>|
                copy_of(&g, &self.grads@[n as int].unwrap()) && #[trigger] self.two_shares(
                    n,
                    p,
                    &g,
                    zero,
                    plus,
                    times,
                    &first,
                    &second,
                ) && after.grads@[p as int].is_some() && zipped(
                    &first,
                    &second,
                    plus,
                    &after.grads@[p as int].unwrap(),
                ),
    {
        assert(self.node_ok(n as int));
        let (g, steps) = choose|g: Tensor<T>, steps: Seq<Seq<Option<Tensor<T>>>>| #[trigger]
            self.is_share_trace(n, &g, zero, plus, times, steps) && copy_of(
                &g,
                &self.grads@[n as int].unwrap(),
            ) && steps.last() == after.grads@;
        let rule = self.grad_fns@[n as int].unwrap();
        let shape = self.values@[p as int].shape@;
        assert(self.operand_step(n, 0, &g, zero, plus, times, steps[0], steps[1]));
        assert(self.operand_step(n, 1, &g, zero, plus, times, steps[1], steps[2]));
        let first = choose|share: Tensor<T>| #[trigger]
            rule.yields(0, &g, shape, zero, plus, times, &share) && steps[1].len()
                == steps[0].len() && joined(steps[0][p as int], &share, plus, steps[1][p as int])
                && forall|i: int| 0 <= i < steps[0].len() && i != p ==> steps[1][i] == steps[0][i];
        let second = choose|share: Tensor<T>| #[trigger]
            rule.yields(1, &g, shape, zero, plus, times, &share) && steps[2].len()
                == steps[1].len() && joined(steps[1][p as int], &share, plus, steps[2][p as int])
                && forall|i: int| 0 <= i < steps[1].len() && i != p ==> steps[2][i] == steps[1][i];
        assert(steps[1][p as int].unwrap() == first);
        assert(self.two_shares(n, p, &g, zero, plus, times, &first, &second));
    }

    /// `first` and `second` are shares the rule of node `n` yields for
    /// its first and its second operand, both being node `p`, when `g`
    /// arrives.
    pub open spec fn two_shares<F: Fn(T, T) -> T, M: Fn(T, T) -> T>(
        &self,
        n: usize,
        p: usize,
        g: &Tensor<T>,
        zero: T,
        plus: F,
        times: M,
        first: &Tensor<T>,
        second: &Tensor<T>,
    ) -> bool {
        let rule = self.grad_fns@[n as int].unwrap();
        let shape = self.values@[p as int].shape@;
        &&& rule.yields(0, g, shape, zero, plus, times, first)
        &&& rule.yields(1, g, shape, zero, plus, times, second)
    }

    /// A node other than `root` that `root` depends on is an operand of
    /// some node `root` depends on.
    pub proof fn lemma_has_user(&self, root: usize, x: usize)
        requires
            self.wf(),
            self.reaches(root, x),
            x != root,
        ensures
            exists|y: usize, k: int|
                self.reaches(root, y) && y < self.len() && 0 <= k < self.parents@[y as int]@.len()
                    && #[trigger] self.parents@[y as int]@[k] == x,
        decreases root,
    {
        let k = choose|k: int|
            0 <= k < self.parents@[root as int]@.len() && (#[trigger] self.parents@[root as int]@[k])
                < root && self.reaches(self.parents@[root as int]@[k], x);
        let p = self.parents@[root as int]@[k];
        if p == x {
            assert(self.reaches(root, root));
            assert(self.parents@[root as int]@[k] == x);
        } else {
            self.lemma_has_user(p, x);
            let (y, j) = choose|y: usize, j: int|
                self.reaches(p, y) && y < self.len() && 0 <= j < self.parents@[y as int]@.len()
                    && #[trigger] self.parents@[y as int]@[j] == x;
            assert(self.reaches(root, y)) by {
                self.lemma_reaches_chain(root, k, y);
            }
            assert(self.parents@[y as int]@[j] == x);
        }
    }

    /// What an operand depends on, the node depends on.
    pub proof fn lemma_reaches_chain(&self, n: usize, k: int, x: usize)
        requires
            n < self.len(),
            0 <= k < self.parents@[n as int]@.len(),
            self.parents@[n as int]@[k] < n,
            self.reaches(self.parents@[n as int]@[k], x),
        ensures
            self.reaches(n, x),
    {
    }

    /// `start` is `self` with the gradient of `root` set to ones and
    /// every other gradient as it was.
    pub open spec fn seeds(&self, root: usize, one: T, start: &Graph<T>) -> bool {
        &&& start.same_structure(self)
        &&& start.seeded(root, one)
        &&& forall|i: int|
            0 <= i < self.grads@.len() && i != root ==> start.grads@[i] == self.grads@[i]
    }

    /// `trace` lists the graph after seeding and after each node of
    /// `order` has handed its gradient on, the last node of `order` first.
    pub open spec fn is_pass_trace<F: Fn(T, T) -> T, M: Fn(T, T) -> T>(
        &self,
        root: usize,
        order: Seq<usize>,
        one: T,
        zero: T,
        plus: F,
        times: M,
        trace: Seq<Graph<T>>,
    ) -> bool {
        &&& trace.len() == order.len() + 1
        &&& self.seeds(root, one, &trace[0])
        &&& forall|j: int|
            0 <= j < order.len() ==> (#[trigger] trace[j]).passes_on(
                order[order.len() - 1 - j],
                zero,
                plus,
                times,
                &trace[j + 1],
            )
    }

    /// `after` is what the backward pass from `root` makes of `self`: the
    /// gradient of `root` is set to ones, then the nodes of the
    /// depth-first post-order of `root` hand their gradients on, from
    /// `root` back to the leaves.
    pub open spec fn backward_of<F: Fn(T, T) -> T, M: Fn(T, T) -> T>(
        &self,
        root: usize,
        one: T,
        zero: T,
        plus: F,
        times: M,
        after: &Graph<T>,
    ) -> bool {
        exists|trace: Seq<Graph<T>>| #[trigger]
            self.is_pass_trace(root, self.post_order(root), one, zero, plus, times, trace)
                && trace.last() == *after
    }

    /// Runs the backward pass from `root`.
    ///
    /// The nodes `root` depends on are put in depth-first post-order, the
    /// gradient of `root` is set to ones, and the nodes are gone through
    /// from `root` back to the leaves: each hands its gradient on to its
    /// operands through its rule. Gradients already present in other
    /// nodes are added to, never replaced.
    ///
    /// Fails, leaving the graph as it was, with `IndexOutOfBounds` when
    /// `root` is no node, with `NoGradientPath` when `root` does not
    /// follow gradients, and with `GradientNotImplemented` when `root`
    /// depends on a node whose rule refuses to differentiate.
    pub fn backward<F: Fn(T, T) -> T + Copy, M: Fn(T, T) -> T + Copy>(
        &mut self,
        root: usize,
        one: T,
        zero: T,
        plus: F,
        times: M,
    ) -> (r: Result<(), TensorError>)
        requires
            old(self).wf(),
            forall|x: T, y: T| plus.requires((x, y)),
            forall|x: T, y: T| times.requires((x, y)),
        ensures
            root >= old(self).len() ==> r == Err::<(), TensorError>(TensorError::IndexOutOfBounds),
            root < old(self).len() && !old(self).requires_grad@[root as int] ==> r == Err::<
                (),
                TensorError,
            >(TensorError::NoGradientPath),
            root < old(self).len() && old(self).requires_grad@[root as int] && old(self).blocked(
                root,
            ) ==> r == Err::<(), TensorError>(TensorError::GradientNotImplemented),
            root < old(self).len() && old(self).requires_grad@[root as int] && !old(self).blocked(
                root,
            ) ==> r.is_ok(),
            r.is_err() ==> *final(self) == *old(self),
            r.is_ok() ==> old(self).backward_of(root, one, zero, plus, times, final(self)),
            r.is_ok() ==> {
                &&& final(self).wf()
                &&& final(self).same_structure(old(self))
                &&& final(self).seeded(root, one)
                &&& forall|x: usize|
                    x < old(self).len() ==> {
                        if old(self).reaches(root, x) && old(self).requires_grad@[x as int] {
                            (#[trigger] final(self).grads@[x as int]).is_some()
                        } else {
                            final(self).grads@[x as int] == old(self).grads@[x as int]
                        }
                    }
            },
    {
        let len = self.values.len();
        if root >= len {
            return Err(TensorError::IndexOutOfBounds);
        }
        if !self.requires_grad[root] {
            return Err(TensorError::NoGradientPath);
        }
        let order = match self.build_topo(root) {
            Ok(order) => order,
            Err(e) => {
                return Err(e);
            },
        };
        let mut s: usize = 0;
        while s < order.len()
            invariant
                self.wf(),
                *self == *old(self),
                root < self.len(),
                self.requires_grad@[root as int],
                self.is_topological(root, order@),
                s <= order.len(),
                forall|q: int| 0 <= q < s ==> !self.refuses(#[trigger] order@[q]),
            decreases order.len() - s,
        {
            let x = order[s];
            let stubbed = match &self.grad_fns[x] {
                Some(rule) => rule.is_not_implemented(),
                None => false,
            };
            if stubbed {
                proof {
                    assert(order@.contains(x));
                    assert(self.reaches(root, x) && self.refuses(x));
                }
                return Err(TensorError::GradientNotImplemented);
            }
            s += 1;
        }
        proof {
            if self.blocked(root) {
                let x = choose|x: usize| self.reaches(root, x) && #[trigger] self.refuses(x);
                assert(order@.contains(x));
                let q = choose|q: int| 0 <= q < order@.len() && order@[q] == x;
                assert(!self.refuses(order@[q]));
            }
            assert(self.node_ok(root as int));
        }
        let seed = Tensor::ones(self.values[root].shape.as_slice(), one);
        self.grads.set(root, Some(seed));
        proof {
            assert forall|i: int| 0 <= i < self.len() implies #[trigger] self.node_ok(i) by {
                assert(old(self).node_ok(i));
            }
            assert forall|x: usize| self.reaches(root, x) == old(self).reaches(root, x) by {
                self.lemma_same_reach(old(self), root, x);
            }
        }
        let mut pos: usize = order.len();
        let ghost mut trace: Seq<Graph<T>> = seq![*self];
        proof {
            assert(old(self).seeds(root, one, &trace[0]));
            assert forall|x: usize|
                x < len && self.requires_grad@[x as int] && old(self).awaited(
                    x,
                    root,
                    order@,
                    order@.len() as int,
                ) implies (#[trigger] self.grads@[x as int]).is_some() by {}
        }
        while pos > 0
            invariant
                old(self).wf(),
                len == old(self).len(),
                root < len,
                old(self).requires_grad@[root as int],
                old(self).is_topological(root, order@),
                forall|q: int| 0 <= q < order@.len() ==> !old(self).refuses(#[trigger] order@[q]),
                pos <= order.len(),
                old(self).pass_state(self, root, order@, pos as int, one),
                order@ == old(self).post_order(root),
                trace.len() == order@.len() - pos + 1,
                old(self).seeds(root, one, &trace[0]),
                trace.last() == *self,
                forall|j: int|
                    0 <= j < order@.len() - pos ==> (#[trigger] trace[j]).passes_on(
                        order@[order@.len() - 1 - j],
                        zero,
                        plus,
                        times,
                        &trace[j + 1],
                    ),
                forall|x: T, y: T| plus.requires((x, y)),
                forall|x: T, y: T| times.requires((x, y)),
            decreases pos,
        {
            pos -= 1;
            let n = order[pos];
            let ghost before = *self;
            proof {
                assert(!old(self).refuses(order@[pos as int]));
            }
            let step = self.propagate(n, zero, plus, times);
            proof {
                assert(before.refuses(n) == old(self).refuses(n));
                assert(step.is_ok());
                old(self).lemma_step(&before, self, root, order@, pos as int, one);
                let done = trace.len() - 1;
                assert(trace[done] == before);
                trace = trace.push(*self);
                assert(trace[done].passes_on(
                    order@[order@.len() - 1 - done],
                    zero,
                    plus,
                    times,
                    &trace[done + 1],
                ));
            }
        }
        proof {
            assert(old(self).is_pass_trace(
                root,
                old(self).post_order(root),
                one,
                zero,
                plus,
                times,
                trace,
            ) && trace.last() == *self);
            assert forall|x: usize| x < len implies {
                if old(self).reaches(root, x) && old(self).requires_grad@[x as int] {
                    (#[trigger] self.grads@[x as int]).is_some()
                } else {
                    self.grads@[x as int] == old(self).grads@[x as int]
                }
            } by {
                if old(self).reaches(root, x) {
                    old(self).lemma_all_awaited(root, order@, x);
                }
            }
        }
        Ok(())
    }

    /// Runs the backward pass from `root` and, unless `retain_graph` is
    /// set, then drops the history of every node `root` depends on, so
    /// that the memory of the graph can be given back. Gradients stay.
    /// Fails as `backward` does, leaving the graph as it was.
    pub fn backward_with_options<F: Fn(T, T) -> T + Copy, M: Fn(T, T) -> T + Copy>(
        &mut self,
        root: usize,
        retain_graph: bool,
        one: T,
        zero: T,
        plus: F,
        times: M,
    ) -> (r: Result<(), TensorError>)
        requires
            old(self).wf(),
            forall|x: T, y: T| plus.requires((x, y)),
            forall|x: T, y: T| times.requires((x, y)),
        ensures
            root >= old(self).len() ==> r == Err::<(), TensorError>(TensorError::IndexOutOfBounds),
            root < old(self).len() && !old(self).requires_grad@[root as int] ==> r == Err::<
                (),
                TensorError,
            >(TensorError::NoGradientPath),
            root < old(self).len() && old(self).requires_grad@[root as int] && old(self).blocked(
                root,
            ) ==> r == Err::<(), TensorError>(TensorError::GradientNotImplemented),
            root < old(self).len() && old(self).requires_grad@[root as int] && !old(self).blocked(
                root,
            ) ==> r.is_ok(),
            r.is_err() ==> *final(self) == *old(self),
            r.is_ok() ==> final(self).wf(),
            r.is_ok() && retain_graph ==> old(self).backward_of(
                root,
                one,
                zero,
                plus,
                times,
                final(self),
            ),
            r.is_ok() && !retain_graph ==> exists|done: Graph<T>| #[trigger]
                old(self).backward_of(root, one, zero, plus, times, &done) && final(self).forgot(&done, root),
    {
        match self.backward(root, one, zero, plus, times) {
            Ok(()) => {},
            Err(e) => {
                return Err(e);
            },
        }
        if retain_graph {
            return Ok(());
        }
        let ghost done = *self;
        let order = match self.build_topo(root) {
            Ok(order) => order,
            Err(_) => Vec::new(),
        };
        let mut s: usize = 0;
        while s < order.len()
            invariant
                self.wf(),
                done.wf(),
                root < done.len(),
                done.is_topological(root, order@),
                s <= order.len(),
                self.values == done.values,
                self.requires_grad == done.requires_grad,
                self.grads == done.grads,
                self.grad_fns@.len() == done.grad_fns@.len(),
                self.parents@.len() == done.parents@.len(),
                forall|i: usize|
                    i < done.len() ==> {
                        if order@.subrange(0, s as int).contains(i) {
                            (#[trigger] self.grad_fns@[i as int]).is_none()
                                && self.parents@[i as int]@.len() == 0
                        } else {
                            self.grad_fns@[i as int] == done.grad_fns@[i as int]
                                && self.parents@[i as int] == done.parents@[i as int]
                        }
                    },
            decreases order.len() - s,
        {
            let x = order[s];
            let ghost before = *self;
            self.clear_graph(x);
            proof {
                let seen = order@.subrange(0, s as int);
                let more = order@.subrange(0, s + 1);
                assert(more =~= seen.push(x));
                assert forall|i: usize| i < done.len() implies {
                    if more.contains(i) {
                        (#[trigger] self.grad_fns@[i as int]).is_none()
                            && self.parents@[i as int]@.len() == 0
                    } else {
                        self.grad_fns@[i as int] == done.grad_fns@[i as int]
                            && self.parents@[i as int] == done.parents@[i as int]
                    }
                } by {
                    if more.contains(i) {
                        let q = choose|q: int| 0 <= q < more.len() && more[q] == i;
                        if q < s {
                            assert(seen[q] == i);
                            assert(seen.contains(i));
                        }
                    } else {
                        if seen.contains(i) {
                            let q = choose|q: int| 0 <= q < seen.len() && seen[q] == i;
                            assert(more[q] == i);
                        }
                        assert(more[s as int] == x);
                    }
                }
            }
            s += 1;
        }
        proof {
            assert(order@.subrange(0, order@.len() as int) =~= order@);
            assert(self.forgot(&done, root)) by {
                assert forall|i: usize| i < done.len() implies {
                    if done.reaches(root, i) {
                        (#[trigger] self.grad_fns@[i as int]).is_none()
                            && self.parents@[i as int]@.len() == 0
                    } else {
                        self.grad_fns@[i as int] == done.grad_fns@[i as int]
                            && self.parents@[i as int] == done.parents@[i as int]
                    }
                } by {
                    assert(order@.contains(i) == done.reaches(root, i));
                }
            }
        }
        Ok(())
    }

    /// `self` is `done` with the history of every node `root` depends on
    /// dropped: those nodes have neither rule nor operands, everything
    /// else, gradients included, is as in `done`.
    pub open spec fn forgot(&self, done: &Graph<T>, root: usize) -> bool {
        &&& self.values == done.values
        &&& self.requires_grad == done.requires_grad
        &&& self.grads == done.grads
        &&& self.grad_fns@.len() == done.grad_fns@.len()
        &&& self.parents@.len() == done.parents@.len()
        &&& forall|i: usize|
            i < done.len() ==> {
                if done.reaches(root, i) {
                    (#[trigger] self.grad_fns@[i as int]).is_none()
                        && self.parents@[i as int]@.len() == 0
                } else {
                    self.grad_fns@[i as int] == done.grad_fns@[i as int]
                        && self.parents@[i as int] == done.parents@[i as int]
                }
            }
    }

    /// The gradient of `root` is the tensor of ones of the shape of its value.
    pub open spec fn seeded(&self, root: usize, one: T) -> bool {
        &&& self.grads@[root as int].is_some()
        &&& self.grads@[root as int].unwrap().contiguous()
        &&& self.grads@[root as int].unwrap().shape@ == self.values@[root as int].shape@
        &&& forall|l: int|
            0 <= l < numel(self.values@[root as int].shape@) ==> (
            #[trigger] self.grads@[root as int].unwrap().elements()[l]) == one
    }

    /// Node `x` is due a gradient once the nodes from position `pos` on
    /// have been gone through: it is `root`, or an operand of one of them.
    pub open spec fn awaited(&self, x: usize, root: usize, order: Seq<usize>, pos: int) -> bool {
        x == root || exists|q: int, k: int|
            pos <= q < order.len() && 0 <= k < self.parents@[order[q] as int]@.len() && (
            #[trigger] self.parents@[order[q] as int]@[k]) == x
    }

    /// Graphs with the same operands have the same dependencies.
    pub proof fn lemma_same_reach(&self, other: &Graph<T>, n: usize, x: usize)
        requires
            self.parents == other.parents,
            self.values@.len() == other.values@.len(),
        ensures
            self.reaches(n, x) == other.reaches(n, x),
        decreases n,
    {
        if n != x && n < self.len() {
            if self.reaches(n, x) {
                let k = choose|k: int|
                    0 <= k < self.parents@[n as int]@.len() && (
                    #[trigger] self.parents@[n as int]@[k]) < n && self.reaches(
                        self.parents@[n as int]@[k],
                        x,
                    );
                self.lemma_same_reach(other, self.parents@[n as int]@[k], x);
                assert(other.parents@[n as int]@[k] < n);
            }
            if other.reaches(n, x) {
                let k = choose|k: int|
                    0 <= k < other.parents@[n as int]@.len() && (
                    #[trigger] other.parents@[n as int]@[k]) < n && other.reaches(
                        other.parents@[n as int]@[k],
                        x,
                    );
                self.lemma_same_reach(other, other.parents@[n as int]@[k], x);
                assert(self.parents@[n as int]@[k] < n);
            }
        }
    }

    /// What holds between the steps of the backward pass: nodes outside
    /// the reach of `root`, and nodes that do not follow gradients, hold
    /// what they held at the start, and every node that is due a
    /// gradient has one.
    pub open spec fn pass_state(
        &self,
        now: &Graph<T>,
        root: usize,
        order: Seq<usize>,
        pos: int,
        one: T,
    ) -> bool {
        &&& now.wf()
        &&& now.same_structure(self)
        &&& now.seeded(root, one)
        &&& forall|x: usize|
            x < self.len() && !(self.reaches(root, x) && self.requires_grad@[x as int]) ==> (
            #[trigger] now.grads@[x as int]) == self.grads@[x as int]
        &&& forall|x: usize|
            x < self.len() && self.requires_grad@[x as int] && self.awaited(x, root, order, pos)
                ==> (#[trigger] now.grads@[x as int]).is_some()
    }

    /// A node in the order that is not `root` is an operand of a node
    /// that stands later in the order.
    pub proof fn lemma_user_is_later(&self, root: usize, order: Seq<usize>, pos: int)
        requires
            self.wf(),
            root < self.len(),
            self.is_topological(root, order),
            0 <= pos < order.len(),
            order[pos] != root,
        ensures
            exists|q: int, k: int|
                pos < q < order.len() && 0 <= k < self.parents@[order[q] as int]@.len() && (
                #[trigger] self.parents@[order[q] as int]@[k]) == order[pos],
    {
        let n = order[pos];
        assert(order.contains(n));
        self.lemma_has_user(root, n);
        let (y, k) = choose|y: usize, k: int|
            self.reaches(root, y) && y < self.len() && 0 <= k < self.parents@[y as int]@.len()
                && #[trigger] self.parents@[y as int]@[k] == n;
        assert(order.contains(y));
        let q = choose|q: int| 0 <= q < order.len() && order[q] == y;
        assert(order.subrange(0, q).contains(self.parents@[order[q] as int]@[k]));
        let at = choose|at: int| 0 <= at < order.subrange(0, q).len() && order.subrange(0, q)[at] == n;
        assert(order[at] == n);
        assert(at == pos);
        assert(self.parents@[order[q] as int]@[k] == order[pos]);
    }

    /// One step of the backward pass keeps `pass_state`.
    pub proof fn lemma_step(
        &self,
        before: &Graph<T>,
        after: &Graph<T>,
        root: usize,
        order: Seq<usize>,
        pos: int,
        one: T,
    )
        requires
            self.wf(),
            root < self.len(),
            self.requires_grad@[root as int],
            self.is_topological(root, order),
            0 <= pos < order.len(),
            self.pass_state(before, root, order, pos + 1, one),
            after.wf(),
            after.same_structure(before),
            before.grads@[order[pos] as int].is_none() || before.grad_fns@[order[pos] as int].is_none()
                ==> after.grads@ == before.grads@,
            before.grads@[order[pos] as int].is_some() && before.grad_fns@[order[pos] as int].is_some()
                ==> forall|p: usize|
                p < before.len() ==> {
                    if before.feeds(
                        p,
                        order[pos],
                        before.parents@[order[pos] as int]@.len() as int,
                    ) {
                        (#[trigger] after.grads@[p as int]).is_some()
                    } else {
                        after.grads@[p as int] == before.grads@[p as int]
                    }
                },
        ensures
            self.pass_state(after, root, order, pos, one),
    {
        let n = order[pos];
        assert(order.contains(n));
        assert(self.reaches(root, n));
        assert(self.node_ok(n as int));
        let count = self.parents@[n as int]@.len() as int;
        if n != root {
            self.lemma_user_is_later(root, order, pos);
            assert(self.awaited(n, root, order, pos + 1));
        }
        if self.grad_fns@[n as int].is_some() {
            assert(self.requires_grad@[n as int]);
            assert(self.awaited(n, root, order, pos + 1));
            assert(before.grads@[n as int].is_some());
            assert forall|p: usize| p < self.len() && before.feeds(p, n, count) implies self.reaches(
                root,
                p,
            ) && self.requires_grad@[p as int] && p != root by {
                let k = choose|k: int|
                    0 <= k < count && k < before.parents@[n as int]@.len() && (
                    #[trigger] before.parents@[n as int]@[k]) == p
                        && before.requires_grad@[p as int];
                assert(self.parents@[n as int]@[k] < n);
                self.lemma_reaches_step(root, n, k);
                self.lemma_reaches_below(root, n);
            }
            assert forall|x: usize|
                x < self.len() && self.requires_grad@[x as int] && self.awaited(
                    x,
                    root,
                    order,
                    pos,
                ) implies (#[trigger] after.grads@[x as int]).is_some() by {
                if !self.awaited(x, root, order, pos + 1) {
                    let (q, k) = choose|q: int, k: int|
                        pos <= q < order.len() && 0 <= k < self.parents@[order[q] as int]@.len()
                            && (#[trigger] self.parents@[order[q] as int]@[k]) == x;
                    assert(q == pos);
                    assert(before.parents@[n as int]@[k] == x);
                    assert(before.feeds(x, n, count));
                }
            }
        } else {
            assert(count == 0);
            assert forall|x: usize|
                x < self.len() && self.requires_grad@[x as int] && self.awaited(
                    x,
                    root,
                    order,
                    pos,
                ) implies self.awaited(x, root, order, pos + 1) by {
                if x != root {
                    let (q, k) = choose|q: int, k: int|
                        pos <= q < order.len() && 0 <= k < self.parents@[order[q] as int]@.len()
                            && (#[trigger] self.parents@[order[q] as int]@[k]) == x;
                    assert(q != pos);
                    assert(self.parents@[order[q] as int]@[k] == x);
                }
            }
        }
    }

    /// The operands of a node `root` depends on are nodes `root` depends on.
    pub proof fn lemma_reaches_step(&self, root: usize, n: usize, k: int)
        requires
            self.wf(),
            n < self.len(),
            self.reaches(root, n),
            0 <= k < self.parents@[n as int]@.len(),
        ensures
            self.reaches(root, self.parents@[n as int]@[k]),
        decreases root,
    {
        assert(self.node_ok(n as int));
        let p = self.parents@[n as int]@[k];
        assert(self.reaches(p, p));
        if root == n {
            assert(self.parents@[n as int]@[k] < n);
        } else {
            let j = choose|j: int|
                0 <= j < self.parents@[root as int]@.len() && (
                #[trigger] self.parents@[root as int]@[j]) < root && self.reaches(
                    self.parents@[root as int]@[j],
                    n,
                );
            self.lemma_reaches_step(self.parents@[root as int]@[j], n, k);
        }
    }

    /// Once the whole order has been gone through, every node `root`
    /// depends on was due a gradient.
    pub proof fn lemma_all_awaited(&self, root: usize, order: Seq<usize>, x: usize)
        requires
            self.wf(),
            root < self.len(),
            self.is_topological(root, order),
            self.reaches(root, x),
        ensures
            self.awaited(x, root, order, 0),
    {
        if x != root {
            assert(order.contains(x));
            let pos = choose|pos: int| 0 <= pos < order.len() && order[pos] == x;
            self.lemma_user_is_later(root, order, pos);
        }
    }
}

/// `a` and `b` hold the same buffer under the same view.
pub open spec fn copy_of<T>(a: &Tensor<T>, b: &Tensor<T>) -> bool {
    &&& a.data@ == b.data@
    &&& a.shape@ == b.shape@
    &&& a.strides@ == b.strides@
    &&& a.offset == b.offset
}

/// `total` is what a node holds after `share` has arrived: the share
/// itself when it held nothing, else the elementwise sum of what it held
/// and the share.
pub open spec fn joined<T: Copy, F: Fn(T, T) -> T>(
    held: Option<Tensor<T>>,
    share: &Tensor<T>,
    plus: F,
    total: Option<Tensor<T>>,
) -> bool {
    &&& total.is_some()
    &&& match held {
        None => total.unwrap() == *share,
        Some(h) => zipped(&h, share, plus, &total.unwrap()),
    }
}

} // verus!
