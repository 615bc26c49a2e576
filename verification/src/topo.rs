//! Ordering the nodes a result depends on, operands before results.

use vstd::prelude::*;
use crate::error::TensorError;
use crate::graph::Graph;

verus! {

impl<T: Copy> Graph<T> {
    /// `to` is `from` itself or one of the nodes `from` was computed from,
    /// directly or through other nodes.
    pub open spec fn reaches(&self, from: usize, to: usize) -> bool
        decreases from,
    {
        from == to || (from < self.len() && exists|k: int|
            0 <= k < self.parents@[from as int]@.len() && (#[trigger] self.parents@[from as int]@[k])
                < from && self.reaches(self.parents@[from as int]@[k], to))
    }

    /// The list `seen` after the first `k` operands of node `n` have been
    /// visited depth first, one after the other: an operand that is
    /// listed already is passed over, any other is visited in the same
    /// way and then appended.
    pub open spec fn walk(&self, n: usize, k: nat, seen: Seq<usize>) -> Seq<usize>
        decreases n, k,
    {
        if k == 0 {
            seen
        } else {
            let before = self.walk(n, (k - 1) as nat, seen);
            let p = self.parents@[n as int]@[k - 1];
            if p < n {
                if before.contains(p) {
                    before
                } else {
                    self.walk(p, self.parents@[p as int]@.len(), before).push(p)
                }
            } else {
                before
            }
        }
    }

    /// The list `seen` after a depth-first visit of node `n`.
    pub open spec fn visit_result(&self, n: usize, seen: Seq<usize>) -> Seq<usize> {
        if seen.contains(n) {
            seen
        } else {
            self.walk(n, self.parents@[n as int]@.len(), seen).push(n)
        }
    }

    /// The depth-first post-order of the nodes `root` depends on: the
    /// operands of a node are visited in their order, each node is
    /// listed once, after its operands.
    pub open spec fn post_order(&self, root: usize) -> Seq<usize> {
        self.visit_result(root, Seq::empty())
    }

    /// Every listed node stands after all of its operands.
    pub open spec fn operands_first(&self, order: Seq<usize>) -> bool {
        forall|pos: int, k: int|
            0 <= pos < order.len() && 0 <= k < self.parents@[order[pos] as int]@.len()
                ==> order.subrange(0, pos).contains(
                #[trigger] self.parents@[order[pos] as int]@[k],
            )
    }

    /// Every listed position is a node of the graph.
    pub open spec fn all_nodes(&self, order: Seq<usize>) -> bool {
        forall|pos: int| 0 <= pos < order.len() ==> (#[trigger] order[pos]) < self.len()
    }

    /// `order` lists exactly the nodes `root` depends on, each once, every
    /// node after its operands and `root` last.
    pub open spec fn is_topological(&self, root: usize, order: Seq<usize>) -> bool {
        &&& order.no_duplicates()
        &&& self.all_nodes(order)
        &&& forall|x: usize| order.contains(x) <==> self.reaches(root, x)
        &&& self.operands_first(order)
        &&& order.len() > 0
        &&& order.last() == root
    }

    /// A list that holds a node together with all operands of its nodes
    /// holds everything the node depends on.
    pub proof fn lemma_closed_holds_reachable(&self, order: Seq<usize>, n: usize, x: usize)
        requires
            self.wf(),
            self.operands_first(order),
            self.all_nodes(order),
            order.contains(n),
            self.reaches(n, x),
        ensures
            x <= n,
            order.contains(x),
        decreases n,
    {
        if x != n {
            let k = choose|k: int|
                0 <= k < self.parents@[n as int]@.len() && (#[trigger] self.parents@[n as int]@[k])
                    < n && self.reaches(self.parents@[n as int]@[k], x);
            let p = self.parents@[n as int]@[k];
            let pos = choose|pos: int| 0 <= pos < order.len() && order[pos] == n;
            assert(order.subrange(0, pos).contains(self.parents@[order[pos] as int]@[k]));
            let q = choose|q: int|
                0 <= q < order.subrange(0, pos).len() && order.subrange(0, pos)[q] == p;
            assert(order[q] == p);
            self.lemma_closed_holds_reachable(order, p, x);
        }
    }

    /// Whatever a node depends on was created no later than the node.
    pub proof fn lemma_reaches_below(&self, n: usize, x: usize)
        requires
            self.reaches(n, x),
        ensures
            x <= n,
        decreases n,
    {
        if x != n {
            let k = choose|k: int|
                0 <= k < self.parents@[n as int]@.len() && (#[trigger] self.parents@[n as int]@[k])
                    < n && self.reaches(self.parents@[n as int]@[k], x);
            self.lemma_reaches_below(self.parents@[n as int]@[k], x);
        }
    }

    /// A node depends on whatever its operands depend on.
    pub proof fn lemma_reaches_through(&self, n: usize, k: int, x: usize)
        requires
            self.wf(),
            n < self.len(),
            0 <= k < self.parents@[n as int]@.len(),
            self.reaches(self.parents@[n as int]@[k], x),
        ensures
            self.reaches(n, x),
            self.parents@[n as int]@[k] < n,
    {
        assert(self.node_ok(n as int));
    }

    /// Depth-first visit of `node`: its operands are visited first, then
    /// the node is appended to `out`. Nodes marked in `visited` are skipped.
    fn visit(
        &self,
        node: usize,
        visited: &mut Vec<bool>,
        out: &mut Vec<usize>,
        Ghost(bound): Ghost<usize>,
    )
        requires
            self.wf(),
            node < bound <= self.len(),
            old(visited)@.len() == self.len(),
            forall|i: usize| i < bound ==> (old(visited)@[i as int] <==> old(out)@.contains(i)),
            old(out)@.no_duplicates(),
            self.all_nodes(old(out)@),
            self.operands_first(old(out)@),
        ensures
            final(visited)@.len() == self.len(),
            forall|i: usize| i < bound ==> (final(visited)@[i as int] <==> final(out)@.contains(i)),
            forall|i: usize|
                bound <= i < self.len() ==> final(visited)@[i as int] == old(visited)@[i as int],
            final(out)@.no_duplicates(),
            self.all_nodes(final(out)@),
            self.operands_first(final(out)@),
            old(out)@.len() <= final(out)@.len(),
            final(out)@.subrange(0, old(out)@.len() as int) == old(out)@,
            forall|pos: int|
                old(out)@.len() <= pos < final(out)@.len() ==> (#[trigger] final(out)@[pos])
                    <= node,
            forall|x: usize|
                final(out)@.contains(x) <==> (old(out)@.contains(x) || self.reaches(node, x)),
            final(out)@ == self.visit_result(node, old(out)@),
        decreases node,
    {
        if visited[node] {
            proof {
                assert(out@.contains(node));
                assert(out@.subrange(0, out@.len() as int) =~= out@);
                assert forall|x: usize| self.reaches(node, x) implies out@.contains(x) by {
                    self.lemma_closed_holds_reachable(out@, node, x);
                }
            }
            return ;
        }
        visited.set(node, true);
        let count = self.parents[node].len();
        let mut k: usize = 0;
        proof {
            assert(out@.subrange(0, out@.len() as int) =~= out@);
        }
        while k < count
            invariant
                self.wf(),
                node < bound <= self.len(),
                count == self.parents@[node as int]@.len(),
                k <= count,
                visited@.len() == self.len(),
                old(visited)@.len() == self.len(),
                visited@[node as int],
                !old(out)@.contains(node),
                !out@.contains(node),
                forall|i: usize| i < node ==> (visited@[i as int] <==> out@.contains(i)),
                forall|i: usize|
                    node < i < self.len() ==> visited@[i as int] == old(visited)@[i as int],
                forall|i: usize|
                    i < bound ==> (old(visited)@[i as int] <==> old(out)@.contains(i)),
                out@.no_duplicates(),
                self.all_nodes(out@),
                self.operands_first(out@),
                old(out)@.len() <= out@.len(),
                out@.subrange(0, old(out)@.len() as int) == old(out)@,
                forall|pos: int|
                    old(out)@.len() <= pos < out@.len() ==> (#[trigger] out@[pos]) < node,
                out@ == self.walk(node, k as nat, old(out)@),
                forall|x: usize|
                    out@.contains(x) <==> (old(out)@.contains(x) || exists|j: int|
                        0 <= j < k && self.reaches(
                            #[trigger] self.parents@[node as int]@[j],
                            x,
                        )),
            decreases count - k,
        {
            let p = self.parents[node][k];
            let ghost before = out@;
            proof {
                self.lemma_reaches_through(node, k as int, p);
            }
            self.visit(p, visited, out, Ghost(node));
            proof {
                assert(self.walk(node, (k + 1) as nat, old(out)@) == self.visit_result(p, before));
                assert(out@.subrange(0, old(out)@.len() as int) =~= before.subrange(
                    0,
                    old(out)@.len() as int,
                ));
                assert forall|pos: int| old(out)@.len() <= pos < out@.len() implies (
                #[trigger] out@[pos]) < node by {
                    if pos < before.len() {
                        assert(out@.subrange(0, before.len() as int)[pos] == before[pos]);
                    }
                }
                if out@.contains(node) {
                    self.lemma_reaches_below(p, node);
                }
                assert forall|x: usize|
                    out@.contains(x) <==> (old(out)@.contains(x) || exists|j: int|
                        0 <= j < k + 1 && self.reaches(
                            #[trigger] self.parents@[node as int]@[j],
                            x,
                        )) by {
                    if out@.contains(x) && !before.contains(x) {
                        assert(self.reaches(self.parents@[node as int]@[k as int], x));
                    }
                    if exists|j: int|
                        0 <= j < k + 1 && self.reaches(
                            #[trigger] self.parents@[node as int]@[j],
                            x,
                        ) {
                        let j = choose|j: int|
                            0 <= j < k + 1 && self.reaches(
                                #[trigger] self.parents@[node as int]@[j],
                                x,
                            );
                        if j < k {
                            assert(before.contains(x));
                        }
                    }
                }
            }
            k += 1;
        }
        let ghost before = out@;
        out.push(node);
        proof {
            assert(out@.subrange(0, before.len() as int) =~= before);
            assert(out@.subrange(0, old(out)@.len() as int) =~= before.subrange(
                0,
                old(out)@.len() as int,
            ));
            assert forall|x: usize| out@.contains(x) <==> (before.contains(x) || x == node) by {
                if out@.contains(x) {
                    let pos = choose|pos: int| 0 <= pos < out@.len() && out@[pos] == x;
                    if pos < before.len() {
                        assert(before[pos] == x);
                    }
                }
                if before.contains(x) {
                    let pos = choose|pos: int| 0 <= pos < before.len() && before[pos] == x;
                    assert(out@[pos] == x);
                }
                if x == node {
                    assert(out@[before.len() as int] == x);
                }
            }
            assert forall|x: usize| before.contains(x) && !old(out)@.contains(x) implies x < node
                && self.reaches(node, x) by {
                let j = choose|j: int|
                    0 <= j < count && self.reaches(#[trigger] self.parents@[node as int]@[j], x);
                self.lemma_reaches_through(node, j, x);
                self.lemma_reaches_below(self.parents@[node as int]@[j], x);
            }
            assert forall|i: usize| i < bound implies (visited@[i as int] <==> out@.contains(
                i,
            )) by {
                if i > node {
                    assert(before.contains(i) ==> old(out)@.contains(i));
                }
            }
            assert forall|x: usize|
                out@.contains(x) <==> (old(out)@.contains(x) || self.reaches(node, x)) by {
                if self.reaches(node, x) && x != node {
                    let j = choose|j: int|
                        0 <= j < self.parents@[node as int]@.len() && (
                        #[trigger] self.parents@[node as int]@[j]) < node && self.reaches(
                            self.parents@[node as int]@[j],
                            x,
                        );
                    assert(before.contains(x));
                }
            }
            assert(self.operands_first(out@)) by {
                assert forall|pos: int, j: int|
                    0 <= pos < out@.len() && 0 <= j < self.parents@[out@[pos] as int]@.len()
                    implies out@.subrange(0, pos).contains(
                    #[trigger] self.parents@[out@[pos] as int]@[j],
                ) by {
                    if pos < before.len() {
                        assert(out@[pos] == before[pos]);
                        assert(out@.subrange(0, pos) =~= before.subrange(0, pos));
                    } else {
                        let p = self.parents@[node as int]@[j];
                        assert(self.reaches(p, p));
                        assert(before.contains(p));
                        assert(out@.subrange(0, pos) =~= before);
                    }
                }
            }
            assert(out@.no_duplicates()) by {
                assert forall|a: int, b: int|
                    0 <= a < out@.len() && 0 <= b < out@.len() && a != b implies out@[a]
                    != out@[b] by {
                    if a < before.len() && b < before.len() {
                        assert(before[a] != before[b]);
                    } else if a < before.len() {
                        assert(before.contains(before[a]));
                    } else {
                        assert(before.contains(before[b]));
                    }
                }
            }
        }
    }

    /// The nodes `root` depends on, in depth-first post-order: every node
    /// after its operands, `root` last. Fails with `IndexOutOfBounds`
    /// exactly when `root` is no node.
    pub fn build_topo(&self, root: usize) -> (r: Result<Vec<usize>, TensorError>)
        requires
            self.wf(),
        ensures
            root >= self.len() ==> r == Err::<Vec<usize>, TensorError>(
                TensorError::IndexOutOfBounds,
            ),
            root < self.len() ==> r.is_ok() && r.unwrap()@ == self.post_order(root)
                && self.is_topological(root, r.unwrap()@),
    {
        let n = self.values.len();
        if root >= n {
            return Err(TensorError::IndexOutOfBounds);
        }
        let mut visited: Vec<bool> = Vec::new();
        let mut i: usize = 0;
        while i < n
            invariant
                i <= n,
                visited.len() == i,
                forall|j: int| 0 <= j < i ==> !visited[j],
            decreases n - i,
        {
            visited.push(false);
            i += 1;
        }
        let mut out: Vec<usize> = Vec::new();
        self.visit(root, &mut visited, &mut out, Ghost(n));
        proof {
            assert(self.reaches(root, root));
            assert(out@.contains(root));
            self.lemma_last_is_root(out@, root);
        }
        Ok(out)
    }

    /// In a post-order of what `root` depends on, nothing follows `root`.
    proof fn lemma_last_is_root(&self, order: Seq<usize>, root: usize)
        requires
            self.wf(),
            root < self.len(),
            order.no_duplicates(),
            order.contains(root),
            self.all_nodes(order),
            self.operands_first(order),
            forall|x: usize| order.contains(x) ==> self.reaches(root, x),
        ensures
            order.len() > 0,
            order.last() == root,
    {
        let pos = choose|pos: int| 0 <= pos < order.len() && order[pos] == root;
        if pos < order.len() - 1 {
            let later = order[order.len() - 1];
            assert(order.contains(later));
            assert(self.reaches(root, later));
            let prefix = order.subrange(0, pos + 1);
            assert(prefix[pos] == root);
            assert(prefix.contains(root));
            assert(self.operands_first(prefix)) by {
                assert forall|p: int, j: int|
                    0 <= p < prefix.len() && 0 <= j < self.parents@[prefix[p] as int]@.len()
                    implies prefix.subrange(0, p).contains(
                    #[trigger] self.parents@[prefix[p] as int]@[j],
                ) by {
                    assert(prefix[p] == order[p]);
                    assert(prefix.subrange(0, p) =~= order.subrange(0, p));
                }
            }
            assert(self.all_nodes(prefix)) by {
                assert forall|p: int| 0 <= p < prefix.len() implies (#[trigger] prefix[p])
                    < self.len() by {
                    assert(prefix[p] == order[p]);
                }
            }
            self.lemma_closed_holds_reachable(prefix, root, later);
            let q = choose|q: int| 0 <= q < prefix.len() && prefix[q] == later;
            assert(order[q] == later);
        }
    }
}

} // verus!
