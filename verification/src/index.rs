//! Multi-indices: validity, the row-major position of an index and its
//! inverse, and the storage offset of an index under arbitrary strides.

use vstd::prelude::*;
use vstd::arithmetic::div_mod::*;
use vstd::arithmetic::mul::*;
use crate::shape::{
    all_positive, lemma_numel_zero, lemma_suffix_monotone, lemma_suffix_step, numel,
    row_major_strides, suffix_numel,
};

verus! {

/// `idx` addresses one element of an array of the given shape.
pub open spec fn valid_index(idx: Seq<usize>, shape: Seq<usize>) -> bool {
    &&& idx.len() == shape.len()
    &&& forall|i: int| 0 <= i < idx.len() ==> idx[i] < shape[i]
}

/// Position of `idx` when the elements are listed in row-major order.
pub open spec fn linear_index(idx: Seq<usize>, shape: Seq<usize>) -> nat
    decreases idx.len(),
{
    if idx.len() == 0 || shape.len() == 0 {
        0
    } else {
        linear_index(idx.drop_last(), shape.drop_last()) * (shape.last() as nat) + (
        idx.last() as nat)
    }
}

/// The multi-index of the element at row-major position `l`.
pub open spec fn unravel(l: nat, shape: Seq<usize>) -> Seq<usize>
    decreases shape.len(),
{
    if shape.len() == 0 {
        Seq::empty()
    } else if shape.last() == 0 {
        unravel(0, shape.drop_last()).push(0usize)
    } else {
        unravel(l / (shape.last() as nat), shape.drop_last()).push(
            (l % (shape.last() as nat)) as usize,
        )
    }
}

/// Sum of `idx[i] * strides[i]` over the first `k` dimensions.
pub open spec fn weighted_sum(idx: Seq<usize>, strides: Seq<usize>, k: nat) -> nat
    decreases k,
{
    if k == 0 {
        0
    } else {
        weighted_sum(idx, strides, (k - 1) as nat) + (idx[k - 1] as nat) * (strides[k - 1] as nat)
    }
}

/// The element count is the count without the last dimension times its size.
pub proof fn lemma_numel_drop_last(shape: Seq<usize>)
    requires
        shape.len() > 0,
    ensures
        numel(shape) == numel(shape.drop_last()) * (shape.last() as nat),
    decreases shape.len(),
{
    if shape.len() == 1 {
        assert(numel(shape.drop_first()) == 1);
        assert(numel(shape.drop_last()) == 1);
        assert(numel(shape) == (shape[0] as nat) * numel(shape.drop_first()));
        assert(shape.last() == shape[0]);
        assert((shape[0] as nat) * 1 == 1 * (shape[0] as nat)) by (nonlinear_arith);
    } else {
        let rest = shape.drop_first();
        lemma_numel_drop_last(rest);
        assert(rest.drop_last() =~= shape.drop_last().drop_first());
        assert(rest.last() == shape.last());
        assert(shape.drop_last()[0] == shape[0]);
        assert(numel(shape.drop_last()) == (shape[0] as nat) * numel(
            shape.drop_last().drop_first(),
        ));
        assert(numel(shape) == (shape[0] as nat) * numel(rest));
        let a = shape[0] as nat;
        let b = numel(rest.drop_last());
        let c = shape.last() as nat;
        assert(numel(rest) == b * c);
        assert(numel(shape.drop_last()) == a * b);
        assert(a * (b * c) == (a * b) * c) by (nonlinear_arith);
    }
}

/// A shape with elements has no empty dimension.
pub proof fn lemma_numel_positive(shape: Seq<usize>)
    requires
        numel(shape) > 0,
    ensures
        all_positive(shape),
{
    assert forall|i: int| 0 <= i < shape.len() implies shape[i] > 0 by {
        if shape[i] == 0 {
            lemma_numel_zero(shape, i);
        }
    }
}

/// A valid index lies at a position below the element count.
pub proof fn lemma_linear_bound(idx: Seq<usize>, shape: Seq<usize>)
    requires
        valid_index(idx, shape),
    ensures
        linear_index(idx, shape) < numel(shape),
    decreases idx.len(),
{
    if idx.len() == 0 {
    } else {
        let d = shape.last() as nat;
        lemma_linear_bound(idx.drop_last(), shape.drop_last());
        lemma_numel_drop_last(shape);
        let q = linear_index(idx.drop_last(), shape.drop_last());
        let m = numel(shape.drop_last());
        assert(q * d + (idx.last() as nat) < m * d) by (nonlinear_arith)
            requires
                q < m,
                (idx.last() as nat) < d,
        ;
    }
}

/// Every position below the element count unravels to a valid index.
pub proof fn lemma_unravel_valid(l: nat, shape: Seq<usize>)
    requires
        l < numel(shape),
    ensures
        valid_index(unravel(l, shape), shape),
    decreases shape.len(),
{
    if shape.len() == 0 {
    } else {
        lemma_numel_positive(shape);
        lemma_numel_drop_last(shape);
        let d = shape.last() as nat;
        let m = numel(shape.drop_last());
        assert(l / d < m) by {
            lemma_fundamental_div_mod(l as int, d as int);
            lemma_mod_bound(l as int, d as int);
            assert(l / d < m) by (nonlinear_arith)
                requires
                    l < m * d,
                    l == d * (l / d) + l % d,
                    0 <= l % d,
                    d > 0,
            ;
        }
        lemma_unravel_valid(l / d, shape.drop_last());
        lemma_mod_bound(l as int, d as int);
        let u = unravel(l, shape);
        assert forall|i: int| 0 <= i < u.len() implies u[i] < shape[i] by {
            if i < shape.len() - 1 {
                assert(u[i] == unravel(l / d, shape.drop_last())[i]);
                assert(shape.drop_last()[i] == shape[i]);
            }
        }
    }
}

/// Unravelling the position of a valid index gives the index back.
pub proof fn lemma_unravel_linear(idx: Seq<usize>, shape: Seq<usize>)
    requires
        valid_index(idx, shape),
    ensures
        unravel(linear_index(idx, shape), shape) == idx,
    decreases idx.len(),
{
    if idx.len() == 0 {
        assert(unravel(0, shape) =~= idx);
    } else {
        let d = shape.last() as nat;
        let q = linear_index(idx.drop_last(), shape.drop_last());
        let r = idx.last() as nat;
        lemma_unravel_linear(idx.drop_last(), shape.drop_last());
        lemma_fundamental_div_mod_converse((q * d + r) as int, d as int, q as int, r as int);
        assert(unravel(q * d + r, shape) =~= idx);
    }
}

/// The position of an unravelled index is the position unravelled.
pub proof fn lemma_linear_unravel(l: nat, shape: Seq<usize>)
    requires
        l < numel(shape),
    ensures
        linear_index(unravel(l, shape), shape) == l,
    decreases shape.len(),
{
    if shape.len() == 0 {
        assert(numel(shape) == 1);
    } else {
        lemma_numel_positive(shape);
        lemma_numel_drop_last(shape);
        let d = shape.last() as nat;
        let m = numel(shape.drop_last());
        lemma_fundamental_div_mod(l as int, d as int);
        lemma_mod_bound(l as int, d as int);
        assert(l / d < m) by (nonlinear_arith)
            requires
                l < m * d,
                l == d * (l / d) + l % d,
                0 <= l % d,
                d > 0,
        ;
        lemma_linear_unravel(l / d, shape.drop_last());
        let u = unravel(l, shape);
        assert(u.drop_last() =~= unravel(l / d, shape.drop_last()));
        assert(u.last() == (l % d) as usize);
        assert((l / d) * d + l % d == l) by (nonlinear_arith)
            requires
                l == d * (l / d) + l % d,
        ;
    }
}

/// Offsets only grow as more dimensions are taken into account.
pub proof fn lemma_weighted_monotone(idx: Seq<usize>, strides: Seq<usize>, k: nat, n: nat)
    requires
        k <= n,
    ensures
        weighted_sum(idx, strides, k) <= weighted_sum(idx, strides, n),
    decreases n - k,
{
    if k < n {
        lemma_weighted_monotone(idx, strides, k, (n - 1) as nat);
        assert((idx[n - 1] as nat) * (strides[n - 1] as nat) >= 0) by (nonlinear_arith);
    }
}

/// The multi-index of the element at row-major position `l`, found by
/// dividing from the last dimension to the first.
pub fn compute_indices(l: usize, shape: &[usize]) -> (idx: Vec<usize>)
    ensures
        idx@ == unravel(l as nat, shape@),
{
    let n = shape.len();
    let mut idx: Vec<usize> = Vec::new();
    let mut k: usize = 0;
    while k < n
        invariant
            k <= n,
            idx.len() == k,
        decreases n - k,
    {
        idx.push(0);
        k += 1;
    }
    let mut rem: usize = l;
    let mut i: usize = n;
    proof {
        assert(shape@.take(n as int) =~= shape@);
        assert(idx@.subrange(n as int, n as int) =~= Seq::<usize>::empty());
        assert(unravel(rem as nat, shape@) + Seq::<usize>::empty() =~= unravel(
            rem as nat,
            shape@,
        ));
    }
    while i > 0
        invariant
            n == shape.len(),
            idx.len() == n,
            i <= n,
            unravel(l as nat, shape@) == unravel(rem as nat, shape@.take(i as int)) + idx@.subrange(
                i as int,
                n as int,
            ),
        decreases i,
    {
        let ghost before = idx@;
        let ghost head = shape@.take(i as int);
        i -= 1;
        let d = shape[i];
        proof {
            assert(head.last() == d);
            assert(head.drop_last() =~= shape@.take(i as int));
        }
        if d == 0 {
            idx.set(i, 0);
            rem = 0;
        } else {
            idx.set(i, rem % d);
            rem = rem / d;
        }
        proof {
            let tail = before.subrange(i as int + 1, n as int);
            assert(idx@.subrange(i as int, n as int) =~= seq![idx[i as int]] + tail);
            assert(unravel(rem as nat, shape@.take(i as int)).push(idx[i as int]) + tail
                =~= unravel(rem as nat, shape@.take(i as int)) + (seq![idx[i as int]] + tail));
        }
    }
    proof {
        assert(shape@.take(0).len() == 0);
        assert(idx@.subrange(0, n as int) =~= idx@);
        assert(Seq::<usize>::empty() + idx@ =~= idx@);
    }
    idx
}

/// The index that follows `idx` in row-major order: the last dimension
/// that can still grow is advanced and every later one starts over.
pub open spec fn incremented(idx: Seq<usize>, shape: Seq<usize>) -> Seq<usize>
    decreases idx.len(),
{
    if idx.len() == 0 {
        idx
    } else {
        let k = idx.len() - 1;
        if idx[k] + 1 < shape[k] {
            idx.update(k, (idx[k] + 1) as usize)
        } else {
            incremented(idx.drop_last(), shape).push(0usize)
        }
    }
}

/// Advances `indices` to the next index in row-major order, wrapping to
/// all zeros after the last one.
pub fn increment_indices(indices: &mut Vec<usize>, shape: &[usize])
    requires
        old(indices).len() <= shape.len(),
    ensures
        final(indices)@ == incremented(old(indices)@, shape@),
{
    let n = indices.len();
    let mut i: usize = n;
    let ghost start = indices@;
    proof {
        assert(start.take(n as int) =~= start);
        assert(incremented(start, shape@) + Seq::<usize>::empty() =~= incremented(
            start,
            shape@,
        ));
    }
    while i > 0
        invariant
            start == old(indices)@,
            n == start.len(),
            indices.len() == n,
            n <= shape.len(),
            i <= n,
            forall|j: int| 0 <= j < i ==> indices[j] == start[j],
            incremented(start, shape@) == incremented(start.take(i as int), shape@)
                + indices@.subrange(i as int, n as int),
        decreases i,
    {
        let ghost before = indices@;
        let ghost head = start.take(i as int);
        i -= 1;
        let cur = indices[i];
        proof {
            assert(head.drop_last() =~= start.take(i as int));
            assert(head[i as int] == cur);
        }
        let tail = Ghost(before.subrange(i as int + 1, n as int));
        if cur < shape[i] && cur + 1 < shape[i] {
            indices.set(i, cur + 1);
            proof {
                assert(head.len() - 1 == i);
                assert(incremented(head, shape@) == head.update(i as int, (cur + 1) as usize));
                assert(head.update(i as int, (cur + 1) as usize) + tail@ =~= indices@);
                assert(incremented(start, shape@) =~= indices@);
            }
            return ;
        }
        indices.set(i, 0);
        proof {
            assert(head.len() - 1 == i);
            assert(incremented(head, shape@) == incremented(start.take(i as int), shape@).push(
                0usize,
            ));
            assert(indices@.subrange(i as int, n as int) =~= seq![0usize] + tail@);
            assert(incremented(start.take(i as int), shape@).push(0usize) + tail@
                =~= incremented(start.take(i as int), shape@) + (seq![0usize] + tail@));
        }
    }
    proof {
        assert(start.take(0).len() == 0);
        assert(indices@.subrange(0, n as int) =~= indices@);
        assert(incremented(start.take(0), shape@) + indices@ =~= indices@);
    }
}

/// Stepping a valid index moves its row-major position forward by one,
/// and from the last position back to the first.
pub proof fn lemma_increment_linear(idx: Seq<usize>, shape: Seq<usize>)
    requires
        valid_index(idx, shape),
    ensures
        valid_index(incremented(idx, shape), shape),
        linear_index(incremented(idx, shape), shape) == ((linear_index(idx, shape) + 1) as int)
            % (numel(shape) as int),
    decreases idx.len(),
{
    if idx.len() == 0 {
        assert(numel(shape) == 1);
    } else {
        let k = idx.len() - 1;
        let d = shape.last() as nat;
        let q = linear_index(idx.drop_last(), shape.drop_last());
        let m = numel(shape.drop_last());
        let r = idx.last() as nat;
        lemma_numel_drop_last(shape);
        lemma_linear_bound(idx.drop_last(), shape.drop_last());
        lemma_linear_bound(idx, shape);
        if idx[k] + 1 < shape[k] {
            let next = incremented(idx, shape);
            assert(next.drop_last() =~= idx.drop_last());
            assert(linear_index(next, shape) == q * d + r + 1);
            assert(q * d + r + 1 < m * d) by (nonlinear_arith)
                requires
                    q < m,
                    r + 1 < d,
            ;
            lemma_small_mod((q * d + r + 1) as nat, (m * d) as nat);
        } else {
            let head = incremented(idx.drop_last(), shape);
            lemma_increment_prefix(idx.drop_last(), shape);
            lemma_increment_linear(idx.drop_last(), shape.drop_last());
            let next = incremented(idx, shape);
            assert(next.drop_last() =~= head);
            assert(linear_index(next, shape) == (((q + 1) as int) % (m as int)) * d);
            assert(r + 1 == d);
            assert(q * d + r + 1 == d * (q + 1)) by (nonlinear_arith)
                requires
                    r + 1 == d,
            ;
            lemma_truncate_middle((q + 1) as int, d as int, m as int);
            assert(d * m == m * d) by (nonlinear_arith);
            assert(d * (((q + 1) as int) % (m as int)) == (((q + 1) as int) % (m as int)) * d) by (nonlinear_arith);
            assert forall|i: int| 0 <= i < next.len() implies next[i] < shape[i] by {
                if i < k {
                    assert(next[i] == head[i]);
                    assert(shape.drop_last()[i] == shape[i]);
                }
            }
        }
    }
}

/// Stepping looks only at the sizes of the dimensions the index has.
pub proof fn lemma_increment_prefix(idx: Seq<usize>, shape: Seq<usize>)
    requires
        idx.len() < shape.len(),
    ensures
        incremented(idx, shape) == incremented(idx, shape.drop_last()),
    decreases idx.len(),
{
    if idx.len() > 0 {
        lemma_increment_prefix(idx.drop_last(), shape);
    }
}

/// Dropping the last dimension divides every earlier suffix product by its size.
pub proof fn lemma_suffix_drop_last(shape: Seq<usize>, from: int)
    requires
        0 <= from < shape.len(),
    ensures
        suffix_numel(shape, from) == suffix_numel(shape.drop_last(), from) * (shape.last() as nat),
{
    let n = shape.len() as int;
    let part = shape.subrange(from, n);
    lemma_numel_drop_last(part);
    assert(part.drop_last() =~= shape.drop_last().subrange(from, n - 1));
    assert(part.last() == shape.last());
}

/// When the element count fits in `usize` and no dimension is empty, the
/// row-major strides are the exact suffix products.
pub proof fn lemma_strides_exact(shape: Seq<usize>, i: int)
    requires
        all_positive(shape),
        numel(shape) <= usize::MAX,
        0 <= i < shape.len(),
    ensures
        row_major_strides(shape)[i] == suffix_numel(shape, i + 1),
        1 <= suffix_numel(shape, i + 1) <= numel(shape),
{
    lemma_suffix_monotone(shape, 0, i + 1);
    lemma_suffix_step(shape, 0);
}

/// Scaling law behind the next lemma: over the dimensions before the
/// last, the row-major offset is the offset without the last dimension
/// times the size of the last dimension.
pub proof fn lemma_row_major_prefix(idx: Seq<usize>, shape: Seq<usize>, k: nat)
    requires
        valid_index(idx, shape),
        numel(shape) <= usize::MAX,
        shape.len() > 0,
        k <= shape.len() - 1,
    ensures
        weighted_sum(idx, row_major_strides(shape), k) == weighted_sum(
            idx.drop_last(),
            row_major_strides(shape.drop_last()),
            k,
        ) * (shape.last() as nat),
    decreases k,
{
    if k > 0 {
        let i = (k - 1) as int;
        let rest = shape.drop_last();
        let d = shape.last() as nat;
        lemma_row_major_prefix(idx, shape, (k - 1) as nat);
        lemma_numel_drop_last(shape);
        assert(all_positive(shape));
        assert(all_positive(rest));
        assert(numel(rest) <= numel(shape)) by (nonlinear_arith)
            requires
                numel(shape) == numel(rest) * d,
                d >= 1,
        ;
        lemma_strides_exact(shape, i);
        lemma_strides_exact(rest, i);
        lemma_suffix_drop_last(shape, i + 1);
        let a = weighted_sum(idx.drop_last(), row_major_strides(rest), (k - 1) as nat);
        let x = idx[i] as nat;
        let s = suffix_numel(rest, i + 1);
        assert(idx.drop_last()[i] == idx[i]);
        assert(row_major_strides(rest)[i] == s);
        assert(row_major_strides(shape)[i] == s * d);
        assert(weighted_sum(idx.drop_last(), row_major_strides(rest), k) == a + x * s);
        assert(weighted_sum(idx, row_major_strides(shape), k) == a * d + x * (s * d));
        assert(a * d + x * (s * d) == (a + x * s) * d) by (nonlinear_arith);
    } else {
        assert(0 * (shape.last() as nat) == 0);
    }
}

/// Under row-major strides the offset of a valid index is its row-major position.
pub proof fn lemma_row_major_flat(idx: Seq<usize>, shape: Seq<usize>)
    requires
        valid_index(idx, shape),
        numel(shape) <= usize::MAX,
    ensures
        weighted_sum(idx, row_major_strides(shape), shape.len()) == linear_index(idx, shape),
    decreases shape.len(),
{
    if shape.len() > 0 {
        let n = shape.len();
        let rest = shape.drop_last();
        let d = shape.last() as nat;
        lemma_numel_drop_last(shape);
        assert(all_positive(shape));
        assert(numel(rest) <= numel(shape)) by (nonlinear_arith)
            requires
                numel(shape) == numel(rest) * d,
                d >= 1,
        ;
        lemma_row_major_flat(idx.drop_last(), rest);
        lemma_row_major_prefix(idx, shape, (n - 1) as nat);
        lemma_strides_exact(shape, n - 1);
        assert(shape.subrange(n as int, n as int).len() == 0);
        assert(suffix_numel(shape, n as int) == 1);
    }
}

} // verus!
