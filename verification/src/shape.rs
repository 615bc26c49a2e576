//! Shapes, row-major strides and index arithmetic.

use vstd::prelude::*;
use crate::error::TensorError;

verus! {

/// Number of elements of an array with the given dimension sizes.
pub open spec fn numel(shape: Seq<usize>) -> nat
    decreases shape.len(),
{
    if shape.len() == 0 {
        1
    } else {
        (shape[0] as nat) * numel(shape.drop_first())
    }
}

/// Product of the sizes from dimension `from` to the last one.
pub open spec fn suffix_numel(shape: Seq<usize>, from: int) -> nat {
    numel(shape.subrange(from, shape.len() as int))
}

/// Every dimension has at least one element.
pub open spec fn all_positive(shape: Seq<usize>) -> bool {
    forall|i: int| 0 <= i < shape.len() ==> shape[i] > 0
}

/// Unfolds `suffix_numel` by one dimension.
pub proof fn lemma_suffix_step(shape: Seq<usize>, from: int)
    requires
        0 <= from < shape.len(),
    ensures
        suffix_numel(shape, from) == (shape[from] as nat) * suffix_numel(shape, from + 1),
        suffix_numel(shape, shape.len() as int) == 1,
        suffix_numel(shape, 0) == numel(shape),
{
    let n = shape.len() as int;
    assert(shape.subrange(from, n).drop_first() =~= shape.subrange(from + 1, n));
    assert(shape.subrange(n, n).len() == 0);
    assert(shape.subrange(0, n) =~= shape);
}

/// The suffix from the first dimension on is the whole shape.
pub proof fn lemma_suffix_step_zero(shape: Seq<usize>)
    ensures
        suffix_numel(shape, 0) == numel(shape),
{
    assert(shape.subrange(0, shape.len() as int) =~= shape);
}

/// A shape with an empty dimension has no elements.
pub proof fn lemma_numel_zero(shape: Seq<usize>, at: int)
    requires
        0 <= at < shape.len(),
        shape[at] == 0,
    ensures
        numel(shape) == 0,
    decreases shape.len(),
{
    if at == 0 {
        assert(numel(shape) == 0) by (nonlinear_arith)
            requires
                numel(shape) == (shape[0] as nat) * numel(shape.drop_first()),
                shape[0] == 0,
        ;
    } else {
        lemma_numel_zero(shape.drop_first(), at - 1);
        assert(numel(shape) == 0) by (nonlinear_arith)
            requires
                numel(shape) == (shape[0] as nat) * numel(shape.drop_first()),
                numel(shape.drop_first()) == 0,
        ;
    }
}

/// Without empty dimensions, suffix products are positive and grow towards the front.
pub proof fn lemma_suffix_monotone(shape: Seq<usize>, i: int, j: int)
    requires
        all_positive(shape),
        0 <= i <= j <= shape.len(),
    ensures
        1 <= suffix_numel(shape, j) <= suffix_numel(shape, i),
    decreases j - i, shape.len() - j,
{
    let n = shape.len() as int;
    if j == n {
        assert(shape.subrange(n, n).len() == 0);
        if i < j {
            lemma_suffix_monotone(shape, i + 1, j);
            lemma_suffix_step(shape, i);
            assert(suffix_numel(shape, i) >= suffix_numel(shape, i + 1)) by (nonlinear_arith)
                requires
                    suffix_numel(shape, i) == (shape[i] as nat) * suffix_numel(shape, i + 1),
                    shape[i] >= 1,
            ;
        }
    } else {
        if i < j {
            lemma_suffix_monotone(shape, i + 1, j);
            lemma_suffix_step(shape, i);
            assert(suffix_numel(shape, i) >= suffix_numel(shape, i + 1)) by (nonlinear_arith)
                requires
                    suffix_numel(shape, i) == (shape[i] as nat) * suffix_numel(shape, i + 1),
                    shape[i] >= 1,
            ;
        } else {
            lemma_suffix_monotone(shape, j + 1, j + 1);
            lemma_suffix_step(shape, j);
            assert(suffix_numel(shape, j) >= 1) by (nonlinear_arith)
                requires
                    suffix_numel(shape, j) == (shape[j] as nat) * suffix_numel(shape, j + 1),
                    shape[j] >= 1,
                    suffix_numel(shape, j + 1) >= 1,
            ;
        }
    }
}

/// The product of the sizes, or `None` when it does not fit in `usize`.
pub fn checked_numel(shape: &[usize]) -> (r: Option<usize>)
    ensures
        r.is_some() <==> numel(shape@) <= usize::MAX,
        r.is_some() ==> r.unwrap() == numel(shape@),
{
    let n = shape.len();
    let mut k: usize = 0;
    while k < n
        invariant
            n == shape.len(),
            k <= n,
            forall|i: int| 0 <= i < k ==> shape[i] > 0,
        decreases n - k,
    {
        if shape[k] == 0 {
            proof {
                lemma_numel_zero(shape@, k as int);
            }
            return Some(0);
        }
        k += 1;
    }
    assert(all_positive(shape@));
    let mut acc: usize = 1;
    let mut i: usize = n;
    proof {
        lemma_suffix_monotone(shape@, n as int, n as int);
        assert(shape@.subrange(n as int, n as int).len() == 0);
    }
    while i > 0
        invariant
            n == shape.len(),
            i <= n,
            all_positive(shape@),
            acc == suffix_numel(shape@, i as int),
        decreases i,
    {
        i -= 1;
        proof {
            lemma_suffix_step(shape@, i as int);
            lemma_suffix_monotone(shape@, 0, i as int);
        }
        match acc.checked_mul(shape[i]) {
            Some(p) => {
                assert(p == (shape[i as int] as nat) * acc) by (nonlinear_arith)
                    requires
                        p == acc * shape[i as int],
                ;
                acc = p;
            },
            None => {
                assert(suffix_numel(shape@, i as int) > usize::MAX) by (nonlinear_arith)
                    requires
                        acc * shape[i as int] > usize::MAX,
                        suffix_numel(shape@, i as int) == (shape[i as int] as nat) * acc,
                ;
                proof {
                    lemma_suffix_step(shape@, 0);
                }
                return None;
            },
        }
    }
    proof {
        if n > 0 {
            lemma_suffix_step(shape@, 0);
        } else {
            assert(shape@.subrange(0, 0) =~= shape@);
        }
    }
    Some(acc)
}

/// Row-major stride of dimension `i`: the product of the sizes after it,
/// held at `usize::MAX` when that product does not fit.
pub open spec fn stride_at(shape: Seq<usize>, i: int) -> usize {
    if suffix_numel(shape, i + 1) <= usize::MAX {
        suffix_numel(shape, i + 1) as usize
    } else {
        usize::MAX
    }
}

/// The canonical row-major strides of a shape.
pub open spec fn row_major_strides(shape: Seq<usize>) -> Seq<usize> {
    Seq::new(shape.len(), |i: int| stride_at(shape, i))
}

/// Canonical row-major strides: the last dimension has stride 1 and each
/// earlier one the product of all later sizes.
pub fn compute_strides(shape: &[usize]) -> (strides: Vec<usize>)
    ensures
        strides@ == row_major_strides(shape@),
{
    let n = shape.len();
    let mut strides: Vec<usize> = Vec::new();
    let mut k: usize = 0;
    while k < n
        invariant
            k <= n,
            strides.len() == k,
        decreases n - k,
    {
        strides.push(0);
        k += 1;
    }
    let mut stride: usize = 1;
    let mut exact: bool = true;
    let mut i: usize = n;
    proof {
        assert(shape@.subrange(n as int, n as int).len() == 0);
    }
    while i > 0
        invariant
            n == shape.len(),
            strides.len() == n,
            i <= n,
            exact ==> stride == suffix_numel(shape@, i as int),
            !exact ==> stride == usize::MAX && suffix_numel(shape@, i as int) > usize::MAX,
            forall|j: int| i <= j < n ==> strides[j] == stride_at(shape@, j),
        decreases i,
    {
        i -= 1;
        strides.set(i, stride);
        proof {
            lemma_suffix_step(shape@, i as int);
        }
        let d = shape[i];
        if d == 0 {
            assert(suffix_numel(shape@, i as int) == 0) by (nonlinear_arith)
                requires
                    suffix_numel(shape@, i as int) == (d as nat) * suffix_numel(
                        shape@,
                        i as int + 1,
                    ),
                    d == 0,
            ;
            stride = 0;
            exact = true;
        } else if exact {
            match stride.checked_mul(d) {
                Some(p) => {
                    assert(p == (d as nat) * (stride as nat)) by (nonlinear_arith)
                        requires
                            p == stride * d,
                    ;
                    stride = p;
                },
                None => {
                    assert((d as nat) * (stride as nat) > usize::MAX) by (nonlinear_arith)
                        requires
                            stride * d > usize::MAX,
                    ;
                    stride = usize::MAX;
                    exact = false;
                },
            }
        } else {
            assert((d as nat) * suffix_numel(shape@, i as int + 1) > usize::MAX)
                by (nonlinear_arith)
                requires
                    d >= 1,
                    suffix_numel(shape@, i as int + 1) > usize::MAX,
            ;
        }
    }
    assert(strides@ =~= row_major_strides(shape@));
    strides
}

/// `shape` with sizes of 1 put in front until it has `rank` dimensions.
pub open spec fn left_padded(shape: Seq<usize>, rank: nat) -> Seq<usize>
    recommends
        shape.len() <= rank,
{
    Seq::new(
        rank,
        |i: int|
            if i < rank - shape.len() {
                1usize
            } else {
                shape[i - (rank - shape.len())]
            },
    )
}

/// Two sizes can be combined when they agree or one of them is 1.
pub open spec fn dims_compatible(a: usize, b: usize) -> bool {
    a == b || a == 1 || b == 1
}

/// The larger of the two ranks.
pub open spec fn joint_rank(a: Seq<usize>, b: Seq<usize>) -> nat {
    if a.len() >= b.len() {
        a.len()
    } else {
        b.len()
    }
}

/// The broadcasting rule: after left-padding the shorter shape with 1s,
/// every pair of sizes is compatible.
pub open spec fn broadcastable(a: Seq<usize>, b: Seq<usize>) -> bool {
    let r = joint_rank(a, b);
    forall|i: int|
        0 <= i < r ==> dims_compatible(#[trigger] left_padded(a, r)[i], left_padded(b, r)[i])
}

/// The shape two broadcastable shapes expand to.
pub open spec fn broadcast_shape(a: Seq<usize>, b: Seq<usize>) -> Seq<usize> {
    let r = joint_rank(a, b);
    Seq::new(
        r,
        |i: int|
            if left_padded(a, r)[i] == 1 {
                left_padded(b, r)[i]
            } else {
                left_padded(a, r)[i]
            },
    )
}

/// Left-pads `shape` with 1s to `rank` dimensions.
pub(crate) fn pad_left(shape: &[usize], rank: usize) -> (r: Vec<usize>)
    requires
        shape.len() <= rank,
    ensures
        r@ == left_padded(shape@, rank as nat),
{
    let lead = rank - shape.len();
    let mut out: Vec<usize> = Vec::new();
    let mut i: usize = 0;
    while i < rank
        invariant
            i <= rank,
            lead == rank - shape.len(),
            out.len() == i,
            forall|j: int| 0 <= j < i ==> out[j] == left_padded(shape@, rank as nat)[j],
        decreases rank - i,
    {
        if i < lead {
            out.push(1);
        } else {
            out.push(shape[i - lead]);
        }
        i += 1;
    }
    assert(out@ =~= left_padded(shape@, rank as nat));
    out
}

/// Combines two shapes by the broadcasting rule, in one pass over the
/// padded pair. Fails with `NotBroadcastable` exactly when some pair of
/// sizes differs and neither is 1.
pub fn broadcast_dimensions(shape_a: &[usize], shape_b: &[usize]) -> (r: Result<
    Vec<usize>,
    TensorError,
>)
    ensures
        broadcastable(shape_a@, shape_b@) ==> r.is_ok() && r.unwrap()@ == broadcast_shape(
            shape_a@,
            shape_b@,
        ),
        !broadcastable(shape_a@, shape_b@) ==> r == Err::<Vec<usize>, TensorError>(
            TensorError::NotBroadcastable,
        ),
{
    let rank = if shape_a.len() >= shape_b.len() {
        shape_a.len()
    } else {
        shape_b.len()
    };
    let pa = pad_left(shape_a, rank);
    let pb = pad_left(shape_b, rank);
    let mut out: Vec<usize> = Vec::new();
    let mut i: usize = 0;
    while i < rank
        invariant
            i <= rank,
            rank == joint_rank(shape_a@, shape_b@),
            pa@ == left_padded(shape_a@, rank as nat),
            pb@ == left_padded(shape_b@, rank as nat),
            out.len() == i,
            forall|j: int| 0 <= j < i ==> dims_compatible(#[trigger] pa[j], pb[j]),
            forall|j: int| 0 <= j < i ==> out[j] == broadcast_shape(shape_a@, shape_b@)[j],
        decreases rank - i,
    {
        let a = pa[i];
        let b = pb[i];
        if a == b {
            out.push(a);
        } else if a == 1 {
            out.push(b);
        } else if b == 1 {
            out.push(a);
        } else {
            assert(!dims_compatible(left_padded(shape_a@, rank as nat)[i as int], pb[i as int]));
            return Err(TensorError::NotBroadcastable);
        }
        i += 1;
    }
    assert(out@ =~= broadcast_shape(shape_a@, shape_b@));
    Ok(out)
}

/// The element count of two shapes put one after the other is the
/// product of their counts.
pub proof fn lemma_numel_concat(a: Seq<usize>, b: Seq<usize>)
    ensures
        numel(a + b) == numel(a) * numel(b),
    decreases a.len(),
{
    if a.len() == 0 {
        assert(a + b =~= b);
        assert(numel(a) == 1);
        assert(1 * numel(b) == numel(b)) by (nonlinear_arith);
    } else {
        lemma_numel_concat(a.drop_first(), b);
        assert((a + b).drop_first() =~= a.drop_first() + b);
        assert((a + b)[0] == a[0]);
        let x = a[0] as nat;
        let y = numel(a.drop_first());
        let z = numel(b);
        assert(numel(a + b) == x * (y * z));
        assert(numel(a) == x * y);
        assert(x * (y * z) == (x * y) * z) by (nonlinear_arith);
    }
}

/// A shape without its dimensions of size 1.
pub open spec fn without_ones(shape: Seq<usize>) -> Seq<usize>
    decreases shape.len(),
{
    if shape.len() == 0 {
        shape
    } else if shape.last() == 1 {
        without_ones(shape.drop_last())
    } else {
        without_ones(shape.drop_last()).push(shape.last())
    }
}

/// The shape that is left when dimensions of size 1 are dropped; a shape
/// made of such dimensions only reduces to `[1]`.
pub open spec fn reduced_shape(shape: Seq<usize>) -> Seq<usize> {
    if without_ones(shape).len() == 0 {
        seq![1usize]
    } else {
        without_ones(shape)
    }
}

/// Drops every dimension of size 1, keeping `[1]` when nothing is left.
pub fn reduce_shape(shape: &[usize]) -> (r: Vec<usize>)
    ensures
        r@ == reduced_shape(shape@),
{
    let mut out: Vec<usize> = Vec::new();
    let mut i: usize = 0;
    proof {
        assert(shape@.take(0).len() == 0);
    }
    while i < shape.len()
        invariant
            i <= shape.len(),
            out@ == without_ones(shape@.take(i as int)),
        decreases shape.len() - i,
    {
        proof {
            assert(shape@.take(i + 1).drop_last() =~= shape@.take(i as int));
            assert(shape@.take(i + 1).last() == shape[i as int]);
        }
        if shape[i] != 1 {
            out.push(shape[i]);
        }
        i += 1;
    }
    proof {
        assert(shape@.take(shape.len() as int) =~= shape@);
    }
    if out.len() == 0 {
        out.push(1);
        assert(out@ =~= seq![1usize]);
    }
    out
}

/// A one-dimensional shape has as many elements as its only size.
pub proof fn lemma_numel_single(d: usize)
    ensures
        numel(seq![d]) == d,
{
    let s = seq![d];
    assert(s.len() == 1);
    assert(s[0] == d);
    assert(s.drop_first().len() == 0);
    assert(numel(s.drop_first()) == 1);
    assert(numel(s) == (s[0] as nat) * numel(s.drop_first()));
    assert((d as nat) * 1 == d) by (nonlinear_arith);
}

/// Dropping dimensions of size 1 keeps the element count.
pub proof fn lemma_reduced_numel(shape: Seq<usize>)
    ensures
        numel(without_ones(shape)) == numel(shape),
        numel(reduced_shape(shape)) == numel(shape),
    decreases shape.len(),
{
    if shape.len() == 0 {
        lemma_numel_single(1);
    } else {
        let rest = shape.drop_last();
        lemma_reduced_numel(rest);
        lemma_numel_concat(rest, seq![shape.last()]);
        assert(rest + seq![shape.last()] =~= shape);
        lemma_numel_concat(without_ones(rest), seq![shape.last()]);
        assert(without_ones(rest) + seq![shape.last()] =~= without_ones(rest).push(shape.last()));
        lemma_numel_single(shape.last());
        if shape.last() == 1 {
            assert(numel(rest) * 1 == numel(rest)) by (nonlinear_arith);
        }
        if without_ones(shape).len() == 0 {
            assert(numel(without_ones(shape)) == 1);
            lemma_numel_single(1);
        }
    }
}

} // verus!
