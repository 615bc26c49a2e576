//! Reductions: folding the elements of a tensor, or of the blocks that
//! lie along some of its axes, with a function supplied by the caller.

use vstd::prelude::*;
use crate::error::TensorError;
use crate::index::{
    compute_indices, lemma_numel_drop_last, lemma_numel_positive, lemma_unravel_valid, unravel,
    valid_index,
};
use crate::shape::{
    all_positive, checked_numel, left_padded, lemma_numel_concat, lemma_numel_single,
    lemma_numel_zero, lemma_suffix_monotone, lemma_suffix_step_zero, numel, pad_left,
};
use crate::tensor::{copy_sizes, Tensor};
use crate::view::expandable;

verus! {

/// `trace` lists the values a left fold of `s` with `f` passes through,
/// from `init` to the result.
pub open spec fn is_fold_trace<T, F: Fn(T, T) -> T>(f: F, init: T, s: Seq<T>, trace: Seq<T>) -> bool {
    &&& trace.len() == s.len() + 1
    &&& trace[0] == init
    &&& forall|i: int| 0 <= i < s.len() ==> f.ensures((trace[i], #[trigger] s[i]), trace[i + 1])
}

/// `r` is a value that folding `s` from the left with `f`, starting at
/// `init`, can produce.
pub open spec fn fold_left_rel<T, F: Fn(T, T) -> T>(f: F, init: T, s: Seq<T>, r: T) -> bool {
    exists|trace: Seq<T>| #[trigger] is_fold_trace(f, init, s, trace) && trace.last() == r
}

/// Folding nothing gives the start value.
pub proof fn lemma_fold_empty<T, F: Fn(T, T) -> T>(f: F, init: T)
    ensures
        fold_left_rel(f, init, Seq::<T>::empty(), init),
{
    let trace = seq![init];
    assert(is_fold_trace(f, init, Seq::<T>::empty(), trace) && trace.last() == init);
}

/// One more step of a fold.
pub proof fn lemma_fold_step<T, F: Fn(T, T) -> T>(f: F, init: T, s: Seq<T>, m: T, x: T, r: T)
    requires
        fold_left_rel(f, init, s, m),
        f.ensures((m, x), r),
    ensures
        fold_left_rel(f, init, s.push(x), r),
{
    let trace = choose|trace: Seq<T>| #[trigger] is_fold_trace(f, init, s, trace) && trace.last() == m;
    let longer = trace.push(r);
    let whole = s.push(x);
    assert forall|i: int| 0 <= i < whole.len() implies f.ensures(
        (longer[i], #[trigger] whole[i]),
        longer[i + 1],
    ) by {
        if i < s.len() {
            assert(f.ensures((trace[i], s[i]), trace[i + 1]));
        }
    }
    assert(is_fold_trace(f, init, whole, longer) && longer.last() == r);
}

/// `mask[i]` tells whether dimension `i` is listed in `axes`.
pub open spec fn axes_mask(axes: Seq<usize>, rank: nat) -> Seq<bool> {
    Seq::new(rank, |i: int| axes.contains(i as usize))
}

/// The shape after reducing the masked dimensions: they keep their place
/// with size 1.
pub open spec fn kept_shape(shape: Seq<usize>, mask: Seq<bool>) -> Seq<usize> {
    Seq::new(
        shape.len(),
        |i: int|
            if mask[i] {
                1usize
            } else {
                shape[i]
            },
    )
}

/// The shape of one reduced block: the masked dimensions at full size,
/// every other dimension with size 1.
pub open spec fn block_shape(shape: Seq<usize>, mask: Seq<bool>) -> Seq<usize> {
    Seq::new(
        shape.len(),
        |i: int|
            if mask[i] {
                shape[i]
            } else {
                1usize
            },
    )
}

/// The index made of `outer` on the kept dimensions and `inner` on the
/// reduced ones.
pub open spec fn merged_index(outer: Seq<usize>, inner: Seq<usize>, mask: Seq<bool>) -> Seq<usize> {
    Seq::new(
        outer.len(),
        |i: int|
            if mask[i] {
                inner[i]
            } else {
                outer[i]
            },
    )
}

/// A merged index addresses an element of the full shape.
pub proof fn lemma_merged_valid(
    outer: Seq<usize>,
    inner: Seq<usize>,
    shape: Seq<usize>,
    mask: Seq<bool>,
)
    requires
        mask.len() == shape.len(),
        valid_index(outer, kept_shape(shape, mask)),
        valid_index(inner, block_shape(shape, mask)),
    ensures
        valid_index(merged_index(outer, inner, mask), shape),
{
    let merged = merged_index(outer, inner, mask);
    assert forall|i: int| 0 <= i < merged.len() implies merged[i] < shape[i] by {
        if mask[i] {
            assert(inner[i] < block_shape(shape, mask)[i]);
        } else {
            assert(outer[i] < kept_shape(shape, mask)[i]);
        }
    }
}

/// `t` holds the folds of `src` along the masked dimensions: it is
/// contiguous, keeps every reduced dimension with size 1, and each of
/// its elements is a fold of the block that lies behind it.
pub open spec fn reduced<T: Copy, F: Fn(T, T) -> T>(
    src: &Tensor<T>,
    mask: Seq<bool>,
    init: T,
    f: F,
    t: &Tensor<T>,
) -> bool {
    let out_shape = kept_shape(src.shape@, mask);
    &&& t.wf()
    &&& t.contiguous()
    &&& t.shape@ == out_shape
    &&& t.elements().len() == numel(out_shape)
    &&& forall|l: int|
        0 <= l < numel(out_shape) ==> fold_left_rel(
            f,
            init,
            src.block(unravel(l as nat, out_shape), mask),
            #[trigger] t.elements()[l],
        )
}

/// `t` is `src` summed down to the shape `shape`: contiguous, of that
/// shape, each element the sum of the elements of `src` that a broadcast
/// of `shape` to the shape of `src` would have spread it over.
pub open spec fn summed_to<T: Copy, F: Fn(T, T) -> T>(
    src: &Tensor<T>,
    shape: Seq<usize>,
    zero: T,
    plus: F,
    t: &Tensor<T>,
) -> bool {
    let mask = summed_mask(shape, src.shape@);
    let padded = left_padded(shape, src.shape@.len());
    &&& t.wf()
    &&& t.contiguous()
    &&& t.shape@ == shape
    &&& t.elements().len() == numel(padded)
    &&& forall|l: int|
        0 <= l < numel(padded) ==> fold_left_rel(
            plus,
            zero,
            src.block(unravel(l as nat, padded), mask),
            #[trigger] t.elements()[l],
        )
}

impl<T: Copy> Tensor<T> {
    /// The elements that are folded into the output element at `outer`,
    /// in row-major order of the reduced dimensions.
    pub open spec fn block(&self, outer: Seq<usize>, mask: Seq<bool>) -> Seq<T> {
        let inner_shape = block_shape(self.shape@, mask);
        Seq::new(
            numel(inner_shape),
            |k: int| self.at(merged_index(outer, unravel(k as nat, inner_shape), mask)),
        )
    }

    /// Folds all elements in row-major order into one value.
    pub fn reduce<F: Fn(T, T) -> T>(&self, default: T, func: F) -> (r: T)
        requires
            self.wf(),
            forall|x: T, y: T| func.requires((x, y)),
        ensures
            fold_left_rel(func, default, self.elements(), r),
    {
        let values = self.gather_elements();
        let mut acc = default;
        let mut i: usize = 0;
        proof {
            assert(values@.take(0) =~= Seq::<T>::empty());
            lemma_fold_empty(func, default);
        }
        while i < values.len()
            invariant
                i <= values.len(),
                forall|x: T, y: T| func.requires((x, y)),
                fold_left_rel(func, default, values@.take(i as int), acc),
            decreases values.len() - i,
        {
            let next = func(acc, values[i]);
            proof {
                lemma_fold_step(func, default, values@.take(i as int), acc, values[i as int], next);
                assert(values@.take(i as int).push(values[i as int]) =~= values@.take(i + 1));
            }
            acc = next;
            i += 1;
        }
        proof {
            assert(values@.take(values.len() as int) =~= values@);
        }
        acc
    }

    /// Folds the elements along the given axes. Every reduced dimension
    /// stays in the result with size 1. Fails with `IndexOutOfBounds`
    /// exactly when some axis is not a dimension of the tensor.
    pub fn reduce_axes<F: Fn(T, T) -> T>(&self, axes: &[usize], init: T, f: F) -> (r: Result<
        Tensor<T>,
        TensorError,
    >)
        requires
            self.wf(),
            forall|x: T, y: T| f.requires((x, y)),
            numel(kept_shape(self.shape@, axes_mask(axes@, self.shape@.len()))) <= usize::MAX,
            numel(block_shape(self.shape@, axes_mask(axes@, self.shape@.len()))) <= usize::MAX,
        ensures
            axes_in_rank(axes@, self.shape@.len()) ==> r.is_ok(),
            !axes_in_rank(axes@, self.shape@.len()) ==> r == Err::<Tensor<T>, TensorError>(
                TensorError::IndexOutOfBounds,
            ),
            r.is_ok() ==> reduced(self, axes_mask(axes@, self.shape@.len()), init, f, &r.unwrap()),
    {
        let n = self.shape.len();
        let mut k: usize = 0;
        while k < axes.len()
            invariant
                k <= axes.len(),
                n == self.shape@.len(),
                forall|j: int| 0 <= j < k ==> axes[j] < n,
            decreases axes.len() - k,
        {
            if axes[k] >= n {
                return Err(TensorError::IndexOutOfBounds);
            }
            k += 1;
        }
        let ghost mask = axes_mask(axes@, n as nat);
        let mut out_shape: Vec<usize> = Vec::new();
        let mut inner_shape: Vec<usize> = Vec::new();
        let mut listed: Vec<bool> = Vec::new();
        let mut i: usize = 0;
        while i < n
            invariant
                n == self.shape@.len(),
                mask == axes_mask(axes@, n as nat),
                i <= n,
                out_shape.len() == i,
                inner_shape.len() == i,
                listed.len() == i,
                forall|j: int| 0 <= j < i ==> listed[j] == mask[j],
                forall|j: int| 0 <= j < i ==> out_shape[j] == kept_shape(self.shape@, mask)[j],
                forall|j: int| 0 <= j < i ==> inner_shape[j] == block_shape(self.shape@, mask)[j],
            decreases n - i,
        {
            let hit = contains_axis(axes, i);
            listed.push(hit);
            if hit {
                out_shape.push(1);
                inner_shape.push(self.shape[i]);
            } else {
                out_shape.push(self.shape[i]);
                inner_shape.push(1);
            }
            i += 1;
        }
        proof {
            assert(listed@ =~= mask);
            assert(out_shape@ =~= kept_shape(self.shape@, mask));
            assert(inner_shape@ =~= block_shape(self.shape@, mask));
        }
        let count = match checked_numel(out_shape.as_slice()) {
            Some(c) => c,
            None => 0,
        };
        let span = match checked_numel(inner_shape.as_slice()) {
            Some(c) => c,
            None => 0,
        };
        let mut out: Vec<T> = Vec::new();
        let mut l: usize = 0;
        while l < count
            invariant
                self.wf(),
                n == self.shape@.len(),
                mask.len() == n,
                listed@ == mask,
                out_shape@ == kept_shape(self.shape@, mask),
                inner_shape@ == block_shape(self.shape@, mask),
                count == numel(out_shape@),
                span == numel(inner_shape@),
                l <= count,
                out.len() == l,
                forall|x: T, y: T| f.requires((x, y)),
                forall|j: int|
                    0 <= j < l ==> fold_left_rel(
                        f,
                        init,
                        self.block(unravel(j as nat, out_shape@), mask),
                        #[trigger] out[j],
                    ),
            decreases count - l,
        {
            let outer = compute_indices(l, out_shape.as_slice());
            proof {
                lemma_unravel_valid(l as nat, out_shape@);
            }
            let ghost whole = self.block(outer@, mask);
            let mut acc = init;
            let mut k: usize = 0;
            proof {
                assert(whole.take(0) =~= Seq::<T>::empty());
                lemma_fold_empty(f, init);
            }
            while k < span
                invariant
                    self.wf(),
                    n == self.shape@.len(),
                    mask.len() == n,
                    listed@ == mask,
                    out_shape@ == kept_shape(self.shape@, mask),
                    inner_shape@ == block_shape(self.shape@, mask),
                    span == numel(inner_shape@),
                    valid_index(outer@, out_shape@),
                    whole == self.block(outer@, mask),
                    k <= span,
                    forall|x: T, y: T| f.requires((x, y)),
                    fold_left_rel(f, init, whole.take(k as int), acc),
                decreases span - k,
            {
                let inner = compute_indices(k, inner_shape.as_slice());
                proof {
                    lemma_unravel_valid(k as nat, inner_shape@);
                    lemma_merged_valid(outer@, inner@, self.shape@, mask);
                }
                let at = merge_indices(&outer, &inner, &listed);
                let v = match self.get(at.as_slice()) {
                    Ok(v) => v,
                    Err(_) => {
                        return Err(TensorError::IndexOutOfBounds);
                    },
                };
                let next = f(acc, v);
                proof {
                    assert(whole[k as int] == v);
                    lemma_fold_step(f, init, whole.take(k as int), acc, v, next);
                    assert(whole.take(k as int).push(v) =~= whole.take(k + 1));
                }
                acc = next;
                k += 1;
            }
            proof {
                assert(whole.take(span as int) =~= whole);
            }
            out.push(acc);
            l += 1;
        }
        Ok(Tensor::from_elements(out, out_shape))
    }

    /// Undoes a broadcast: sums over every dimension in which `shape`,
    /// left-padded with 1s, has size 1 and the tensor has not, and gives
    /// the result the shape `shape`. Fails with `ShapeMismatch` exactly
    /// when `shape` cannot be expanded to the shape of the tensor.
    pub fn sum_to_shape<F: Fn(T, T) -> T>(&self, shape: &[usize], zero: T, plus: F) -> (r: Result<
        Tensor<T>,
        TensorError,
    >)
        requires
            self.wf(),
            numel(shape@) <= usize::MAX,
            forall|x: T, y: T| plus.requires((x, y)),
        ensures
            expandable(shape@, self.shape@) ==> r.is_ok(),
            !expandable(shape@, self.shape@) ==> r == Err::<Tensor<T>, TensorError>(
                TensorError::ShapeMismatch,
            ),
            r.is_ok() ==> summed_to(self, shape@, zero, plus, &r.unwrap()),
    {
        let n = self.shape.len();
        if shape.len() > n {
            return Err(TensorError::ShapeMismatch);
        }
        let padded = pad_left(shape, n);
        let mut axes: Vec<usize> = Vec::new();
        let mut i: usize = 0;
        while i < n
            invariant
                n == self.shape@.len(),
                shape@.len() <= n,
                padded@ == left_padded(shape@, n as nat),
                i <= n,
                forall|j: int|
                    0 <= j < i ==> {
                        let p = #[trigger] left_padded(shape@, n as nat)[j];
                        p == self.shape@[j] || p == 1
                    },
                forall|j: int| 0 <= j < axes.len() ==> (#[trigger] axes[j]) < i,
                forall|a: usize|
                    axes@.contains(a) <==> (a < i && summed_mask(shape@, self.shape@)[a as int]),
            decreases n - i,
        {
            let ghost before = axes@;
            if padded[i] == 1 {
                if self.shape[i] != 1 {
                    axes.push(i);
                    proof {
                        assert(axes@[before.len() as int] == i);
                        assert forall|a: usize|
                            axes@.contains(a) <==> (a < i + 1 && summed_mask(
                                shape@,
                                self.shape@,
                            )[a as int]) by {
                            if axes@.contains(a) {
                                let q = choose|q: int| 0 <= q < axes@.len() && axes@[q] == a;
                                if q < before.len() {
                                    assert(before[q] == a);
                                    assert(before.contains(a));
                                }
                            }
                            if a < i && summed_mask(shape@, self.shape@)[a as int] {
                                assert(before.contains(a));
                                let q = choose|q: int| 0 <= q < before.len() && before[q] == a;
                                assert(axes@[q] == a);
                            }
                        }
                    }
                }
            } else if padded[i] != self.shape[i] {
                assert(left_padded(shape@, n as nat)[i as int] == padded[i as int]);
                return Err(TensorError::ShapeMismatch);
            }
            i += 1;
        }
        assert(expandable(shape@, self.shape@));
        let ghost mask = axes_mask(axes@, n as nat);
        proof {
            assert(mask =~= summed_mask(shape@, self.shape@));
            assert(kept_shape(self.shape@, mask) =~= padded@);
            lemma_padded_numel(shape@, n as nat);
            lemma_block_fits(self.shape@, mask);
            if numel(self.shape@) == 0 && numel(shape@) > 0 {
                lemma_numel_positive(padded@);
                lemma_zero_block(self.shape@, padded@, mask);
            }
            if numel(self.shape@) > 0 {
                lemma_numel_positive(self.shape@);
            }
        }
        if checked_numel(shape) == Some(0) {
            let empty: Vec<T> = Vec::new();
            let t = Tensor::from_elements(empty, copy_sizes(shape));
            return Ok(t);
        }
        match self.reduce_axes(axes.as_slice(), zero, plus) {
            Ok(reduced) => reduced.reshape(shape),
            Err(e) => {
                Err(e)
            },
        }
    }

    /// Number of elements that are folded into each element of a
    /// reduction along `axes`.
    pub fn block_len(&self, axes: &[usize]) -> (count: usize)
        requires
            numel(block_shape(self.shape@, axes_mask(axes@, self.shape@.len()))) <= usize::MAX,
        ensures
            count == numel(block_shape(self.shape@, axes_mask(axes@, self.shape@.len()))),
    {
        let n = self.shape.len();
        let ghost mask = axes_mask(axes@, n as nat);
        let mut inner_shape: Vec<usize> = Vec::new();
        let mut i: usize = 0;
        while i < n
            invariant
                n == self.shape@.len(),
                mask == axes_mask(axes@, n as nat),
                i <= n,
                inner_shape.len() == i,
                forall|j: int| 0 <= j < i ==> inner_shape[j] == block_shape(self.shape@, mask)[j],
            decreases n - i,
        {
            if contains_axis(axes, i) {
                inner_shape.push(self.shape[i]);
            } else {
                inner_shape.push(1);
            }
            i += 1;
        }
        assert(inner_shape@ =~= block_shape(self.shape@, mask));
        match checked_numel(inner_shape.as_slice()) {
            Some(c) => c,
            None => 0,
        }
    }

    /// For every index outside `axis`, the position along `axis` of the
    /// element a scan with `greater` settles on: the scan starts with
    /// position 0 and the value `lowest` and moves to an element
    /// whenever `greater` prefers it to the value held. The positions
    /// are listed in row-major order of the other indices. Fails with
    /// `IndexOutOfBounds` exactly when `axis` is no dimension.
    pub fn argmax_axis<G: Fn(T, T) -> bool>(&self, axis: usize, lowest: T, greater: G) -> (r:
        Result<Vec<usize>, TensorError>)
        requires
            self.wf(),
            forall|x: T, y: T| greater.requires((x, y)),
            numel(kept_shape(self.shape@, axis_mask(axis, self.shape@.len()))) <= usize::MAX,
        ensures
            axis < self.shape@.len() ==> r.is_ok(),
            axis >= self.shape@.len() ==> r == Err::<Vec<usize>, TensorError>(
                TensorError::IndexOutOfBounds,
            ),
            r.is_ok() ==> {
                let mask = axis_mask(axis, self.shape@.len());
                let out_shape = kept_shape(self.shape@, mask);
                &&& r.unwrap()@.len() == numel(out_shape)
                &&& forall|l: int|
                    0 <= l < numel(out_shape) ==> argmax_rel(
                        greater,
                        lowest,
                        self.block(unravel(l as nat, out_shape), mask),
                        #[trigger] r.unwrap()@[l],
                    )
            },
    {
        let n = self.shape.len();
        if axis >= n {
            return Err(TensorError::IndexOutOfBounds);
        }
        let ghost mask = axis_mask(axis, n as nat);
        let mut out_shape: Vec<usize> = Vec::new();
        let mut inner_shape: Vec<usize> = Vec::new();
        let mut listed: Vec<bool> = Vec::new();
        let mut i: usize = 0;
        while i < n
            invariant
                n == self.shape@.len(),
                axis < n,
                mask == axis_mask(axis, n as nat),
                i <= n,
                out_shape.len() == i,
                inner_shape.len() == i,
                listed.len() == i,
                forall|j: int| 0 <= j < i ==> listed[j] == mask[j],
                forall|j: int| 0 <= j < i ==> out_shape[j] == kept_shape(self.shape@, mask)[j],
                forall|j: int| 0 <= j < i ==> inner_shape[j] == block_shape(self.shape@, mask)[j],
            decreases n - i,
        {
            listed.push(i == axis);
            if i == axis {
                out_shape.push(1);
                inner_shape.push(self.shape[i]);
            } else {
                out_shape.push(self.shape[i]);
                inner_shape.push(1);
            }
            i += 1;
        }
        proof {
            assert(listed@ =~= mask);
            assert(out_shape@ =~= kept_shape(self.shape@, mask));
            assert(inner_shape@ =~= block_shape(self.shape@, mask));
            lemma_single_axis_block(self.shape@, axis);
        }
        let count = match checked_numel(out_shape.as_slice()) {
            Some(c) => c,
            None => 0,
        };
        let span = self.shape[axis];
        let mut out: Vec<usize> = Vec::new();
        let mut l: usize = 0;
        while l < count
            invariant
                self.wf(),
                n == self.shape@.len(),
                mask.len() == n,
                listed@ == mask,
                out_shape@ == kept_shape(self.shape@, mask),
                inner_shape@ == block_shape(self.shape@, mask),
                count == numel(out_shape@),
                span == numel(inner_shape@),
                l <= count,
                out.len() == l,
                forall|x: T, y: T| greater.requires((x, y)),
                forall|j: int|
                    0 <= j < l ==> argmax_rel(
                        greater,
                        lowest,
                        self.block(unravel(j as nat, out_shape@), mask),
                        #[trigger] out[j],
                    ),
            decreases count - l,
        {
            let outer = compute_indices(l, out_shape.as_slice());
            proof {
                lemma_unravel_valid(l as nat, out_shape@);
            }
            let ghost whole = self.block(outer@, mask);
            let ghost mut places: Seq<usize> = seq![0usize];
            let ghost mut bests: Seq<T> = seq![lowest];
            let mut place: usize = 0;
            let mut best = lowest;
            let mut k: usize = 0;
            while k < span
                invariant
                    self.wf(),
                    n == self.shape@.len(),
                    mask.len() == n,
                    listed@ == mask,
                    out_shape@ == kept_shape(self.shape@, mask),
                    inner_shape@ == block_shape(self.shape@, mask),
                    span == numel(inner_shape@),
                    valid_index(outer@, out_shape@),
                    whole == self.block(outer@, mask),
                    k <= span,
                    places.len() == k + 1,
                    bests.len() == k + 1,
                    places[0] == 0,
                    bests[0] == lowest,
                    places[k as int] == place,
                    bests[k as int] == best,
                    forall|x: T, y: T| greater.requires((x, y)),
                    forall|q: int|
                        0 <= q < k ==> scan_step(
                            greater,
                            #[trigger] whole[q],
                            q,
                            places[q],
                            bests[q],
                            places[q + 1],
                            bests[q + 1],
                        ),
                decreases span - k,
            {
                let inner = compute_indices(k, inner_shape.as_slice());
                proof {
                    lemma_unravel_valid(k as nat, inner_shape@);
                    lemma_merged_valid(outer@, inner@, self.shape@, mask);
                }
                let at = merge_indices(&outer, &inner, &listed);
                let v = match self.get(at.as_slice()) {
                    Ok(v) => v,
                    Err(_) => {
                        return Err(TensorError::IndexOutOfBounds);
                    },
                };
                if greater(v, best) {
                    best = v;
                    place = k;
                }
                proof {
                    assert(whole[k as int] == v);
                    places = places.push(place);
                    bests = bests.push(best);
                }
                k += 1;
            }
            proof {
                assert(is_scan_trace(greater, lowest, whole, places, bests) && places.last()
                    == place);
            }
            out.push(place);
            l += 1;
        }
        Ok(out)
    }
}

/// Every listed axis is a dimension.
pub open spec fn axes_in_rank(axes: Seq<usize>, rank: nat) -> bool {
    forall|j: int| 0 <= j < axes.len() ==> axes[j] < rank
}

/// Whether `axis` is listed in `axes`.
pub fn contains_axis(axes: &[usize], axis: usize) -> (r: bool)
    ensures
        r == axes@.contains(axis),
{
    let mut k: usize = 0;
    while k < axes.len()
        invariant
            k <= axes.len(),
            forall|j: int| 0 <= j < k ==> axes[j] != axis,
        decreases axes.len() - k,
    {
        if axes[k] == axis {
            return true;
        }
        k += 1;
    }
    false
}

/// Computes `merged_index`.
pub(crate) fn merge_indices(outer: &Vec<usize>, inner: &Vec<usize>, mask: &Vec<bool>) -> (r: Vec<usize>)
    requires
        outer.len() == inner.len(),
        outer.len() == mask.len(),
    ensures
        r@ == merged_index(outer@, inner@, mask@),
{
    let mut out: Vec<usize> = Vec::new();
    let mut i: usize = 0;
    while i < outer.len()
        invariant
            outer.len() == inner.len(),
            outer.len() == mask.len(),
            i <= outer.len(),
            out.len() == i,
            forall|j: int| 0 <= j < i ==> out[j] == merged_index(outer@, inner@, mask@)[j],
        decreases outer.len() - i,
    {
        if mask[i] {
            out.push(inner[i]);
        } else {
            out.push(outer[i]);
        }
        i += 1;
    }
    assert(out@ =~= merged_index(outer@, inner@, mask@));
    out
}

/// The dimensions that are summed when a tensor of shape `from` is
/// brought back to `target`.
pub open spec fn summed_mask(target: Seq<usize>, from: Seq<usize>) -> Seq<bool> {
    Seq::new(from.len(), |i: int| left_padded(target, from.len())[i] == 1 && from[i] != 1)
}

/// Padding a shape with leading 1s keeps its element count.
pub proof fn lemma_padded_numel(shape: Seq<usize>, rank: nat)
    requires
        shape.len() <= rank,
    ensures
        numel(left_padded(shape, rank)) == numel(shape),
{
    let lead = (rank - shape.len()) as nat;
    let ones = Seq::new(lead, |i: int| 1usize);
    lemma_ones_numel(lead);
    lemma_numel_concat(ones, shape);
    assert(ones + shape =~= left_padded(shape, rank));
    assert(1 * numel(shape) == numel(shape)) by (nonlinear_arith);
}

/// A shape made of 1s has one element.
pub proof fn lemma_ones_numel(rank: nat)
    ensures
        numel(Seq::new(rank, |i: int| 1usize)) == 1,
    decreases rank,
{
    let ones = Seq::new(rank, |i: int| 1usize);
    if rank > 0 {
        lemma_ones_numel((rank - 1) as nat);
        assert(ones.drop_first() =~= Seq::new((rank - 1) as nat, |i: int| 1usize));
        assert(numel(ones) == (ones[0] as nat) * numel(ones.drop_first()));
    }
}

/// In a shape without empty dimensions, neither the kept part nor a
/// reduced block has more elements than the whole.
pub proof fn lemma_block_fits(shape: Seq<usize>, mask: Seq<bool>)
    requires
        mask.len() == shape.len(),
    ensures
        all_positive(shape) ==> numel(block_shape(shape, mask)) <= numel(shape) && numel(
            kept_shape(shape, mask),
        ) <= numel(shape),
    decreases shape.len(),
{
    if all_positive(shape) && shape.len() > 0 {
        let rest = shape.drop_last();
        let rest_mask = mask.drop_last();
        lemma_block_fits(rest, rest_mask);
        let block = block_shape(shape, mask);
        let kept = kept_shape(shape, mask);
        assert(block.drop_last() =~= block_shape(rest, rest_mask));
        assert(kept.drop_last() =~= kept_shape(rest, rest_mask));
        lemma_numel_drop_last(shape);
        lemma_numel_drop_last(block);
        lemma_numel_drop_last(kept);
        assert(all_positive(rest));
        let d = shape.last() as nat;
        assert(numel(block.drop_last()) * (block.last() as nat) <= numel(rest) * d)
            by (nonlinear_arith)
            requires
                numel(block.drop_last()) <= numel(rest),
                block.last() <= d,
        ;
        assert(numel(kept.drop_last()) * (kept.last() as nat) <= numel(rest) * d)
            by (nonlinear_arith)
            requires
                numel(kept.drop_last()) <= numel(rest),
                kept.last() <= d,
        ;
    } else if shape.len() == 0 {
        assert(block_shape(shape, mask) =~= shape);
        assert(kept_shape(shape, mask) =~= shape);
    }
}

/// When the tensor is empty but the kept part is not, every reduced
/// block is empty.
pub proof fn lemma_zero_block(shape: Seq<usize>, kept: Seq<usize>, mask: Seq<bool>)
    requires
        mask.len() == shape.len(),
        kept == kept_shape(shape, mask),
        all_positive(kept),
        numel(shape) == 0,
    ensures
        numel(block_shape(shape, mask)) == 0,
{
    if all_positive(shape) {
        lemma_suffix_monotone(shape, 0, 0);
        lemma_suffix_step_zero(shape);
    } else {
        let at = choose|i: int| 0 <= i < shape.len() && !(shape[i] > 0);
        assert(kept[at] > 0);
        assert(mask[at]);
        assert(block_shape(shape, mask)[at] == 0);
        lemma_numel_zero(block_shape(shape, mask), at);
    }
}

/// The mask that lists the dimension `axis` alone.
pub open spec fn axis_mask(axis: usize, rank: nat) -> Seq<bool> {
    Seq::new(rank, |i: int| i == axis)
}

/// One step of a scan for the preferred element: when `greater` prefers
/// `x` to the value held, the scan moves to position `i`; otherwise it
/// stays where it is.
pub open spec fn scan_step<T, G: Fn(T, T) -> bool>(
    greater: G,
    x: T,
    i: int,
    place: usize,
    best: T,
    next_place: usize,
    next_best: T,
) -> bool {
    ||| greater.ensures((x, best), true) && next_place == i && next_best == x
    ||| greater.ensures((x, best), false) && next_place == place && next_best == best
}

/// `places` and `bests` list the position and the value a scan of `s`
/// holds before the first element and after each element.
pub open spec fn is_scan_trace<T, G: Fn(T, T) -> bool>(
    greater: G,
    lowest: T,
    s: Seq<T>,
    places: Seq<usize>,
    bests: Seq<T>,
) -> bool {
    &&& places.len() == s.len() + 1
    &&& bests.len() == s.len() + 1
    &&& places[0] == 0
    &&& bests[0] == lowest
    &&& forall|i: int|
        0 <= i < s.len() ==> scan_step(
            greater,
            #[trigger] s[i],
            i,
            places[i],
            bests[i],
            places[i + 1],
            bests[i + 1],
        )
}

/// `place` is a position a scan of `s` with `greater`, started at
/// position 0 with the value `lowest`, can settle on.
pub open spec fn argmax_rel<T, G: Fn(T, T) -> bool>(greater: G, lowest: T, s: Seq<T>, place: usize) -> bool {
    exists|places: Seq<usize>, bests: Seq<T>| #[trigger]
        is_scan_trace(greater, lowest, s, places, bests) && places.last() == place
}

/// A block along a single axis has as many elements as the axis is long.
pub proof fn lemma_single_axis_block(shape: Seq<usize>, axis: usize)
    requires
        axis < shape.len(),
    ensures
        numel(block_shape(shape, axis_mask(axis, shape.len()))) == shape[axis as int],
{
    let mask = axis_mask(axis, shape.len());
    let block = block_shape(shape, mask);
    let d = shape[axis as int];
    let before = Seq::new(axis as nat, |i: int| 1usize);
    let after = Seq::new((shape.len() - axis - 1) as nat, |i: int| 1usize);
    lemma_ones_numel(axis as nat);
    lemma_ones_numel((shape.len() - axis - 1) as nat);
    lemma_numel_single(d);
    lemma_numel_concat(seq![d], after);
    lemma_numel_concat(before, seq![d] + after);
    assert(before + (seq![d] + after) =~= block);
    assert(1 * ((d as nat) * 1) == d) by (nonlinear_arith);
}

} // verus!
