//! Shape operations: transposition, broadcasting views, slicing,
//! gathering and the insertion or removal of dimensions.

use vstd::prelude::*;
use crate::elementwise::source_index;
use crate::error::TensorError;
use crate::index::{compute_indices, lemma_unravel_valid, unravel, valid_index, weighted_sum};
use crate::shape::{checked_numel, left_padded, lemma_numel_concat, lemma_numel_single, numel};
use crate::tensor::{copy_sizes, share_buffer, Tensor};

verus! {

impl<T: Copy> Tensor<T> {
    /// Builds a contiguous tensor of shape `out_shape` whose element at
    /// `idx` is the element of `self` at `pick(idx)`.
    pub(crate) fn select<G: Fn(&Vec<usize>) -> Vec<usize>>(
        &self,
        out_shape: &[usize],
        pick: G,
        Ghost(source): Ghost<spec_fn(Seq<usize>) -> Seq<usize>>,
    ) -> (r: Tensor<T>)
        requires
            self.wf(),
            numel(out_shape@) <= usize::MAX,
            forall|idx: &Vec<usize>| valid_index(idx@, out_shape@) ==> pick.requires((idx,)),
            forall|idx: &Vec<usize>, s: Vec<usize>|
                valid_index(idx@, out_shape@) && pick.ensures((idx,), s) ==> s@ == source(idx@)
                    && valid_index(s@, self.shape@),
        ensures
            r.wf(),
            r.contiguous(),
            r.shape@ == out_shape@,
            r.elements().len() == numel(out_shape@),
            forall|l: int|
                0 <= l < numel(out_shape@) ==> #[trigger] r.elements()[l] == self.at(
                    source(unravel(l as nat, out_shape@)),
                ),
    {
        let count = match checked_numel(out_shape) {
            Some(c) => c,
            None => 0,
        };
        let mut out: Vec<T> = Vec::new();
        let mut l: usize = 0;
        while l < count
            invariant
                self.wf(),
                count == numel(out_shape@),
                l <= count,
                out.len() == l,
                forall|idx: &Vec<usize>| valid_index(idx@, out_shape@) ==> pick.requires((idx,)),
                forall|idx: &Vec<usize>, s: Vec<usize>|
                    valid_index(idx@, out_shape@) && pick.ensures((idx,), s) ==> s@ == source(
                        idx@,
                    ) && valid_index(s@, self.shape@),
                forall|j: int|
                    0 <= j < l ==> #[trigger] out[j] == self.at(
                        source(unravel(j as nat, out_shape@)),
                    ),
            decreases count - l,
        {
            let idx = compute_indices(l, out_shape);
            proof {
                lemma_unravel_valid(l as nat, out_shape@);
            }
            let src = pick(&idx);
            match self.get(src.as_slice()) {
                Ok(v) => {
                    out.push(v);
                },
                Err(_) => unreached(),
            }
            l += 1;
        }
        Tensor::from_elements(out, copy_sizes(out_shape))
    }

    /// The part of the tensor where the index along `axis` runs from
    /// `start` to `start + len`, as a contiguous tensor. Fails with
    /// `IndexOutOfBounds` when `axis` is no dimension or the range leaves it.
    pub fn slice(&self, axis: usize, start: usize, len: usize) -> (r: Result<
        Tensor<T>,
        TensorError,
    >)
        requires
            self.wf(),
        ensures
            axis < self.shape@.len() && start + len <= self.shape@[axis as int] ==> r.is_ok(),
            !(axis < self.shape@.len() && start + len <= self.shape@[axis as int]) ==> r == Err::<
                Tensor<T>,
                TensorError,
            >(TensorError::IndexOutOfBounds),
            r.is_ok() ==> {
                let t = r.unwrap();
                let out_shape = self.shape@.update(axis as int, len);
                &&& t.wf()
                &&& t.contiguous()
                &&& t.shape@ == out_shape
                &&& t.elements().len() == numel(out_shape)
                &&& forall|l: int|
                    0 <= l < numel(out_shape) ==> #[trigger] t.elements()[l] == self.at(
                        shifted(unravel(l as nat, out_shape), axis as int, start as int),
                    )
            },
    {
        if axis >= self.shape.len() {
            return Err(TensorError::IndexOutOfBounds);
        }
        let dim = self.shape[axis];
        if start > dim || len > dim - start {
            return Err(TensorError::IndexOutOfBounds);
        }
        let mut out_shape = copy_sizes(self.shape.as_slice());
        out_shape.set(axis, len);
        proof {
            lemma_numel_update_le(self.shape@, axis as int, len);
        }
        let pick = |idx: &Vec<usize>| -> (s: Vec<usize>)
            requires
                valid_index(idx@, out_shape@),
            ensures
                s@ == shifted(idx@, axis as int, start as int),
                valid_index(s@, self.shape@),
            {
                let mut s = copy_sizes(idx.as_slice());
                s.set(axis, idx[axis] + start);
                s
            };
        Ok(
            self.select(
                out_shape.as_slice(),
                pick,
                Ghost(|idx: Seq<usize>| shifted(idx, axis as int, start as int)),
            ),
        )
    }

    /// The elements whose index along `axis` is listed in `indices`, in
    /// that order, as a contiguous tensor. Fails with `IndexOutOfBounds`
    /// when `axis` is no dimension or a listed index leaves it.
    pub fn gather(&self, axis: usize, indices: &[usize]) -> (r: Result<Tensor<T>, TensorError>)
        requires
            self.wf(),
            axis < self.shape@.len() ==> numel(self.shape@.update(axis as int, indices@.len() as usize))
                <= usize::MAX,
        ensures
            gather_ok(self.shape@, axis as int, indices@) ==> r.is_ok(),
            !gather_ok(self.shape@, axis as int, indices@) ==> r == Err::<Tensor<T>, TensorError>(
                TensorError::IndexOutOfBounds,
            ),
            r.is_ok() ==> {
                let t = r.unwrap();
                let out_shape = self.shape@.update(axis as int, indices@.len() as usize);
                &&& t.wf()
                &&& t.contiguous()
                &&& t.shape@ == out_shape
                &&& t.elements().len() == numel(out_shape)
                &&& forall|l: int|
                    0 <= l < numel(out_shape) ==> #[trigger] t.elements()[l] == self.at(
                        picked(unravel(l as nat, out_shape), axis as int, indices@),
                    )
            },
    {
        if axis >= self.shape.len() {
            return Err(TensorError::IndexOutOfBounds);
        }
        let dim = self.shape[axis];
        let mut k: usize = 0;
        while k < indices.len()
            invariant
                k <= indices.len(),
                axis < self.shape@.len(),
                dim == self.shape@[axis as int],
                forall|j: int| 0 <= j < k ==> indices[j] < dim,
            decreases indices.len() - k,
        {
            if indices[k] >= dim {
                assert(!(indices@[k as int] < self.shape@[axis as int]));
                return Err(TensorError::IndexOutOfBounds);
            }
            k += 1;
        }
        let mut out_shape = copy_sizes(self.shape.as_slice());
        out_shape.set(axis, indices.len());
        let pick = |idx: &Vec<usize>| -> (s: Vec<usize>)
            requires
                valid_index(idx@, out_shape@),
            ensures
                s@ == picked(idx@, axis as int, indices@),
                valid_index(s@, self.shape@),
            {
                let mut s = copy_sizes(idx.as_slice());
                s.set(axis, indices[idx[axis]]);
                s
            };
        Ok(
            self.select(
                out_shape.as_slice(),
                pick,
                Ghost(|idx: Seq<usize>| picked(idx, axis as int, indices@)),
            ),
        )
    }

    /// Repeats the tensor `size` times along a new dimension put at
    /// `axis`. Fails with `IndexOutOfBounds` when `axis` is beyond the rank.
    pub fn expand_dim(&self, axis: usize, size: usize) -> (r: Result<Tensor<T>, TensorError>)
        requires
            self.wf(),
            numel(self.shape@) * size <= usize::MAX,
        ensures
            axis <= self.shape@.len() ==> r.is_ok(),
            axis > self.shape@.len() ==> r == Err::<Tensor<T>, TensorError>(
                TensorError::IndexOutOfBounds,
            ),
            r.is_ok() ==> {
                let t = r.unwrap();
                let out_shape = self.shape@.insert(axis as int, size);
                &&& t.wf()
                &&& t.contiguous()
                &&& t.shape@ == out_shape
                &&& t.elements().len() == numel(out_shape)
                &&& forall|l: int|
                    0 <= l < numel(out_shape) ==> #[trigger] t.elements()[l] == self.at(
                        unravel(l as nat, out_shape).remove(axis as int),
                    )
            },
    {
        if axis > self.shape.len() {
            return Err(TensorError::IndexOutOfBounds);
        }
        let mut out_shape = copy_sizes(self.shape.as_slice());
        out_shape.insert(axis, size);
        proof {
            lemma_numel_insert(self.shape@, axis as int, size);
        }
        let pick = |idx: &Vec<usize>| -> (s: Vec<usize>)
            requires
                valid_index(idx@, out_shape@),
            ensures
                s@ == idx@.remove(axis as int),
                valid_index(s@, self.shape@),
            {
                let mut s = copy_sizes(idx.as_slice());
                s.remove(axis);
                s
            };
        Ok(
            self.select(
                out_shape.as_slice(),
                pick,
                Ghost(|idx: Seq<usize>| idx.remove(axis as int)),
            ),
        )
    }

    /// Inserts a dimension of size 1 at `axis`; the elements keep their
    /// order. Fails with `IndexOutOfBounds` when `axis` is beyond the rank.
    pub fn unsqueeze(&self, axis: usize) -> (r: Result<Tensor<T>, TensorError>)
        requires
            self.wf(),
        ensures
            axis <= self.shape@.len() ==> r.is_ok(),
            axis > self.shape@.len() ==> r == Err::<Tensor<T>, TensorError>(
                TensorError::IndexOutOfBounds,
            ),
            r.is_ok() ==> {
                let t = r.unwrap();
                &&& t.wf()
                &&& t.contiguous()
                &&& t.shape@ == self.shape@.insert(axis as int, 1usize)
                &&& t.elements() == self.elements()
            },
    {
        if axis > self.shape.len() {
            return Err(TensorError::IndexOutOfBounds);
        }
        let mut out_shape = copy_sizes(self.shape.as_slice());
        out_shape.insert(axis, 1);
        proof {
            lemma_numel_insert(self.shape@, axis as int, 1);
        }
        self.reshape(out_shape.as_slice())
    }

    /// Removes the dimension at `axis`, which must have size 1; the
    /// elements keep their order. Fails with `IndexOutOfBounds` when
    /// `axis` is no dimension and with `ShapeMismatch` when its size is not 1.
    pub fn squeeze(&self, axis: usize) -> (r: Result<Tensor<T>, TensorError>)
        requires
            self.wf(),
        ensures
            axis >= self.shape@.len() ==> r == Err::<Tensor<T>, TensorError>(
                TensorError::IndexOutOfBounds,
            ),
            axis < self.shape@.len() && self.shape@[axis as int] != 1 ==> r == Err::<
                Tensor<T>,
                TensorError,
            >(TensorError::ShapeMismatch),
            axis < self.shape@.len() && self.shape@[axis as int] == 1 ==> r.is_ok(),
            r.is_ok() ==> {
                let t = r.unwrap();
                &&& t.wf()
                &&& t.contiguous()
                &&& t.shape@ == self.shape@.remove(axis as int)
                &&& t.elements() == self.elements()
            },
    {
        if axis >= self.shape.len() {
            return Err(TensorError::IndexOutOfBounds);
        }
        if self.shape[axis] != 1 {
            return Err(TensorError::ShapeMismatch);
        }
        let mut out_shape = copy_sizes(self.shape.as_slice());
        out_shape.remove(axis);
        proof {
            lemma_numel_insert(out_shape@, axis as int, 1);
            assert(out_shape@.insert(axis as int, 1usize) =~= self.shape@);
        }
        self.reshape(out_shape.as_slice())
    }

    /// Swaps the two dimensions of a matrix without moving any element:
    /// the result reads the same buffer with exchanged strides. Fails
    /// with `ShapeMismatch` when the tensor is not two-dimensional.
    pub fn transpose(&self) -> (r: Result<Tensor<T>, TensorError>)
        requires
            self.wf(),
        ensures
            self.shape@.len() == 2 ==> r.is_ok(),
            self.shape@.len() != 2 ==> r == Err::<Tensor<T>, TensorError>(
                TensorError::ShapeMismatch,
            ),
            r.is_ok() ==> transposed(self, &r.unwrap()),
    {
        if self.shape.len() != 2 {
            return Err(TensorError::ShapeMismatch);
        }
        let mut shape: Vec<usize> = Vec::new();
        shape.push(self.shape[1]);
        shape.push(self.shape[0]);
        let mut strides: Vec<usize> = Vec::new();
        strides.push(self.strides[1]);
        strides.push(self.strides[0]);
        let t = Tensor { data: share_buffer(&self.data), shape, strides, offset: self.offset };
        proof {
            assert(t.shape@ =~= seq![self.shape@[1], self.shape@[0]]);
            assert(t.strides@ =~= seq![self.strides@[1], self.strides@[0]]);
            lemma_numel_pair(self.shape@);
            lemma_numel_pair(t.shape@);
            assert((self.shape@[0] as nat) * (self.shape@[1] as nat) == (self.shape@[1] as nat) * (
            self.shape@[0] as nat)) by (nonlinear_arith);
            assert forall|idx: Seq<usize>| #[trigger] valid_index(idx, t.shape@) implies t.position(
                idx,
            ) == self.position(seq![idx[1], idx[0]]) && valid_index(
                seq![idx[1], idx[0]],
                self.shape@,
            ) by {
                reveal_with_fuel(weighted_sum, 3);
                let swapped = seq![idx[1], idx[0]];
                assert(swapped[0] == idx[1] && swapped[1] == idx[0]);
            }
            assert forall|idx: Seq<usize>| #[trigger] valid_index(idx, t.shape@) implies t.position(
                idx,
            ) < t.data@.len() by {
                assert(valid_index(seq![idx[1], idx[0]], self.shape@));
            }
        }
        Ok(t)
    }

    /// Views the tensor under a larger shape without copying an element:
    /// dimensions of size 1, and the dimensions put in front, get stride
    /// 0. Fails with `NotBroadcastable` exactly when a size of the source
    /// is neither 1 nor the size asked for, or the target has fewer dimensions.
    pub fn broadcast_to(&self, target: &[usize]) -> (r: Result<Tensor<T>, TensorError>)
        requires
            self.wf(),
            numel(target@) <= usize::MAX,
        ensures
            expandable(self.shape@, target@) ==> r.is_ok(),
            !expandable(self.shape@, target@) ==> r == Err::<Tensor<T>, TensorError>(
                TensorError::NotBroadcastable,
            ),
            r.is_ok() ==> {
                let t = r.unwrap();
                &&& t.wf()
                &&& t.shape@ == target@
                &&& t.strides@ == broadcast_strides(self.shape@, self.strides@, target@.len())
                &&& t.offset == self.offset
                &&& t.data@ == self.data@
                &&& forall|idx: Seq<usize>| #[trigger]
                    valid_index(idx, target@) ==> t.at(idx) == self.at(
                        source_index(idx, self.shape@),
                    )
            },
    {
        let n = target.len();
        let m = self.shape.len();
        if m > n {
            return Err(TensorError::NotBroadcastable);
        }
        let lead = n - m;
        let mut strides: Vec<usize> = Vec::new();
        let mut i: usize = 0;
        while i < n
            invariant
                self.wf(),
                n == target@.len(),
                m == self.shape@.len(),
                m <= n,
                lead == n - m,
                i <= n,
                strides.len() == i,
                forall|j: int|
                    0 <= j < i ==> {
                        let p = #[trigger] left_padded(self.shape@, n as nat)[j];
                        p == target[j] || p == 1
                    },
                forall|j: int|
                    0 <= j < i ==> strides[j] == broadcast_strides(
                        self.shape@,
                        self.strides@,
                        n as nat,
                    )[j],
            decreases n - i,
        {
            if i < lead {
                strides.push(0);
            } else {
                let d = self.shape[i - lead];
                if d == 1 {
                    strides.push(0);
                } else if d == target[i] {
                    strides.push(self.strides[i - lead]);
                } else {
                    assert(left_padded(self.shape@, n as nat)[i as int] == d);
                    return Err(TensorError::NotBroadcastable);
                }
            }
            i += 1;
        }
        assert(strides@ =~= broadcast_strides(self.shape@, self.strides@, n as nat));
        let t = Tensor {
            data: share_buffer(&self.data),
            shape: copy_sizes(target),
            strides,
            offset: self.offset,
        };
        proof {
            assert forall|idx: Seq<usize>| #[trigger] valid_index(idx, target@) implies t.position(
                idx,
            ) == self.position(source_index(idx, self.shape@)) && valid_index(
                source_index(idx, self.shape@),
                self.shape@,
            ) by {
                lemma_broadcast_position(idx, self.shape@, self.strides@, target@, m as nat);
                let sidx = source_index(idx, self.shape@);
                assert forall|k: int| 0 <= k < m implies sidx[k] < self.shape@[k] by {
                    assert(left_padded(self.shape@, n as nat)[k + lead] == self.shape@[k]);
                }
            }
            assert forall|idx: Seq<usize>| #[trigger] valid_index(idx, t.shape@) implies t.position(
                idx,
            ) < t.data@.len() by {
                assert(valid_index(source_index(idx, self.shape@), self.shape@));
            }
        }
        Ok(t)
    }
}

/// `t` is the transpose of the matrix `src`: a view of the same buffer
/// with the two sizes and the two strides exchanged.
pub open spec fn transposed<T: Copy>(src: &Tensor<T>, t: &Tensor<T>) -> bool {
    &&& t.wf()
    &&& t.shape@ == seq![src.shape@[1], src.shape@[0]]
    &&& t.strides@ == seq![src.strides@[1], src.strides@[0]]
    &&& t.offset == src.offset
    &&& t.data@ == src.data@
    &&& forall|idx: Seq<usize>| #[trigger]
        valid_index(idx, t.shape@) ==> t.at(idx) == src.at(seq![idx[1], idx[0]])
}

/// `idx` moved by `by` along `axis`.
pub open spec fn shifted(idx: Seq<usize>, axis: int, by: int) -> Seq<usize> {
    idx.update(axis, (idx[axis] + by) as usize)
}

/// Shrinking one dimension does not grow the element count.
pub proof fn lemma_numel_update_le(shape: Seq<usize>, axis: int, len: usize)
    requires
        0 <= axis < shape.len(),
        len <= shape[axis],
    ensures
        numel(shape.update(axis, len)) <= numel(shape),
{
    let left = shape.subrange(0, axis);
    let right = shape.subrange(axis + 1, shape.len() as int);
    lemma_numel_concat(left, seq![shape[axis]] + right);
    lemma_numel_concat(seq![shape[axis]], right);
    lemma_numel_concat(left, seq![len] + right);
    lemma_numel_concat(seq![len], right);
    lemma_numel_single(len);
    lemma_numel_single(shape[axis]);
    assert(left + (seq![shape[axis]] + right) =~= shape);
    assert(left + (seq![len] + right) =~= shape.update(axis, len));
    let a = numel(left);
    let b = numel(right);
    assert(a * ((len as nat) * b) <= a * ((shape[axis] as nat) * b)) by (nonlinear_arith)
        requires
            len <= shape[axis],
    ;
}

/// A gather is admissible: `axis` is a dimension and every listed index lies in it.
pub open spec fn gather_ok(shape: Seq<usize>, axis: int, indices: Seq<usize>) -> bool {
    &&& 0 <= axis < shape.len()
    &&& forall|j: int| 0 <= j < indices.len() ==> indices[j] < shape[axis]
}

/// `idx` with its entry along `axis` looked up in `indices`.
pub open spec fn picked(idx: Seq<usize>, axis: int, indices: Seq<usize>) -> Seq<usize> {
    idx.update(axis, indices[idx[axis] as int])
}

/// Inserting a dimension multiplies the element count by its size.
pub proof fn lemma_numel_insert(shape: Seq<usize>, axis: int, size: usize)
    requires
        0 <= axis <= shape.len(),
    ensures
        numel(shape.insert(axis, size)) == numel(shape) * size,
{
    let left = shape.subrange(0, axis);
    let right = shape.subrange(axis, shape.len() as int);
    lemma_numel_concat(left, right);
    lemma_numel_concat(left, seq![size] + right);
    lemma_numel_concat(seq![size], right);
    lemma_numel_single(size);
    assert(left + right =~= shape);
    assert(left + (seq![size] + right) =~= shape.insert(axis, size));
    let a = numel(left);
    let b = numel(right);
    assert(a * ((size as nat) * b) == (a * b) * size) by (nonlinear_arith);
}

/// `shape` can be expanded to `target`: after left-padding with 1s each
/// size is the one asked for or 1.
pub open spec fn expandable(shape: Seq<usize>, target: Seq<usize>) -> bool {
    &&& shape.len() <= target.len()
    &&& forall|i: int|
        0 <= i < target.len() ==> {
            let p = #[trigger] left_padded(shape, target.len())[i];
            p == target[i] || p == 1
        }
}

/// Strides of a broadcast view of rank `rank`: 0 for every dimension put
/// in front and for every dimension of size 1, the source stride otherwise.
pub open spec fn broadcast_strides(shape: Seq<usize>, strides: Seq<usize>, rank: nat) -> Seq<usize>
    recommends
        shape.len() <= rank,
        strides.len() == shape.len(),
{
    Seq::new(
        rank,
        |i: int|
            if i < rank - shape.len() || shape[i - (rank - shape.len())] == 1 {
                0usize
            } else {
                strides[i - (rank - shape.len())]
            },
    )
}

/// A broadcast view reads, at `idx`, the storage position the source
/// holds its element `source_index(idx)` at.
pub proof fn lemma_broadcast_position(
    idx: Seq<usize>,
    shape: Seq<usize>,
    strides: Seq<usize>,
    target: Seq<usize>,
    k: nat,
)
    requires
        shape.len() <= target.len(),
        strides.len() == shape.len(),
        idx.len() == target.len(),
        k <= shape.len(),
    ensures
        weighted_sum(
            idx,
            broadcast_strides(shape, strides, target.len()),
            (target.len() - shape.len() + k) as nat,
        ) == weighted_sum(source_index(idx, shape), strides, k),
    decreases k,
{
    let lead = (target.len() - shape.len()) as nat;
    let wide = broadcast_strides(shape, strides, target.len());
    if k == 0 {
        lemma_leading_zero(idx, wide, lead);
    } else {
        lemma_broadcast_position(idx, shape, strides, target, (k - 1) as nat);
        let j = (lead + k - 1) as int;
        let sidx = source_index(idx, shape);
        assert(weighted_sum(idx, wide, (lead + k) as nat) == weighted_sum(
            idx,
            wide,
            (lead + k - 1) as nat,
        ) + (idx[j] as nat) * (wide[j] as nat));
        if shape[k - 1] == 1 {
            assert(wide[j] == 0);
            assert(sidx[k - 1] == 0);
            assert((idx[j] as nat) * 0 == 0) by (nonlinear_arith);
            assert(0 * (strides[k - 1] as nat) == 0) by (nonlinear_arith);
        } else {
            assert(wide[j] == strides[k - 1]);
            assert(sidx[k - 1] == idx[j]);
        }
    }
}

/// Dimensions with stride 0 add nothing to a storage position.
pub proof fn lemma_leading_zero(idx: Seq<usize>, strides: Seq<usize>, k: nat)
    requires
        k <= strides.len(),
        forall|i: int| 0 <= i < k ==> strides[i] == 0,
    ensures
        weighted_sum(idx, strides, k) == 0,
    decreases k,
{
    if k > 0 {
        lemma_leading_zero(idx, strides, (k - 1) as nat);
        assert((idx[k - 1] as nat) * 0 == 0) by (nonlinear_arith);
    }
}

/// A matrix has rows times columns elements.
pub proof fn lemma_numel_pair(shape: Seq<usize>)
    requires
        shape.len() == 2,
    ensures
        numel(shape) == (shape[0] as nat) * (shape[1] as nat),
{
    lemma_numel_concat(seq![shape[0]], seq![shape[1]]);
    lemma_numel_single(shape[0]);
    lemma_numel_single(shape[1]);
    assert(seq![shape[0]] + seq![shape[1]] =~= shape);
}

} // verus!
