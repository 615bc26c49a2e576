//! The tensor value: a shape, strides and an offset laid over a flat buffer.

use vstd::prelude::*;
use std::rc::Rc;
use crate::error::TensorError;
use crate::index::{
    compute_indices, lemma_linear_bound, lemma_linear_unravel, lemma_row_major_flat,
    lemma_unravel_linear, lemma_unravel_valid, lemma_weighted_monotone, linear_index, unravel,
    valid_index, weighted_sum,
};
use crate::shape::{
    checked_numel, compute_strides, lemma_numel_single, numel, row_major_strides, stride_at,
    suffix_numel,
};

verus! {

/// An N-dimensional array seen through a strided view.
///
/// The element at multi-index `idx` is stored at
/// `offset + sum(idx[i] * strides[i])` in `data`. The buffer is shared:
/// views of one tensor read the same buffer, and a write gives the
/// written tensor a buffer of its own.
#[derive(Clone)]
pub struct Tensor<T> {
    pub data: Rc<Vec<T>>,
    pub shape: Vec<usize>,
    pub strides: Vec<usize>,
    pub offset: usize,
}

impl<T: Copy> Tensor<T> {
    /// Storage position of the element at `idx`.
    pub open spec fn position(&self, idx: Seq<usize>) -> nat {
        self.offset as nat + weighted_sum(idx, self.strides@, self.shape@.len())
    }

    /// The view is consistent: one stride per dimension, an element count
    /// that fits the machine, and every valid index inside the buffer.
    pub open spec fn wf(&self) -> bool {
        &&& self.shape@.len() == self.strides@.len()
        &&& numel(self.shape@) <= usize::MAX
        &&& forall|idx: Seq<usize>| #[trigger]
            valid_index(idx, self.shape@) ==> self.position(idx) < self.data@.len()
    }

    /// The element at multi-index `idx`.
    pub open spec fn at(&self, idx: Seq<usize>) -> T {
        self.data@[self.position(idx) as int]
    }

    /// The view is contiguous: no offset and canonical row-major strides.
    pub open spec fn contiguous(&self) -> bool {
        self.offset == 0 && self.strides@ == row_major_strides(self.shape@)
    }

    /// The elements in row-major order.
    pub open spec fn elements(&self) -> Seq<T> {
        Seq::new(numel(self.shape@), |l: int| self.at(unravel(l as nat, self.shape@)))
    }

    /// Builds a contiguous tensor over `data`. Fails with `ShapeMismatch`
    /// exactly when the number of values is not the product of the sizes.
    pub fn new(data: Vec<T>, shape: &[usize]) -> (r: Result<Tensor<T>, TensorError>)
        ensures
            data@.len() == numel(shape@) ==> r.is_ok(),
            data@.len() != numel(shape@) ==> r == Err::<Tensor<T>, TensorError>(
                TensorError::ShapeMismatch,
            ),
            r.is_ok() ==> {
                let t = r.unwrap();
                &&& t.wf()
                &&& t.contiguous()
                &&& t.shape@ == shape@
                &&& t.data@ == data@
                &&& t.elements() == data@
            },
    {
        let len = data.len();
        match checked_numel(shape) {
            Some(count) => {
                if count != len {
                    return Err(TensorError::ShapeMismatch);
                }
            },
            None => {
                return Err(TensorError::ShapeMismatch);
            },
        }
        Ok(Tensor::from_elements(data, copy_sizes(shape)))
    }

    /// The dimension sizes.
    pub fn shape(&self) -> (s: &Vec<usize>)
        ensures
            s@ == self.shape@,
    {
        &self.shape
    }

    /// The per-dimension strides.
    pub fn strides(&self) -> (s: &Vec<usize>)
        ensures
            s@ == self.strides@,
    {
        &self.strides
    }

    /// The storage position of the first element.
    pub fn offset(&self) -> (o: usize)
        ensures
            o == self.offset,
    {
        self.offset
    }

    /// Number of elements.
    pub fn numel(&self) -> (n: usize)
        requires
            self.wf(),
        ensures
            n == numel(self.shape@),
    {
        match checked_numel(self.shape.as_slice()) {
            Some(n) => n,
            None => 0,
        }
    }

    /// Whether the tensor holds exactly one element.
    pub fn is_scalar(&self) -> (b: bool)
        requires
            self.wf(),
        ensures
            b == (numel(self.shape@) == 1),
    {
        self.numel() == 1
    }

    /// Whether the view has no offset and canonical row-major strides.
    pub fn is_contiguous(&self) -> (b: bool)
        ensures
            b == self.contiguous(),
    {
        if self.offset != 0 {
            return false;
        }
        let expected = compute_strides(self.shape.as_slice());
        same_sizes(&self.strides, &expected)
    }

    /// Storage position of the element at `indices`, after checking every
    /// index against its dimension.
    pub fn compute_flat_index(&self, indices: &[usize]) -> (r: Result<usize, TensorError>)
        requires
            self.wf(),
        ensures
            valid_index(indices@, self.shape@) ==> r == Ok::<usize, TensorError>(
                self.position(indices@) as usize,
            ) && self.position(indices@) < self.data@.len(),
            !valid_index(indices@, self.shape@) ==> r == Err::<usize, TensorError>(
                TensorError::IndexOutOfBounds,
            ),
    {
        let n = self.shape.len();
        if indices.len() != n {
            return Err(TensorError::IndexOutOfBounds);
        }
        let mut k: usize = 0;
        while k < n
            invariant
                n == self.shape@.len(),
                indices@.len() == n,
                k <= n,
                forall|i: int| 0 <= i < k ==> indices[i] < self.shape[i],
            decreases n - k,
        {
            if indices[k] >= self.shape[k] {
                return Err(TensorError::IndexOutOfBounds);
            }
            k += 1;
        }
        assert(valid_index(indices@, self.shape@));
        let len = self.data.len();
        let mut flat: usize = self.offset;
        let mut i: usize = 0;
        while i < n
            invariant
                self.wf(),
                len == self.data@.len(),
                n == self.shape@.len(),
                valid_index(indices@, self.shape@),
                i <= n,
                flat == self.offset + weighted_sum(indices@, self.strides@, i as nat),
            decreases n - i,
        {
            proof {
                lemma_weighted_monotone(indices@, self.strides@, (i + 1) as nat, n as nat);
                assert(self.position(indices@) < self.data@.len());
                assert(weighted_sum(indices@, self.strides@, (i + 1) as nat) == weighted_sum(
                    indices@,
                    self.strides@,
                    i as nat,
                ) + (indices[i as int] as nat) * (self.strides[i as int] as nat));
                assert(weighted_sum(indices@, self.strides@, i as nat) >= 0);
            }
            flat = flat + indices[i] * self.strides[i];
            i += 1;
        }
        Ok(flat)
    }

    /// Reads the element at `indices`; `IndexOutOfBounds` when the index
    /// has the wrong rank or leaves a dimension.
    pub fn get(&self, indices: &[usize]) -> (r: Result<T, TensorError>)
        requires
            self.wf(),
        ensures
            valid_index(indices@, self.shape@) ==> r == Ok::<T, TensorError>(self.at(indices@)),
            !valid_index(indices@, self.shape@) ==> r == Err::<T, TensorError>(
                TensorError::IndexOutOfBounds,
            ),
    {
        let len = self.data.len();
        match self.compute_flat_index(indices) {
            Ok(flat) => {
                assert(flat as int == self.position(indices@) as int);
                Ok(self.data[flat])
            },
            Err(e) => Err(e),
        }
    }

    /// Writes `value` at `indices`, leaving every other element as it was.
    pub fn set(&mut self, indices: &[usize], value: T) -> (r: Result<(), TensorError>)
        requires
            old(self).wf(),
        ensures
            final(self).wf(),
            final(self).shape == old(self).shape,
            final(self).strides == old(self).strides,
            final(self).offset == old(self).offset,
            valid_index(indices@, old(self).shape@) ==> r.is_ok() && final(self).data@ == old(
                self,
            ).data@.update(old(self).position(indices@) as int, value),
            !valid_index(indices@, old(self).shape@) ==> r == Err::<(), TensorError>(
                TensorError::IndexOutOfBounds,
            ) && final(self).data@ == old(self).data@,
    {
        let len = self.data.len();
        match self.compute_flat_index(indices) {
            Ok(flat) => {
                let mut fresh = copy_values(&self.data);
                fresh.set(flat, value);
                self.data = Rc::new(fresh);
                assert forall|idx: Seq<usize>| #[trigger]
                    valid_index(idx, self.shape@) implies self.position(idx)
                    < self.data@.len() by {
                    assert(old(self).position(idx) < old(self).data@.len());
                }
                Ok(())
            },
            Err(e) => Err(e),
        }
    }

    /// The elements of a contiguous tensor as one flat slice in row-major
    /// order; `NotContiguous` for any view with an offset or with strides
    /// that are not row-major.
    pub fn as_slice(&self) -> (r: Result<&[T], TensorError>)
        requires
            self.wf(),
        ensures
            self.flat().is_some() ==> r.is_ok() && r.unwrap()@ == self.flat().unwrap(),
            self.flat().is_none() ==> r == Err::<&[T], TensorError>(TensorError::NotContiguous),
    {
        if self.is_contiguous() {
            let n = self.numel();
            proof {
                self.lemma_contiguous_elements();
            }
            Ok(vstd::slice::slice_subrange(self.data.as_slice(), 0, n))
        } else {
            Err(TensorError::NotContiguous)
        }
    }

    /// A contiguous tensor stores its elements in row-major order at the
    /// front of its buffer.
    pub proof fn lemma_contiguous_elements(&self)
        requires
            self.wf(),
            self.contiguous(),
        ensures
            numel(self.shape@) <= self.data@.len(),
            self.elements() == self.data@.subrange(0, numel(self.shape@) as int),
    {
        let count = numel(self.shape@);
        assert forall|l: int| 0 <= l < count implies l < self.data@.len() && self.at(
            unravel(l as nat, self.shape@),
        ) == self.data@[l] by {
            let idx = unravel(l as nat, self.shape@);
            lemma_unravel_valid(l as nat, self.shape@);
            lemma_row_major_flat(idx, self.shape@);
            lemma_linear_unravel(l as nat, self.shape@);
            assert(valid_index(idx, self.shape@));
            assert(self.position(idx) < self.data@.len());
        }
        if count > 0 {
            let last = (count - 1) as nat;
            let idx = unravel(last, self.shape@);
            lemma_unravel_valid(last, self.shape@);
            lemma_row_major_flat(idx, self.shape@);
            lemma_linear_unravel(last, self.shape@);
            assert(self.position(idx) < self.data@.len());
        }
        assert(self.elements() =~= self.data@.subrange(0, count as int));
    }

    /// The elements in row-major order, read through the view.
    pub fn gather_elements(&self) -> (out: Vec<T>)
        requires
            self.wf(),
        ensures
            out@ == self.elements(),
    {
        let count = self.numel();
        let mut out: Vec<T> = Vec::new();
        let mut l: usize = 0;
        while l < count
            invariant
                self.wf(),
                count == numel(self.shape@),
                l <= count,
                out.len() == l,
                forall|j: int| 0 <= j < l ==> out[j] == self.at(unravel(j as nat, self.shape@)),
            decreases count - l,
        {
            let idx = compute_indices(l, self.shape.as_slice());
            proof {
                lemma_unravel_valid(l as nat, self.shape@);
            }
            let len = self.data.len();
            match self.compute_flat_index(idx.as_slice()) {
                Ok(flat) => {
                    out.push(self.data[flat]);
                },
                Err(_) => unreached(),
            }
            l += 1;
        }
        assert(out@ =~= self.elements());
        out
    }

    /// Wraps a row-major buffer into a contiguous tensor.
    pub(crate) fn from_elements(data: Vec<T>, shape: Vec<usize>) -> (t: Tensor<T>)
        requires
            data@.len() == numel(shape@),
        ensures
            t.wf(),
            t.contiguous(),
            t.shape@ == shape@,
            t.data@ == data@,
            t.elements() == data@,
    {
        let len = data.len();
        let strides = compute_strides(shape.as_slice());
        let t = Tensor { data: Rc::new(data), shape, strides, offset: 0 };
        proof {
            assert forall|idx: Seq<usize>| #[trigger]
                valid_index(idx, t.shape@) implies t.position(idx) < t.data@.len() by {
                lemma_row_major_flat(idx, t.shape@);
                lemma_linear_bound(idx, t.shape@);
            }
            t.lemma_contiguous_elements();
            assert(t.data@.subrange(0, len as int) =~= t.data@);
        }
        t
    }

    /// A contiguous tensor with the same shape and the same elements.
    pub fn to_contiguous(&self) -> (t: Tensor<T>)
        requires
            self.wf(),
        ensures
            t.wf(),
            t.contiguous(),
            t.shape@ == self.shape@,
            t.elements() == self.elements(),
            t.data@ == self.elements(),
    {
        self.with_shape(copy_sizes(self.shape.as_slice()))
    }

    /// The same elements under another shape, as a contiguous tensor.
    /// Fails with `ShapeMismatch` exactly when the element counts differ.
    pub fn reshape(&self, shape: &[usize]) -> (r: Result<Tensor<T>, TensorError>)
        requires
            self.wf(),
        ensures
            numel(shape@) == numel(self.shape@) ==> r.is_ok(),
            numel(shape@) != numel(self.shape@) ==> r == Err::<Tensor<T>, TensorError>(
                TensorError::ShapeMismatch,
            ),
            r.is_ok() ==> {
                let t = r.unwrap();
                &&& t.wf()
                &&& t.contiguous()
                &&& t.shape@ == shape@
                &&& t.elements() == self.elements()
                &&& t.data@ == self.elements()
            },
    {
        let count = self.numel();
        match checked_numel(shape) {
            Some(c) => {
                if c != count {
                    return Err(TensorError::ShapeMismatch);
                }
            },
            None => {
                return Err(TensorError::ShapeMismatch);
            },
        }
        Ok(self.with_shape(copy_sizes(shape)))
    }

    /// The elements of `self` under a shape with the same element count:
    /// a contiguous tensor that fills its buffer lends the buffer, any
    /// other view is copied out in row-major order.
    fn with_shape(&self, shape: Vec<usize>) -> (t: Tensor<T>)
        requires
            self.wf(),
            numel(shape@) == numel(self.shape@),
        ensures
            t.wf(),
            t.contiguous(),
            t.shape@ == shape@,
            t.elements() == self.elements(),
            t.data@ == self.elements(),
    {
        let count = self.numel();
        if self.is_contiguous() && self.data.len() == count {
            let strides = compute_strides(shape.as_slice());
            let t = Tensor { data: share_buffer(&self.data), shape, strides, offset: 0 };
            proof {
                assert forall|idx: Seq<usize>| #[trigger]
                    valid_index(idx, t.shape@) implies t.position(idx) < t.data@.len() by {
                    lemma_row_major_flat(idx, t.shape@);
                    lemma_linear_bound(idx, t.shape@);
                }
                self.lemma_contiguous_elements();
                t.lemma_contiguous_elements();
                assert(self.data@.subrange(0, count as int) =~= self.data@);
            }
            t
        } else {
            Tensor::from_elements(self.gather_elements(), shape)
        }
    }
}

impl<T: Copy> Tensor<T> {
    /// A contiguous tensor of the given shape with every element equal to `value`.
    pub fn full(shape: &[usize], value: T) -> (t: Tensor<T>)
        requires
            numel(shape@) <= usize::MAX,
        ensures
            t.wf(),
            t.contiguous(),
            t.shape@ == shape@,
            t.elements().len() == numel(shape@),
            forall|l: int| 0 <= l < numel(shape@) ==> #[trigger] t.elements()[l] == value,
    {
        let count = match checked_numel(shape) {
            Some(c) => c,
            None => 0,
        };
        let mut data: Vec<T> = Vec::new();
        let mut i: usize = 0;
        while i < count
            invariant
                i <= count,
                data.len() == i,
                forall|j: int| 0 <= j < i ==> data[j] == value,
            decreases count - i,
        {
            data.push(value);
            i += 1;
        }
        Tensor::from_elements(data, copy_sizes(shape))
    }

    /// A tensor of the given shape filled with `zero`.
    pub fn zeros(shape: &[usize], zero: T) -> (t: Tensor<T>)
        requires
            numel(shape@) <= usize::MAX,
        ensures
            t.wf(),
            t.contiguous(),
            t.shape@ == shape@,
            t.elements().len() == numel(shape@),
            forall|l: int| 0 <= l < numel(shape@) ==> #[trigger] t.elements()[l] == zero,
    {
        Tensor::full(shape, zero)
    }

    /// A tensor of the given shape filled with `one`.
    pub fn ones(shape: &[usize], one: T) -> (t: Tensor<T>)
        requires
            numel(shape@) <= usize::MAX,
        ensures
            t.wf(),
            t.contiguous(),
            t.shape@ == shape@,
            t.elements().len() == numel(shape@),
            forall|l: int| 0 <= l < numel(shape@) ==> #[trigger] t.elements()[l] == one,
    {
        Tensor::full(shape, one)
    }

    /// The one-element tensor of shape `[1]` that holds `value`.
    pub fn from_scalar(value: T) -> (t: Tensor<T>)
        ensures
            t.wf(),
            t.contiguous(),
            t.shape@ == seq![1usize],
            t.elements() == seq![value],
    {
        let mut shape: Vec<usize> = Vec::new();
        shape.push(1);
        let mut data: Vec<T> = Vec::new();
        data.push(value);
        proof {
            lemma_numel_single(1);
            assert(shape@ =~= seq![1usize]);
            assert(data@ =~= seq![value]);
        }
        Tensor::from_elements(data, shape)
    }

    /// The only element of a one-element tensor, `None` for any other.
    pub fn as_scalar(&self) -> (r: Option<T>)
        requires
            self.wf(),
        ensures
            numel(self.shape@) == 1 ==> r == Some(self.elements()[0]),
            numel(self.shape@) != 1 ==> r.is_none(),
    {
        if self.is_scalar() {
            let values = self.gather_elements();
            Some(values[0])
        } else {
            None
        }
    }

    /// Another tensor with the same view of the same buffer.
    pub fn duplicate(&self) -> (t: Tensor<T>)
        ensures
            t.data@ == self.data@,
            t.shape@ == self.shape@,
            t.strides@ == self.strides@,
            t.offset == self.offset,
            self.wf() ==> t.wf(),
            t.elements() == self.elements(),
    {
        let t = Tensor {
            data: share_buffer(&self.data),
            shape: copy_sizes(self.shape.as_slice()),
            strides: copy_sizes(self.strides.as_slice()),
            offset: self.offset,
        };
        proof {
            if self.wf() {
                assert forall|idx: Seq<usize>| #[trigger]
                    valid_index(idx, t.shape@) implies t.position(idx) < t.data@.len() by {
                    assert(self.position(idx) < self.data@.len());
                }
            }
            assert(t.elements() =~= self.elements());
        }
        t
    }
}

impl<T: Copy> Tensor<T> {
    /// What flat access gives: the elements in row-major order for a
    /// contiguous tensor, nothing for any other view.
    pub open spec fn flat(&self) -> Option<Seq<T>> {
        if self.contiguous() {
            Some(self.elements())
        } else {
            None
        }
    }

    /// The element at a valid index is the element at its row-major position.
    pub proof fn lemma_element_at(&self, idx: Seq<usize>)
        requires
            valid_index(idx, self.shape@),
        ensures
            linear_index(idx, self.shape@) < self.elements().len(),
            self.elements()[linear_index(idx, self.shape@) as int] == self.at(idx),
    {
        lemma_linear_bound(idx, self.shape@);
        lemma_unravel_linear(idx, self.shape@);
    }

    /// Reshaping a contiguous tensor leaves the flat elements as they
    /// are: flat access to the result gives what flat access to the
    /// tensor gives.
    pub proof fn lemma_reshape_round_trip(&self, shape: Seq<usize>, reshaped: &Tensor<T>)
        requires
            self.wf(),
            self.contiguous(),
            reshaped.wf(),
            reshaped.contiguous(),
            reshaped.shape@ == shape,
            reshaped.elements() == self.elements(),
        ensures
            reshaped.flat() == self.flat(),
            self.flat() == Some(self.data@.subrange(0, numel(self.shape@) as int)),
            reshaped.data@.subrange(0, numel(shape) as int) == self.data@.subrange(
                0,
                numel(self.shape@) as int,
            ),
    {
        self.lemma_contiguous_elements();
        reshaped.lemma_contiguous_elements();
    }

    /// The transpose of a contiguous matrix is not contiguous, so flat
    /// access to it is refused, unless the matrix has a single row and a
    /// single column.
    pub proof fn lemma_transpose_not_contiguous(&self, turned: &Tensor<T>)
        requires
            self.wf(),
            self.contiguous(),
            self.shape@.len() == 2,
            !(self.shape@[0] == 1 && self.shape@[1] == 1),
            turned.shape@ == seq![self.shape@[1], self.shape@[0]],
            turned.strides@ == seq![self.strides@[1], self.strides@[0]],
            turned.offset == self.offset,
        ensures
            !turned.contiguous(),
            turned.flat().is_none(),
    {
        let a = self.shape@[0];
        let b = self.shape@[1];
        lemma_pair_strides(self.shape@);
        lemma_pair_strides(turned.shape@);
        assert(self.strides@[0] == b && self.strides@[1] == 1);
        assert(row_major_strides(turned.shape@)[0] == a);
        assert(row_major_strides(turned.shape@)[1] == 1);
        if turned.contiguous() {
            assert(turned.strides@[0] == a);
            assert(turned.strides@[1] == 1);
        }
    }
}

/// The row-major strides of a matrix are its number of columns and 1.
pub proof fn lemma_pair_strides(shape: Seq<usize>)
    requires
        shape.len() == 2,
    ensures
        row_major_strides(shape)[0] == shape[1],
        row_major_strides(shape)[1] == 1,
{
    assert(shape.subrange(2, 2).len() == 0);
    assert(suffix_numel(shape, 2) == 1);
    assert(shape.subrange(1, 2) =~= seq![shape[1]]);
    lemma_numel_single(shape[1]);
    assert(suffix_numel(shape, 1) == shape[1]);
    assert(stride_at(shape, 0) == shape[1]);
    assert(stride_at(shape, 1) == 1);
}

/// Another handle to the same buffer, made by `Rc::clone`: no element
/// is copied, and the buffer behind the new handle holds the same values.
#[verifier::external_body]
pub(crate) fn share_buffer<T>(buffer: &Rc<Vec<T>>) -> (r: Rc<Vec<T>>)
    ensures
        r@ == buffer@,
{
    Rc::clone(buffer)
}

/// A fresh vector with the same values.
pub fn copy_values<T: Copy>(src: &Vec<T>) -> (r: Vec<T>)
    ensures
        r@ == src@,
{
    let mut out: Vec<T> = Vec::new();
    let mut i: usize = 0;
    while i < src.len()
        invariant
            i <= src.len(),
            out.len() == i,
            forall|j: int| 0 <= j < i ==> out[j] == src[j],
        decreases src.len() - i,
    {
        out.push(src[i]);
        i += 1;
    }
    assert(out@ =~= src@);
    out
}

/// A fresh vector with the same sizes.
pub fn copy_sizes(src: &[usize]) -> (r: Vec<usize>)
    ensures
        r@ == src@,
{
    let mut out: Vec<usize> = Vec::new();
    let mut i: usize = 0;
    while i < src.len()
        invariant
            i <= src.len(),
            out.len() == i,
            forall|j: int| 0 <= j < i ==> out[j] == src[j],
        decreases src.len() - i,
    {
        out.push(src[i]);
        i += 1;
    }
    assert(out@ =~= src@);
    out
}

/// Whether two size lists are equal.
pub fn same_sizes(a: &Vec<usize>, b: &Vec<usize>) -> (r: bool)
    ensures
        r == (a@ == b@),
{
    if a.len() != b.len() {
        return false;
    }
    let mut i: usize = 0;
    while i < a.len()
        invariant
            a.len() == b.len(),
            i <= a.len(),
            forall|j: int| 0 <= j < i ==> a[j] == b[j],
        decreases a.len() - i,
    {
        if a[i] != b[i] {
            return false;
        }
        i += 1;
    }
    assert(a@ =~= b@);
    true
}

} // verus!
