//! Elementwise operations. The arithmetic itself is a function value
//! supplied by the caller; this module decides which elements meet.

use vstd::prelude::*;
use crate::error::TensorError;
use crate::index::{compute_indices, lemma_unravel_valid, unravel, valid_index};
use crate::shape::{
    broadcast_dimensions, broadcast_shape, broadcastable, checked_numel, dims_compatible,
    joint_rank, left_padded, numel,
};
use crate::tensor::{copy_sizes, Tensor};

verus! {

/// The index of the operand element that takes part at output index
/// `idx`: leading dimensions the operand lacks are dropped, and a
/// dimension of size 1 is read at 0.
pub open spec fn source_index(idx: Seq<usize>, shape: Seq<usize>) -> Seq<usize>
    recommends
        shape.len() <= idx.len(),
{
    Seq::new(
        shape.len(),
        |i: int|
            if shape[i] == 1 {
                0usize
            } else {
                idx[i + (idx.len() - shape.len())]
            },
    )
}

/// Computes `source_index`.
pub(crate) fn operand_index(idx: &[usize], shape: &[usize]) -> (r: Vec<usize>)
    requires
        shape.len() <= idx.len(),
    ensures
        r@ == source_index(idx@, shape@),
{
    let lead = idx.len() - shape.len();
    let mut out: Vec<usize> = Vec::new();
    let mut i: usize = 0;
    while i < shape.len()
        invariant
            i <= shape.len(),
            lead == idx.len() - shape.len(),
            out.len() == i,
            forall|j: int| 0 <= j < i ==> out[j] == source_index(idx@, shape@)[j],
        decreases shape.len() - i,
    {
        if shape[i] == 1 {
            out.push(0);
        } else {
            out.push(idx[i + lead]);
        }
        i += 1;
    }
    assert(out@ =~= source_index(idx@, shape@));
    out
}

/// An index into the broadcast shape selects a valid element of each operand.
pub proof fn lemma_source_index_valid(idx: Seq<usize>, a: Seq<usize>, b: Seq<usize>)
    requires
        broadcastable(a, b),
        valid_index(idx, broadcast_shape(a, b)),
    ensures
        valid_index(source_index(idx, a), a),
        valid_index(source_index(idx, b), b),
{
    let r = joint_rank(a, b);
    let out = broadcast_shape(a, b);
    assert forall|i: int| 0 <= i < a.len() implies source_index(idx, a)[i] < a[i] by {
        let j = i + (r - a.len());
        assert(left_padded(a, r)[j] == a[i]);
        assert(idx[j] < out[j]);
    }
    assert forall|i: int| 0 <= i < b.len() implies source_index(idx, b)[i] < b[i] by {
        let j = i + (r - b.len());
        assert(left_padded(b, r)[j] == b[i]);
        assert(dims_compatible(left_padded(a, r)[j], left_padded(b, r)[j]));
        assert(idx[j] < out[j]);
    }
}

/// `t` is the contiguous tensor of the shape of `src` whose every element
/// is a value `f` can return for the element of `src` at the same place.
pub open spec fn mapped<T: Copy, F: Fn(T) -> T>(src: &Tensor<T>, f: F, t: &Tensor<T>) -> bool {
    &&& t.wf()
    &&& t.contiguous()
    &&& t.shape@ == src.shape@
    &&& t.elements().len() == src.elements().len()
    &&& forall|l: int|
        0 <= l < src.elements().len() ==> f.ensures((src.elements()[l],), #[trigger] t.elements()[l])
}

/// `t` is the contiguous tensor of the broadcast shape of `a` and `b`
/// whose every element is a value `f` can return for the two operand
/// elements that meet there.
pub open spec fn zipped<T: Copy, F: Fn(T, T) -> T>(
    a: &Tensor<T>,
    b: &Tensor<T>,
    f: F,
    t: &Tensor<T>,
) -> bool {
    let out_shape = broadcast_shape(a.shape@, b.shape@);
    &&& t.wf()
    &&& t.contiguous()
    &&& t.shape@ == out_shape
    &&& t.elements().len() == numel(out_shape)
    &&& forall|l: int|
        0 <= l < numel(out_shape) ==> f.ensures(
            (
                a.at(source_index(unravel(l as nat, out_shape), a.shape@)),
                b.at(source_index(unravel(l as nat, out_shape), b.shape@)),
            ),
            #[trigger] t.elements()[l],
        )
}

impl<T: Copy> Tensor<T> {
    /// Applies `f` to every element. The result is contiguous and has the
    /// shape of `self`.
    pub fn map<F: Fn(T) -> T>(&self, f: F) -> (r: Tensor<T>)
        requires
            self.wf(),
            forall|x: T| f.requires((x,)),
        ensures
            mapped(self, f, &r),
    {
        let src = self.gather_elements();
        let mut out: Vec<T> = Vec::new();
        let mut l: usize = 0;
        while l < src.len()
            invariant
                l <= src.len(),
                out.len() == l,
                forall|x: T| f.requires((x,)),
                forall|j: int| 0 <= j < l ==> f.ensures((src[j],), #[trigger] out[j]),
            decreases src.len() - l,
        {
            out.push(f(src[l]));
            l += 1;
        }
        Tensor::from_elements(out, copy_sizes(self.shape.as_slice()))
    }

    /// Combines two tensors element by element under the broadcasting
    /// rule. Fails with `ShapeMismatch` exactly when the shapes cannot be
    /// broadcast against each other.
    pub fn zip_with<F: Fn(T, T) -> T>(&self, other: &Tensor<T>, f: F) -> (r: Result<
        Tensor<T>,
        TensorError,
    >)
        requires
            self.wf(),
            other.wf(),
            forall|x: T, y: T| f.requires((x, y)),
            broadcastable(self.shape@, other.shape@) ==> numel(
                broadcast_shape(self.shape@, other.shape@),
            ) <= usize::MAX,
        ensures
            broadcastable(self.shape@, other.shape@) ==> r.is_ok(),
            !broadcastable(self.shape@, other.shape@) ==> r == Err::<Tensor<T>, TensorError>(
                TensorError::ShapeMismatch,
            ),
            r.is_ok() ==> zipped(self, other, f, &r.unwrap()),
    {
        let out_shape = match broadcast_dimensions(self.shape.as_slice(), other.shape.as_slice()) {
            Ok(s) => s,
            Err(_) => {
                return Err(TensorError::ShapeMismatch);
            },
        };
        let count = match checked_numel(out_shape.as_slice()) {
            Some(c) => c,
            None => {
                return Err(TensorError::ShapeMismatch);
            },
        };
        let mut out: Vec<T> = Vec::new();
        let mut l: usize = 0;
        while l < count
            invariant
                self.wf(),
                other.wf(),
                broadcastable(self.shape@, other.shape@),
                out_shape@ == broadcast_shape(self.shape@, other.shape@),
                count == numel(out_shape@),
                l <= count,
                out.len() == l,
                forall|x: T, y: T| f.requires((x, y)),
                forall|j: int|
                    0 <= j < l ==> f.ensures(
                        (
                            self.at(source_index(unravel(j as nat, out_shape@), self.shape@)),
                            other.at(source_index(unravel(j as nat, out_shape@), other.shape@)),
                        ),
                        #[trigger] out[j],
                    ),
            decreases count - l,
        {
            let idx = compute_indices(l, out_shape.as_slice());
            proof {
                lemma_unravel_valid(l as nat, out_shape@);
                lemma_source_index_valid(idx@, self.shape@, other.shape@);
            }
            let ia = operand_index(idx.as_slice(), self.shape.as_slice());
            let ib = operand_index(idx.as_slice(), other.shape.as_slice());
            let x = match self.get(ia.as_slice()) {
                Ok(v) => v,
                Err(_) => {
                    return Err(TensorError::ShapeMismatch);
                },
            };
            let y = match other.get(ib.as_slice()) {
                Ok(v) => v,
                Err(_) => {
                    return Err(TensorError::ShapeMismatch);
                },
            };
            out.push(f(x, y));
            l += 1;
        }
        Ok(Tensor::from_elements(out, out_shape))
    }

    /// Divides every element by `scalar`, after asking `is_zero` about
    /// the divisor. Fails with `DivisionByZero` exactly when `is_zero`
    /// answers yes; the elements themselves are never looked at.
    pub fn div_scalar<Z: Fn(T) -> bool, F: Fn(T, T) -> T>(
        &self,
        scalar: T,
        is_zero: Z,
        divide: F,
    ) -> (r: Result<Tensor<T>, TensorError>)
        requires
            self.wf(),
            is_zero.requires((scalar,)),
            forall|x: T, y: T| divide.requires((x, y)),
        ensures
            r.is_err() ==> r == Err::<Tensor<T>, TensorError>(TensorError::DivisionByZero)
                && is_zero.ensures((scalar,), true),
            r.is_ok() ==> is_zero.ensures((scalar,), false) && divided(
                self,
                scalar,
                divide,
                &r.unwrap(),
            ),
    {
        if is_zero(scalar) {
            return Err(TensorError::DivisionByZero);
        }
        let src = self.gather_elements();
        let mut out: Vec<T> = Vec::new();
        let mut l: usize = 0;
        while l < src.len()
            invariant
                l <= src.len(),
                out.len() == l,
                forall|x: T, y: T| divide.requires((x, y)),
                forall|j: int| 0 <= j < l ==> divide.ensures((src[j], scalar), #[trigger] out[j]),
            decreases src.len() - l,
        {
            out.push(divide(src[l], scalar));
            l += 1;
        }
        Ok(Tensor::from_elements(out, copy_sizes(self.shape.as_slice())))
    }
}

/// `t` is the contiguous tensor of the shape of `src` whose every element
/// is a value `divide` can return for the element of `src` at the same
/// place and `scalar`.
pub open spec fn divided<T: Copy, F: Fn(T, T) -> T>(
    src: &Tensor<T>,
    scalar: T,
    divide: F,
    t: &Tensor<T>,
) -> bool {
    &&& t.wf()
    &&& t.contiguous()
    &&& t.shape@ == src.shape@
    &&& t.elements().len() == src.elements().len()
    &&& forall|l: int|
        0 <= l < src.elements().len() ==> divide.ensures(
            (src.elements()[l], scalar),
            #[trigger] t.elements()[l],
        )
}

} // verus!
