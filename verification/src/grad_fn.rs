//! Derivative rules: what each operation hands to its operands when a
//! gradient arrives at its result.

use vstd::prelude::*;
use crate::elementwise::{source_index, zipped};
use crate::error::TensorError;
use crate::index::{lemma_unravel_valid, unravel};
use crate::matmul::matmul_of;
use crate::reduce::summed_to;
use crate::shape::{broadcast_shape, broadcastable, left_padded, numel};
use crate::tensor::Tensor;
use crate::view::{expandable, lemma_numel_pair, transposed};

verus! {

/// `t` is `grad_output` spread over `input_shape`: contiguous, of that
/// shape, each element the element of `grad_output` it was folded into.
pub open spec fn spread_of<T: Copy>(
    grad_output: &Tensor<T>,
    input_shape: Seq<usize>,
    t: &Tensor<T>,
) -> bool {
    &&& t.wf()
    &&& t.contiguous()
    &&& t.shape@ == input_shape
    &&& t.elements().len() == numel(input_shape)
    &&& forall|l: int|
        0 <= l < numel(input_shape) ==> #[trigger] t.elements()[l] == grad_output.at(
            source_index(unravel(l as nat, input_shape), grad_output.shape@),
        )
}

/// `t` is `grad_output` spread over `input_shape` with every element
/// multiplied by `scale`.
pub open spec fn scaled_spread<T: Copy, M: Fn(T, T) -> T>(
    grad_output: &Tensor<T>,
    input_shape: Seq<usize>,
    scale: T,
    times: M,
    t: &Tensor<T>,
) -> bool {
    &&& t.wf()
    &&& t.contiguous()
    &&& t.shape@ == input_shape
    &&& t.elements().len() == numel(input_shape)
    &&& forall|l: int|
        0 <= l < numel(input_shape) ==> times.ensures(
            (
                grad_output.at(source_index(unravel(l as nat, input_shape), grad_output.shape@)),
                scale,
            ),
            #[trigger] t.elements()[l],
        )
}

/// Spreads a gradient over the shape it was reduced from: the element at
/// `idx` of the result is the element of `grad_output` that `idx` was
/// folded into.
pub fn spread<T: Copy>(grad_output: &Tensor<T>, input_shape: &[usize]) -> (r: Result<
    Tensor<T>,
    TensorError,
>)
    requires
        grad_output.wf(),
        numel(input_shape@) <= usize::MAX,
    ensures
        expandable(grad_output.shape@, input_shape@) ==> r.is_ok(),
        !expandable(grad_output.shape@, input_shape@) ==> r == Err::<Tensor<T>, TensorError>(
            TensorError::ShapeMismatch,
        ),
        r.is_ok() ==> spread_of(grad_output, input_shape@, &r.unwrap()),
{
    match grad_output.broadcast_to(input_shape) {
        Ok(view) => {
            let t = view.to_contiguous();
            proof {
                assert forall|l: int| 0 <= l < numel(input_shape@) implies #[trigger] t.elements()[l]
                    == grad_output.at(
                    source_index(unravel(l as nat, input_shape@), grad_output.shape@),
                ) by {
                    lemma_unravel_valid(l as nat, input_shape@);
                    assert(view.elements()[l] == view.at(unravel(l as nat, input_shape@)));
                }
            }
            Ok(t)
        },
        Err(_) => Err(TensorError::ShapeMismatch),
    }
}

/// Rule of a sum over all elements.
pub struct SumGradFn {
    /// Shape of the summed tensor.
    pub input_shape: Vec<usize>,
}

impl SumGradFn {
    /// The rule for a sum over a tensor of shape `input_shape`.
    pub fn new(input_shape: Vec<usize>) -> (r: Self)
        ensures
            r.input_shape@ == input_shape@,
    {
        SumGradFn { input_shape }
    }

    /// Every summed element receives the gradient of the sum it went into.
    pub fn apply<T: Copy>(&self, grad_output: &Tensor<T>) -> (r: Result<Tensor<T>, TensorError>)
        requires
            grad_output.wf(),
            numel(self.input_shape@) <= usize::MAX,
        ensures
            expandable(grad_output.shape@, self.input_shape@) ==> r.is_ok(),
            !expandable(grad_output.shape@, self.input_shape@) ==> r == Err::<
                Tensor<T>,
                TensorError,
            >(TensorError::ShapeMismatch),
            r.is_ok() ==> spread_of(grad_output, self.input_shape@, &r.unwrap()),
    {
        spread(grad_output, self.input_shape.as_slice())
    }
}

/// Rule of a sum along some axes.
pub struct SumAxisGradFn {
    /// Shape of the summed tensor.
    pub input_shape: Vec<usize>,
}

impl SumAxisGradFn {
    /// The rule for a sum along axes of a tensor of shape `input_shape`.
    pub fn new(input_shape: Vec<usize>) -> (r: Self)
        ensures
            r.input_shape@ == input_shape@,
    {
        SumAxisGradFn { input_shape }
    }

    /// Every summed element receives the gradient of the sum it went into.
    pub fn apply<T: Copy>(&self, grad_output: &Tensor<T>) -> (r: Result<Tensor<T>, TensorError>)
        requires
            grad_output.wf(),
            numel(self.input_shape@) <= usize::MAX,
        ensures
            expandable(grad_output.shape@, self.input_shape@) ==> r.is_ok(),
            !expandable(grad_output.shape@, self.input_shape@) ==> r == Err::<
                Tensor<T>,
                TensorError,
            >(TensorError::ShapeMismatch),
            r.is_ok() ==> spread_of(grad_output, self.input_shape@, &r.unwrap()),
    {
        spread(grad_output, self.input_shape.as_slice())
    }
}

/// Rule of a mean along some axes: the rule of the sum, with every
/// element multiplied by one over the number of averaged elements.
pub struct MeanGradFn<T> {
    /// Shape of the averaged tensor.
    pub input_shape: Vec<usize>,
    /// One over the number of elements that went into each mean.
    pub scale: T,
}

impl<T: Copy> MeanGradFn<T> {
    /// The rule for a mean over a tensor of shape `input_shape`.
    pub fn new(input_shape: Vec<usize>, scale: T) -> (r: Self)
        ensures
            r.input_shape@ == input_shape@,
            r.scale == scale,
    {
        MeanGradFn { input_shape, scale }
    }

    /// Every averaged element receives the gradient of its mean times the scale.
    pub fn apply<M: Fn(T, T) -> T>(&self, grad_output: &Tensor<T>, times: &M) -> (r: Result<
        Tensor<T>,
        TensorError,
    >)
        requires
            grad_output.wf(),
            numel(self.input_shape@) <= usize::MAX,
            forall|x: T, y: T| times.requires((x, y)),
        ensures
            expandable(grad_output.shape@, self.input_shape@) ==> r.is_ok(),
            !expandable(grad_output.shape@, self.input_shape@) ==> r == Err::<
                Tensor<T>,
                TensorError,
            >(TensorError::ShapeMismatch),
            r.is_ok() ==> scaled_spread(
                grad_output,
                self.input_shape@,
                self.scale,
                *times,
                &r.unwrap(),
            ),
    {
        match spread(grad_output, self.input_shape.as_slice()) {
            Ok(wide) => {
                let scale = self.scale;
                let scale_by = |x: T| -> (y: T)
                    ensures
                        times.ensures((x, scale), y),
                    {
                        times(x, scale)
                    };
                Ok(wide.map(scale_by))
            },
            Err(e) => Err(e),
        }
    }
}

/// The derivative rule attached to the result of a traced operation.
pub enum GradFn<T> {
    /// Every operand receives the upstream gradient, summed down to its shape.
    Add,
    /// Operand `k` receives the upstream gradient multiplied, element by
    /// element, with the `k`-th saved factor, summed down to its shape.
    Scaled(Vec<Tensor<T>>),
    /// Matrix product of the two saved operands, each saved as a matrix.
    MatMul(Tensor<T>, Tensor<T>),
    /// Sum over all elements.
    Sum(SumGradFn),
    /// Sum along some axes.
    SumAxis(SumAxisGradFn),
    /// Mean along some axes.
    Mean(MeanGradFn<T>),
    /// Transposition of a matrix.
    Transpose,
    /// Change of shape.
    Reshape,
    /// The operation has no derivative rule.
    NotImplemented,
}

impl<T: Copy> GradFn<T> {
    /// The rule can serve an operation with `n` operands.
    pub open spec fn arity_ok(&self, n: nat) -> bool {
        match self {
            GradFn::Add => true,
            GradFn::Scaled(factors) => factors@.len() == n,
            GradFn::MatMul(_, _) => n == 2,
            GradFn::Sum(_) => n == 1,
            GradFn::SumAxis(_) => n == 1,
            GradFn::Mean(_) => n == 1,
            GradFn::Transpose => n == 1,
            GradFn::Reshape => n == 1,
            GradFn::NotImplemented => true,
        }
    }

    /// The rule can turn a gradient of shape `out_shape` into one of shape
    /// `operand` for operand `k`.
    pub open spec fn fits_operand(&self, out_shape: Seq<usize>, k: int, operand: Seq<usize>) -> bool {
        match self {
            GradFn::Add => expandable(operand, out_shape),
            GradFn::Scaled(factors) => {
                &&& 0 <= k < factors@.len()
                &&& factors@[k].wf()
                &&& factors@[k].shape@ == out_shape
                &&& expandable(operand, out_shape)
            },
            GradFn::MatMul(lhs, rhs) => {
                &&& 0 <= k < 2
                &&& lhs.wf()
                &&& rhs.wf()
                &&& lhs.shape@.len() == 2
                &&& rhs.shape@.len() == 2
                &&& lhs.shape@[1] == rhs.shape@[0]
                &&& numel(out_shape) == (lhs.shape@[0] as nat) * (rhs.shape@[1] as nat)
                &&& (k == 0 ==> numel(operand) == numel(lhs.shape@))
                &&& (k == 1 ==> numel(operand) == numel(rhs.shape@))
            },
            GradFn::Sum(rule) => rule.input_shape@ == operand && expandable(out_shape, operand),
            GradFn::SumAxis(rule) => rule.input_shape@ == operand && expandable(
                out_shape,
                operand,
            ),
            GradFn::Mean(rule) => rule.input_shape@ == operand && expandable(out_shape, operand),
            GradFn::Transpose => operand.len() == 2 && out_shape == seq![operand[1], operand[0]],
            GradFn::Reshape => numel(out_shape) == numel(operand),
            GradFn::NotImplemented => true,
        }
    }

    /// `t` is a gradient the rule can hand to operand `k`, of shape
    /// `target`, when `g` arrives at the result.
    pub open spec fn yields<F: Fn(T, T) -> T, M: Fn(T, T) -> T>(
        &self,
        k: int,
        g: &Tensor<T>,
        target: Seq<usize>,
        zero: T,
        plus: F,
        times: M,
        t: &Tensor<T>,
    ) -> bool {
        match self {
            GradFn::Add => summed_to(g, target, zero, plus, t),
            GradFn::Scaled(factors) => exists|m: Tensor<T>| #[trigger]
                zipped(g, &factors@[k], times, &m) && summed_to(&m, target, zero, plus, t),
            GradFn::MatMul(lhs, rhs) => exists|as_matrix: Tensor<T>, turned: Tensor<T>, product: Tensor<T>| #[trigger]
                matmul_share(lhs, rhs, k, g, zero, plus, times, &as_matrix, &turned, &product)
                    && reshaped(&product, target, t),
            GradFn::Sum(_) => spread_of(g, target, t),
            GradFn::SumAxis(_) => spread_of(g, target, t),
            GradFn::Mean(rule) => scaled_spread(g, target, rule.scale, times, t),
            GradFn::Transpose => exists|view: Tensor<T>| #[trigger]
                transposed(g, &view) && reshaped(&view, target, t),
            GradFn::Reshape => reshaped(g, target, t),
            GradFn::NotImplemented => false,
        }
    }

    /// Whether the rule is the one that refuses to differentiate.
    pub fn is_not_implemented(&self) -> (b: bool)
        ensures
            b == (self is NotImplemented),
    {
        match self {
            GradFn::NotImplemented => true,
            _ => false,
        }
    }

    /// The gradient operand `k` receives when `grad_output` arrives at the
    /// result, already brought to the operand's shape `target`.
    /// `NotImplemented` fails with `GradientNotImplemented`; every other
    /// rule succeeds.
    pub fn contribution<F: Fn(T, T) -> T + Copy, M: Fn(T, T) -> T + Copy>(
        &self,
        k: usize,
        grad_output: &Tensor<T>,
        target: &[usize],
        zero: T,
        plus: F,
        times: M,
    ) -> (r: Result<Tensor<T>, TensorError>)
        requires
            grad_output.wf(),
            numel(target@) <= usize::MAX,
            self.fits_operand(grad_output.shape@, k as int, target@),
            forall|x: T, y: T| plus.requires((x, y)),
            forall|x: T, y: T| times.requires((x, y)),
        ensures
            self is NotImplemented ==> r == Err::<Tensor<T>, TensorError>(
                TensorError::GradientNotImplemented,
            ),
            !(self is NotImplemented) ==> r.is_ok(),
            r.is_ok() ==> r.unwrap().wf() && r.unwrap().shape@ == target@,
            r.is_ok() ==> self.yields(k as int, grad_output, target@, zero, plus, times, &r.unwrap()),
    {
        match self {
            GradFn::Add => grad_output.sum_to_shape(target, zero, plus),
            GradFn::Scaled(factors) => {
                proof {
                    lemma_broadcast_same(grad_output.shape@);
                }
                match grad_output.zip_with(&factors[k], times) {
                    Ok(scaled) => {
                        let r = scaled.sum_to_shape(target, zero, plus);
                        proof {
                            if r.is_ok() {
                                assert(zipped(grad_output, &factors@[k as int], times, &scaled)
                                    && summed_to(&scaled, target@, zero, plus, &r.unwrap()));
                            }
                        }
                        r
                    },
                    Err(e) => {
                        Err(e)
                    },
                }
            },
            GradFn::MatMul(lhs, rhs) => {
                let mut as_matrix: Vec<usize> = Vec::new();
                as_matrix.push(lhs.shape[0]);
                as_matrix.push(rhs.shape[1]);
                proof {
                    lemma_numel_pair(as_matrix@);
                    lemma_numel_pair(lhs.shape@);
                    lemma_numel_pair(rhs.shape@);
                    assert(as_matrix@ =~= seq![lhs.shape@[0], rhs.shape@[1]]);
                }
                let g = match grad_output.reshape(as_matrix.as_slice()) {
                    Ok(g) => g,
                    Err(e) => {
                        return Err(e);
                    },
                };
                let turned = match if k == 0 {
                    rhs.transpose()
                } else {
                    lhs.transpose()
                } {
                    Ok(t) => t,
                    Err(e) => {
                        return Err(e);
                    },
                };
                let product = if k == 0 {
                    g.matmul(&turned, zero, times, plus)
                } else {
                    turned.matmul(&g, zero, times, plus)
                };
                match product {
                    Ok(p) => {
                        proof {
                            lemma_numel_pair(p.shape@);
                        }
                        let r = p.reshape(target);
                        proof {
                            if r.is_ok() {
                                assert(matmul_share(
                                    lhs,
                                    rhs,
                                    k as int,
                                    grad_output,
                                    zero,
                                    plus,
                                    times,
                                    &g,
                                    &turned,
                                    &p,
                                ) && reshaped(&p, target@, &r.unwrap()));
                            }
                        }
                        r
                    },
                    Err(e) => {
                        Err(e)
                    },
                }
            },
            GradFn::Sum(rule) => rule.apply(grad_output),
            GradFn::SumAxis(rule) => rule.apply(grad_output),
            GradFn::Mean(rule) => rule.apply(grad_output, &times),
            GradFn::Transpose => {
                match grad_output.transpose() {
                    Ok(t) => {
                        let c = t.to_contiguous();
                        assert(c.shape@ =~= target@);
                        assert(transposed(grad_output, &t) && reshaped(&t, target@, &c));
                        Ok(c)
                    },
                    Err(e) => {
                        Err(e)
                    },
                }
            },
            GradFn::Reshape => grad_output.reshape(target),
            GradFn::NotImplemented => Err(TensorError::GradientNotImplemented),
        }
    }
}

/// `t` holds the elements of `src`, in the same row-major order, as a
/// contiguous tensor of shape `shape`.
pub open spec fn reshaped<T: Copy>(src: &Tensor<T>, shape: Seq<usize>, t: &Tensor<T>) -> bool {
    &&& t.wf()
    &&& t.contiguous()
    &&& t.shape@ == shape
    &&& t.elements() == src.elements()
}

/// The matrix product behind the gradient of operand `k` of a matrix
/// product of `lhs` and `rhs`: `as_matrix` is the arriving gradient `g`
/// as a matrix; for the left operand `turned` is the transpose of `rhs`
/// and `product` is `as_matrix` times `turned`, for the right operand
/// `turned` is the transpose of `lhs` and `product` is `turned` times
/// `as_matrix`.
pub open spec fn matmul_share<T: Copy, F: Fn(T, T) -> T, M: Fn(T, T) -> T>(
    lhs: &Tensor<T>,
    rhs: &Tensor<T>,
    k: int,
    g: &Tensor<T>,
    zero: T,
    plus: F,
    times: M,
    as_matrix: &Tensor<T>,
    turned: &Tensor<T>,
    product: &Tensor<T>,
) -> bool {
    &&& reshaped(g, seq![lhs.shape@[0], rhs.shape@[1]], as_matrix)
    &&& (k == 0 ==> transposed(rhs, turned) && matmul_of(
        as_matrix,
        turned,
        zero,
        times,
        plus,
        product,
    ))
    &&& (k != 0 ==> transposed(lhs, turned) && matmul_of(
        turned,
        as_matrix,
        zero,
        times,
        plus,
        product,
    ))
}

/// A shape broadcasts against itself and stays as it is.
pub proof fn lemma_broadcast_same(shape: Seq<usize>)
    ensures
        broadcastable(shape, shape),
        broadcast_shape(shape, shape) == shape,
{
    assert(left_padded(shape, shape.len()) =~= shape);
    assert(broadcast_shape(shape, shape) =~= shape);
}

} // verus!
