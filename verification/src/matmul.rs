//! Matrix product of one- and two-dimensional tensors.

use vstd::prelude::*;
use vstd::arithmetic::div_mod::{lemma_fundamental_div_mod, lemma_mod_bound};
use crate::error::TensorError;
use crate::index::valid_index;
use crate::reduce::{fold_left_rel, lemma_fold_empty, lemma_fold_step};
use crate::shape::lemma_numel_single;
use crate::tensor::Tensor;
use crate::view::lemma_numel_pair;

verus! {

/// `r` is a value the dot product of `xs` and `ys` can take: the
/// products `times(xs[k], ys[k])` folded from the left with `plus`,
/// starting at `zero`.
pub open spec fn dot_rel<T, M: Fn(T, T) -> T, A: Fn(T, T) -> T>(
    times: M,
    plus: A,
    zero: T,
    xs: Seq<T>,
    ys: Seq<T>,
    r: T,
) -> bool {
    exists|ps: Seq<T>| #[trigger]
        products_of(times, xs, ys, ps) && fold_left_rel(plus, zero, ps, r)
}

/// `ps` holds one product per pair of entries.
pub open spec fn products_of<T, M: Fn(T, T) -> T>(times: M, xs: Seq<T>, ys: Seq<T>, ps: Seq<T>) -> bool {
    &&& ps.len() == xs.len()
    &&& forall|k: int| 0 <= k < xs.len() ==> times.ensures((xs[k], ys[k]), #[trigger] ps[k])
}

/// Rows of the left operand: a vector counts as one row.
pub open spec fn rows_of(shape: Seq<usize>) -> nat {
    if shape.len() == 2 {
        shape[0] as nat
    } else {
        1
    }
}

/// Columns of the right operand: a vector counts as one column.
pub open spec fn cols_of(shape: Seq<usize>) -> nat {
    if shape.len() == 2 {
        shape[1] as nat
    } else {
        1
    }
}

/// The operands can be multiplied: each has one or two dimensions and
/// the last size of the left one is the first size of the right one.
pub open spec fn matmul_ok(a: Seq<usize>, b: Seq<usize>) -> bool {
    &&& 1 <= a.len() <= 2
    &&& 1 <= b.len() <= 2
    &&& a.last() == b[0]
}

/// Shape of the product, with the dimension a vector operand stood for
/// taken out again.
pub open spec fn matmul_shape(a: Seq<usize>, b: Seq<usize>) -> Seq<usize> {
    if a.len() == 2 && b.len() == 2 {
        seq![a[0], b[1]]
    } else if a.len() == 2 {
        seq![a[0]]
    } else if b.len() == 2 {
        seq![b[1]]
    } else {
        seq![1usize]
    }
}

/// `t` is the product of `a` and `b`: element `l` of `t`, in row-major
/// order, is a dot product of row `l / n` of `a` and column `l % n` of
/// `b`, where `n` is the number of columns of `b`.
pub open spec fn matmul_of<T: Copy, M: Fn(T, T) -> T, A: Fn(T, T) -> T>(
    a: &Tensor<T>,
    b: &Tensor<T>,
    zero: T,
    times: M,
    plus: A,
    t: &Tensor<T>,
) -> bool {
    let n = cols_of(b.shape@) as int;
    &&& t.wf()
    &&& t.contiguous()
    &&& t.shape@ == matmul_shape(a.shape@, b.shape@)
    &&& t.elements().len() == rows_of(a.shape@) * cols_of(b.shape@)
    &&& forall|l: int|
        0 <= l < t.elements().len() ==> dot_rel(
            times,
            plus,
            zero,
            a.row(l / n),
            b.col(l % n),
            #[trigger] t.elements()[l],
        )
}

impl<T: Copy> Tensor<T> {
    /// Row `i` of the tensor taken as left operand.
    pub open spec fn row(&self, i: int) -> Seq<T> {
        Seq::new(
            self.shape@.last() as nat,
            |k: int|
                if self.shape@.len() == 2 {
                    self.at(seq![i as usize, k as usize])
                } else {
                    self.at(seq![k as usize])
                },
        )
    }

    /// Column `j` of the tensor taken as right operand.
    pub open spec fn col(&self, j: int) -> Seq<T> {
        Seq::new(
            self.shape@[0] as nat,
            |k: int|
                if self.shape@.len() == 2 {
                    self.at(seq![k as usize, j as usize])
                } else {
                    self.at(seq![k as usize])
                },
        )
    }

    /// Reads entry `(i, k)` of the left operand.
    fn left_entry(&self, i: usize, k: usize) -> (v: T)
        requires
            self.wf(),
            1 <= self.shape@.len() <= 2,
            i < rows_of(self.shape@),
            k < self.shape@.last(),
        ensures
            v == self.row(i as int)[k as int],
    {
        let mut idx: Vec<usize> = Vec::new();
        if self.shape.len() == 2 {
            idx.push(i);
        }
        idx.push(k);
        proof {
            if self.shape@.len() == 2 {
                assert(idx@ =~= seq![i, k]);
            } else {
                assert(idx@ =~= seq![k]);
            }
            assert(valid_index(idx@, self.shape@));
        }
        match self.get(idx.as_slice()) {
            Ok(v) => v,
            Err(_) => unreached(),
        }
    }

    /// Reads entry `(k, j)` of the right operand.
    fn right_entry(&self, k: usize, j: usize) -> (v: T)
        requires
            self.wf(),
            1 <= self.shape@.len() <= 2,
            k < self.shape@[0],
            j < cols_of(self.shape@),
        ensures
            v == self.col(j as int)[k as int],
    {
        let mut idx: Vec<usize> = Vec::new();
        idx.push(k);
        if self.shape.len() == 2 {
            idx.push(j);
        }
        proof {
            if self.shape@.len() == 2 {
                assert(idx@ =~= seq![k, j]);
            } else {
                assert(idx@ =~= seq![k]);
            }
            assert(valid_index(idx@, self.shape@));
        }
        match self.get(idx.as_slice()) {
            Ok(v) => v,
            Err(_) => unreached(),
        }
    }

    /// Matrix product. A one-dimensional left operand is taken as a row,
    /// a one-dimensional right operand as a column, and the dimension
    /// added for it is dropped from the result. Fails with
    /// `ShapeMismatch` exactly when an operand has another rank or the
    /// inner sizes differ.
    ///
    /// Element `l` of the result, in row-major order, is the dot product
    /// of row `l / n` of `self` and column `l % n` of `other`, where `n`
    /// is the number of columns of `other`.
    pub fn matmul<M: Fn(T, T) -> T, A: Fn(T, T) -> T>(
        &self,
        other: &Tensor<T>,
        zero: T,
        times: M,
        plus: A,
    ) -> (r: Result<Tensor<T>, TensorError>)
        requires
            self.wf(),
            other.wf(),
            forall|x: T, y: T| times.requires((x, y)),
            forall|x: T, y: T| plus.requires((x, y)),
            matmul_ok(self.shape@, other.shape@) ==> rows_of(self.shape@) * cols_of(other.shape@)
                <= usize::MAX,
        ensures
            matmul_ok(self.shape@, other.shape@) ==> r.is_ok(),
            !matmul_ok(self.shape@, other.shape@) ==> r == Err::<Tensor<T>, TensorError>(
                TensorError::ShapeMismatch,
            ),
            r.is_ok() ==> matmul_of(self, other, zero, times, plus, &r.unwrap()),
    {
        let ra = self.shape.len();
        let rb = other.shape.len();
        if ra < 1 || ra > 2 || rb < 1 || rb > 2 {
            return Err(TensorError::ShapeMismatch);
        }
        let inner = self.shape[ra - 1];
        if inner != other.shape[0] {
            return Err(TensorError::ShapeMismatch);
        }
        let m: usize = if ra == 2 {
            self.shape[0]
        } else {
            1
        };
        let n: usize = if rb == 2 {
            other.shape[1]
        } else {
            1
        };
        assert(m * n <= usize::MAX);
        let count = m * n;
        let mut out: Vec<T> = Vec::new();
        let mut l: usize = 0;
        while l < count
            invariant
                self.wf(),
                other.wf(),
                1 <= self.shape@.len() <= 2,
                1 <= other.shape@.len() <= 2,
                inner == self.shape@.last(),
                inner == other.shape@[0],
                m == rows_of(self.shape@),
                n == cols_of(other.shape@),
                count == m * n,
                l <= count,
                out.len() == l,
                forall|x: T, y: T| times.requires((x, y)),
                forall|x: T, y: T| plus.requires((x, y)),
                forall|c: int|
                    0 <= c < l ==> dot_rel(
                        times,
                        plus,
                        zero,
                        self.row(c / (n as int)),
                        other.col(c % (n as int)),
                        #[trigger] out[c],
                    ),
            decreases count - l,
        {
            assert(n > 0) by (nonlinear_arith)
                requires
                    l < m * n,
            ;
            let i = l / n;
            let j = l % n;
            proof {
                lemma_fundamental_div_mod(l as int, n as int);
                lemma_mod_bound(l as int, n as int);
                assert(i < m) by (nonlinear_arith)
                    requires
                        l < m * n,
                        l == n * i + j,
                        0 <= j,
                        n > 0,
                ;
            }
            let ghost xs = self.row(i as int);
            let ghost ys = other.col(j as int);
            let ghost ps: Seq<T> = Seq::empty();
            let mut acc = zero;
            let mut k: usize = 0;
            proof {
                lemma_fold_empty(plus, zero);
            }
            while k < inner
                invariant
                    self.wf(),
                    other.wf(),
                    1 <= self.shape@.len() <= 2,
                    1 <= other.shape@.len() <= 2,
                    inner == self.shape@.last(),
                    inner == other.shape@[0],
                    i < rows_of(self.shape@),
                    j < cols_of(other.shape@),
                    xs == self.row(i as int),
                    ys == other.col(j as int),
                    k <= inner,
                    ps.len() == k,
                    forall|x: T, y: T| times.requires((x, y)),
                    forall|x: T, y: T| plus.requires((x, y)),
                    forall|q: int| 0 <= q < k ==> times.ensures((xs[q], ys[q]), #[trigger] ps[q]),
                    fold_left_rel(plus, zero, ps, acc),
                decreases inner - k,
            {
                let x = self.left_entry(i, k);
                let y = other.right_entry(k, j);
                let p = times(x, y);
                let next = plus(acc, p);
                proof {
                    lemma_fold_step(plus, zero, ps, acc, p, next);
                    ps = ps.push(p);
                }
                acc = next;
                k += 1;
            }
            proof {
                assert(products_of(times, xs, ys, ps) && fold_left_rel(plus, zero, ps, acc));
            }
            out.push(acc);
            l += 1;
        }
        let mut shape: Vec<usize> = Vec::new();
        if ra == 2 {
            shape.push(m);
        }
        if rb == 2 {
            shape.push(n);
        }
        if ra == 1 && rb == 1 {
            shape.push(1);
        }
        proof {
            assert(shape@ =~= matmul_shape(self.shape@, other.shape@));
            if ra == 2 && rb == 2 {
                lemma_numel_pair(shape@);
            } else {
                lemma_numel_single(shape@[0]);
                assert(shape@ =~= seq![shape@[0]]);
                assert(m * n == shape@[0]) by (nonlinear_arith)
                    requires
                        (m == 1 && n == shape@[0]) || (n == 1 && m == shape@[0]),
                ;
            }
        }
        Ok(Tensor::from_elements(out, shape))
    }
}

} // verus!
