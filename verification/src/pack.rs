//! Matrices packed for multiplication.

use crate::layout::{
    is_padding, law_addr_injective, lemma_addr_bound, packed_addr, packed_size, padded_with,
    BlockLayout,
};
use crate::scalar::Scalar;
use vstd::prelude::*;

verus! {

/// `n` copies of `x`.
pub(crate) fn filled<T: Copy>(n: usize, x: T) -> (r: Vec<T>)
    ensures
        r@.len() == n,
        forall|i: int| 0 <= i < n ==> #[trigger] r@[i] == x,
{
    let mut r: Vec<T> = Vec::with_capacity(n);
    for i in 0..n
        invariant
            r@.len() == i,
            forall|j: int| 0 <= j < i ==> #[trigger] r@[j] == x,
    {
        r.push(x);
    }
    r
}

/// Position of element `(p, j)` of a K×N matrix in row-major order, or in column-major order
/// where `transposed`.
pub open spec fn source_index(k: int, n: int, transposed: bool, p: int, j: int) -> int {
    if transposed {
        p + k * j
    } else {
        p * n + j
    }
}

/// Positions of a K×N matrix lie below `k * n`.
pub(crate) proof fn lemma_source_index(k: int, n: int, transposed: bool, p: int, j: int)
    requires
        0 <= p < k,
        0 <= j < n,
    ensures
        0 <= source_index(k, n, transposed, p, j) < k * n,
        0 <= p * n,
        0 <= k * j,
{
    assert(0 <= p * n && p * n + j < k * n && 0 <= k * j && p + k * j < k * n) by (nonlinear_arith)
        requires
            0 <= p < k,
            0 <= j < n,
    ;
}

/// The storage of a packed matrix: its elements in the blocked layout.
pub struct FbgemmPackedMatrix<T> {
    layout: BlockLayout,
    data: Vec<T>,
}

/// A K×N matrix packed in a blocked layout, for use in any number of multiplications.
pub struct PackedMatrix<T> {
    inner: FbgemmPackedMatrix<T>,
}

impl<T: Scalar> FbgemmPackedMatrix<T> {
    /// Number of rows.
    pub closed spec fn spec_nrow(&self) -> int {
        self.layout.spec_nrow()
    }

    /// Number of columns.
    pub closed spec fn spec_ncol(&self) -> int {
        self.layout.spec_ncol()
    }

    /// The elements in the blocked layout.
    pub closed spec fn elements(&self) -> Seq<T> {
        self.data@
    }

    /// The element in row `p` and column `j`.
    pub open spec fn entry(&self, p: int, j: int) -> T {
        self.elements()[packed_addr(self.spec_nrow(), self.spec_ncol(), p, j)]
    }

    /// The storage is as long as the layout says.
    pub closed spec fn wf(&self) -> bool {
        &&& self.layout.wf()
        &&& self.data@.len() == packed_size(self.layout.spec_nrow(), self.layout.spec_ncol())
    }

    /// Packs the matrix `data`, in row-major order or column-major order where `transposed`, with
    /// each element multiplied by `alpha` where one is given.
    fn pack(transposed: bool, nrow: usize, ncol: usize, alpha: Option<T>, data: &[T]) -> (r:
        FbgemmPackedMatrix<T>)
        requires
            data@.len() == nrow * ncol,
            packed_size(nrow as int, ncol as int) <= usize::MAX,
        ensures
            r.wf(),
            r.spec_nrow() == nrow,
            r.spec_ncol() == ncol,
            r.elements().len() == packed_size(nrow as int, ncol as int),
            forall|p: int, j: int|
                0 <= p < nrow && 0 <= j < ncol ==> #[trigger] r.entry(p, j) == scaled(
                    alpha,
                    data@[source_index(nrow as int, ncol as int, transposed, p, j)],
                ),
            padded_with(r.elements(), nrow as int, ncol as int, T::spec_zero()),
    {
        let (layout, size) = BlockLayout::allocate(nrow, ncol);
        let mut m = FbgemmPackedMatrix { layout, data: filled(size, T::zero()) };
        let ghost k = nrow as int;
        let ghost n = ncol as int;
        for i in 0..nrow
            invariant
                m.wf(),
                m.spec_nrow() == nrow,
                m.spec_ncol() == ncol,
                k == nrow,
                n == ncol,
                data@.len() == nrow * ncol,
                padded_with(m.elements(), k, n, T::spec_zero()),
                forall|p: int, j: int|
                    0 <= p < i && 0 <= j < n ==> #[trigger] m.entry(p, j) == scaled(
                        alpha,
                        data@[source_index(k, n, transposed, p, j)],
                    ),
        {
            for j in 0..ncol
                invariant
                    m.wf(),
                    m.spec_nrow() == nrow,
                    m.spec_ncol() == ncol,
                    k == nrow,
                    n == ncol,
                    i < nrow,
                    data@.len() == nrow * ncol,
                    padded_with(m.elements(), k, n, T::spec_zero()),
                    forall|p: int, jj: int|
                        0 <= p < nrow && 0 <= jj < n && (p < i || (p == i && jj < j))
                            ==> #[trigger] m.entry(p, jj) == scaled(
                            alpha,
                            data@[source_index(k, n, transposed, p, jj)],
                        ),
            {
                proof {
                    lemma_source_index(k, n, transposed, i as int, j as int);
                    lemma_source_index(k, n, false, i as int, j as int);
                    assert(data.len() == data@.len());
                }
                let v = if transposed {
                    data[i + nrow * j]
                } else {
                    data[i * ncol + j]
                };
                let w = match alpha {
                    Some(alpha) => alpha.times(v),
                    None => v,
                };
                let idx = m.layout.addr(i, j);
                let ghost before = m;
                m.data.set(idx, w);
                proof {
                    assert forall|x: int|
                        0 <= x < m.elements().len() && is_padding(k, n, x) implies
                        #[trigger] m.elements()[x] == T::spec_zero() by {
                        assert(packed_addr(k, n, i as int, j as int) != x);
                        assert(before.elements()[x] == T::spec_zero());
                    }
                    assert forall|p: int, jj: int|
                        0 <= p < nrow && 0 <= jj < n && (p < i || (p == i && jj < j + 1)) implies
                        #[trigger] m.entry(p, jj) == scaled(
                        alpha,
                        data@[source_index(k, n, transposed, p, jj)],
                    ) by {
                        lemma_addr_bound(k, n, p, jj);
                        if packed_addr(k, n, p, jj) == idx {
                            law_addr_injective(k, n, p, jj, i as int, j as int);
                        } else {
                            assert(before.entry(p, jj) == m.entry(p, jj));
                        }
                    }
                }
            }
        }
        m
    }
}

/// `x` multiplied by `alpha` where one is given.
pub open spec fn scaled<T: Scalar>(alpha: Option<T>, x: T) -> T {
    match alpha {
        Some(alpha) => alpha.spec_times(x),
        None => x,
    }
}

impl<T: Scalar> PackedMatrix<T> {
    /// Number of rows.
    pub closed spec fn spec_k(&self) -> int {
        self.inner.spec_nrow()
    }

    /// Number of columns.
    pub closed spec fn spec_n(&self) -> int {
        self.inner.spec_ncol()
    }

    /// The elements in the blocked layout.
    pub closed spec fn elements(&self) -> Seq<T> {
        self.inner.elements()
    }

    /// The element in row `p` and column `j`.
    pub open spec fn entry(&self, p: int, j: int) -> T {
        self.elements()[packed_addr(self.spec_k(), self.spec_n(), p, j)]
    }

    /// The matrix as a function of row and column.
    pub open spec fn matrix(&self) -> spec_fn(int, int) -> T {
        |p: int, j: int| self.entry(p, j)
    }

    /// The storage belongs to the dimensions.
    pub closed spec fn wf(&self) -> bool {
        self.inner.wf()
    }

    /// What `wf` says.
    pub proof fn lemma_wf(&self)
        requires
            self.wf(),
        ensures
            0 <= self.spec_k() <= usize::MAX,
            0 <= self.spec_n() <= usize::MAX,
            packed_size(self.spec_k(), self.spec_n()) <= usize::MAX,
            self.elements().len() == packed_size(self.spec_k(), self.spec_n()),
    {
        self.inner.layout.lemma_wf();
    }

    /// Packs a K×N row-major matrix.
    pub fn new(k: usize, n: usize, data: &[T]) -> (r: PackedMatrix<T>)
        requires
            data@.len() == k * n,
            packed_size(k as int, n as int) <= usize::MAX,
        ensures
            r.wf(),
            r.spec_k() == k,
            r.spec_n() == n,
            forall|p: int, j: int|
                0 <= p < k && 0 <= j < n ==> #[trigger] r.entry(p, j) == data@[p * n + j],
            r.elements().len() == packed_size(k as int, n as int),
            padded_with(r.elements(), k as int, n as int, T::spec_zero()),
    {
        let r = PackedMatrix { inner: FbgemmPackedMatrix::pack(false, k, n, None, data) };
        proof {
            assert forall|p: int, j: int| 0 <= p < k && 0 <= j < n implies #[trigger] r.entry(p, j)
                == data@[p * n + j] by {
                assert(r.inner.entry(p, j) == r.entry(p, j));
            }
        }
        r
    }

    /// Packs a K×N matrix stored in column-major order.
    pub fn from_transposed(k: usize, n: usize, data: &[T]) -> (r: PackedMatrix<T>)
        requires
            data@.len() == k * n,
            packed_size(k as int, n as int) <= usize::MAX,
        ensures
            r.wf(),
            r.spec_k() == k,
            r.spec_n() == n,
            forall|p: int, j: int|
                0 <= p < k && 0 <= j < n ==> #[trigger] r.entry(p, j) == data@[p + k * j],
            r.elements().len() == packed_size(k as int, n as int),
            padded_with(r.elements(), k as int, n as int, T::spec_zero()),
    {
        let r = PackedMatrix { inner: FbgemmPackedMatrix::pack(true, k, n, None, data) };
        proof {
            assert forall|p: int, j: int| 0 <= p < k && 0 <= j < n implies #[trigger] r.entry(p, j)
                == data@[p + k * j] by {
                assert(r.inner.entry(p, j) == r.entry(p, j));
            }
        }
        r
    }

    /// Packs `alpha` times a K×N row-major matrix.
    pub fn with_alpha(k: usize, n: usize, data: &[T], alpha: T) -> (r: PackedMatrix<T>)
        requires
            data@.len() == k * n,
            packed_size(k as int, n as int) <= usize::MAX,
        ensures
            r.wf(),
            r.spec_k() == k,
            r.spec_n() == n,
            forall|p: int, j: int|
                0 <= p < k && 0 <= j < n ==> #[trigger] r.entry(p, j) == alpha.spec_times(
                    data@[p * n + j],
                ),
            r.elements().len() == packed_size(k as int, n as int),
            padded_with(r.elements(), k as int, n as int, T::spec_zero()),
    {
        let r = PackedMatrix { inner: FbgemmPackedMatrix::pack(false, k, n, Some(alpha), data) };
        proof {
            assert forall|p: int, j: int| 0 <= p < k && 0 <= j < n implies #[trigger] r.entry(p, j)
                == alpha.spec_times(data@[p * n + j]) by {
                assert(r.inner.entry(p, j) == r.entry(p, j));
            }
        }
        r
    }

    /// Number of rows.
    pub fn k(&self) -> (r: usize)
        ensures
            r == self.spec_k(),
    {
        self.inner.layout.nrow()
    }

    /// Number of columns.
    pub fn n(&self) -> (r: usize)
        ensures
            r == self.spec_n(),
    {
        self.inner.layout.ncol()
    }

    /// Number of rows in one block of rows.
    pub fn block_row_size(&self) -> (r: usize)
        requires
            self.wf(),
        ensures
            r == 512,
    {
        self.inner.layout.brow()
    }

    /// Position of element `(r, c)` in the blocked layout.
    pub fn addr(&self, r: usize, c: usize) -> (x: usize)
        requires
            self.wf(),
            r < self.spec_k(),
            c < self.spec_n(),
        ensures
            x == packed_addr(self.spec_k(), self.spec_n(), r as int, c as int),
            x < packed_size(self.spec_k(), self.spec_n()),
    {
        self.inner.layout.addr(r, c)
    }

    /// The elements in the blocked layout.
    pub fn data(&self) -> (r: &[T])
        ensures
            r@ == self.elements(),
    {
        self.inner.data.as_slice()
    }
}

} // verus!
