//! The inner kernel: a few rows of one matrix times blocks of columns of a packed one.

use crate::arith::lemma_div_mod_of;
use crate::layout::BLOCK_COL_SIZE;
use crate::scalar::Scalar;
use vstd::prelude::*;

verus! {

/// Packed elements that a kernel reads, whatever form they are stored in.
pub trait Panel<T: Scalar> {
    spec fn spec_size(&self) -> int;

    spec fn spec_at(&self, x: int) -> T;

    /// Element `x`.
    fn at(&self, x: usize) -> (r: T)
        requires
            x < self.spec_size(),
        ensures
            r == self.spec_at(x as int),
    ;
}

/// Elements stored as they are.
pub struct PlainPanel<'a, T> {
    pub data: &'a [T],
}

impl<'a, T: Scalar> Panel<T> for PlainPanel<'a, T> {
    open spec fn spec_size(&self) -> int {
        self.data@.len() as int
    }

    open spec fn spec_at(&self, x: int) -> T {
        self.data@[x]
    }

    fn at(&self, x: usize) -> T {
        self.data[x]
    }
}

/// The sum of `a(p) * b(p)` for `lo <= p < hi`, accumulated from zero in this order.
pub open spec fn dot<T: Scalar>(
    a: spec_fn(int) -> T,
    b: spec_fn(int) -> T,
    lo: int,
    hi: int,
) -> T
    decreases hi - lo,
{
    if hi <= lo {
        T::spec_zero()
    } else {
        dot(a, b, lo, hi - 1).spec_mul_add(a(hi - 1), b(hi - 1))
    }
}

/// What becomes of an output element `c` when `x` is stored with factor `beta`: `x` alone where
/// `beta` is zero, and `beta * c + x` otherwise.
pub open spec fn stored<T: Scalar>(beta: T, c: T, x: T) -> T {
    if beta.spec_is_zero() {
        x
    } else {
        beta.spec_times(c).spec_plus(x)
    }
}

/// Stores `x` into an output element `c` with factor `beta`.
pub(crate) fn store<T: Scalar>(beta: T, c: T, x: T) -> (r: T)
    ensures
        r == stored(beta, c, x),
{
    if beta.is_zero() {
        x
    } else {
        beta.times(c).plus(x)
    }
}

/// Two products with the same factors, up to a shift of the range, are equal.
pub(crate) proof fn lemma_dot_shift<T: Scalar>(
    a: spec_fn(int) -> T,
    b: spec_fn(int) -> T,
    a2: spec_fn(int) -> T,
    b2: spec_fn(int) -> T,
    lo: int,
    hi: int,
    d: int,
)
    requires
        forall|p: int| lo <= p < hi ==> #[trigger] a(p) == a2(p + d),
        forall|p: int| lo <= p < hi ==> #[trigger] b(p) == b2(p + d),
    ensures
        dot(a, b, lo, hi) == dot(a2, b2, lo + d, hi + d),
    decreases hi - lo,
{
    if lo < hi {
        lemma_dot_shift(a, b, a2, b2, lo, hi - 1, d);
        assert(a(hi - 1) == a2(hi - 1 + d));
        assert(b(hi - 1) == b2(hi - 1 + d));
    }
}

/// Position of element `(p, j)` within the blocks of columns that start at `b_off`, for blocks of
/// `kb` rows.
pub open spec fn strip_index(b_off: int, kb: int, p: int, j: int) -> int {
    b_off + (j / 16) * (kb * 16) + p * 16 + j % 16
}

/// The product that a kernel forms for row `i` and column `j`: the rows of `a` are interleaved,
/// element `p` of row `i` at `i + p * nrows`.
pub open spec fn kernel_dot<T: Scalar, P: Panel<T>>(
    a: Seq<T>,
    nrows: int,
    panel: P,
    b_off: int,
    kb: int,
    i: int,
    j: int,
) -> T {
    dot(
        |p: int| a[i + p * nrows],
        |p: int| panel.spec_at(strip_index(b_off, kb, p, j)),
        0,
        kb,
    )
}

/// The product for row `i` and column `j`.
fn kernel_entry<T: Scalar, P: Panel<T>>(
    a: &[T],
    nrows: usize,
    panel: &P,
    b_off: usize,
    kb: usize,
    i: usize,
    j: usize,
) -> (r: T)
    requires
        i < nrows,
        nrows * kb <= a@.len(),
        (b_off + (j / 16 + 1) * (kb * 16)) <= panel.spec_size(),
        panel.spec_size() <= usize::MAX,
    ensures
        r == kernel_dot(a@, nrows as int, *panel, b_off as int, kb as int, i as int, j as int),
{
    let ghost fa = |p: int| a@[i + p * nrows];
    let ghost fb = |p: int|
        panel.spec_at(strip_index(b_off as int, kb as int, p, j as int));
    let mut acc = T::zero();
    let cb: usize = j / BLOCK_COL_SIZE;
    let jj: usize = j % BLOCK_COL_SIZE;
    proof {
        assert((cb + 1) * (kb * 16) == cb * (kb * 16) + kb * 16) by (nonlinear_arith);
        assert(cb * (kb * 16) == cb * kb * 16) by (nonlinear_arith);
        assert(0 <= cb * kb) by (nonlinear_arith)
            requires
                0 <= cb,
                0 <= kb,
        ;
    }
    let start: usize = b_off + cb * kb * BLOCK_COL_SIZE;
    for p in 0..kb
        invariant
            fa == (|p: int| a@[i + p * nrows]),
            fb == (|p: int| panel.spec_at(strip_index(b_off as int, kb as int, p, j as int))),
            i < nrows,
            nrows * kb <= a.len(),
            start == b_off + (j / 16) * (kb * 16),
            jj == j % 16,
            start + kb * 16 <= panel.spec_size() <= usize::MAX,
            acc == dot(fa, fb, 0, p as int),
    {
        proof {
            assert(i + p * nrows < nrows * kb && 0 <= p * nrows) by (nonlinear_arith)
                requires
                    0 <= i < nrows,
                    0 <= p < kb,
            ;
        }
        acc = acc.mul_add(a[i + p * nrows], panel.at(start + p * BLOCK_COL_SIZE + jj));
    }
    acc
}

/// Multiplies `nrows` interleaved rows of `a` with `block_cols` blocks of columns and stores the
/// products with factor `beta` into the rows of `c`, which are `ldc` apart.
pub(crate) fn kernel<T: Scalar, P: Panel<T>>(
    nrows: usize,
    kb: usize,
    a: &[T],
    panel: &P,
    b_off: usize,
    block_cols: usize,
    beta: T,
    c: &mut [T],
    ldc: usize,
)
    requires
        nrows * kb <= a@.len(),
        b_off + block_cols * (kb * 16) <= panel.spec_size() <= usize::MAX,
        block_cols * 16 <= ldc,
        nrows > 0 && block_cols > 0 ==> (nrows - 1) * ldc + block_cols * 16 <= old(c)@.len(),
    ensures
        final(c)@.len() == old(c)@.len(),
        forall|x: int|
            0 <= x < old(c)@.len() ==> #[trigger] final(c)@[x] == (if block_cols > 0 && x / (
            ldc as int) < nrows && x % (ldc as int) < block_cols * 16 {
                stored(
                    beta,
                    old(c)@[x],
                    kernel_dot(
                        a@,
                        nrows as int,
                        *panel,
                        b_off as int,
                        kb as int,
                        x / (ldc as int),
                        x % (ldc as int),
                    ),
                )
            } else {
                old(c)@[x]
            }),
{
    let ghost c0 = c@;
    let cols: usize = block_cols * BLOCK_COL_SIZE;
    if cols == 0 {
        return ;
    }
    proof {
        assert forall|x: int| #![trigger c0[x]] 0 <= x < c0.len() implies 0 <= x / (ldc as int) by {
            vstd::arithmetic::div_mod::lemma_div_pos_is_pos(x, ldc as int);
        }
    }
    for i in 0..nrows
        invariant
            nrows * kb <= a@.len(),
            b_off + block_cols * (kb * 16) <= panel.spec_size() <= usize::MAX,
            cols == block_cols * 16,
            0 < cols <= ldc,
            nrows > 0 ==> (nrows - 1) * ldc + cols <= c@.len(),
            c@.len() == c0.len(),
            forall|x: int| #![trigger c0[x]] 0 <= x < c0.len() ==> 0 <= x / (ldc as int),
            forall|x: int|
                0 <= x < c0.len() ==> #[trigger] c@[x] == (if x / (ldc as int) < i && x % (
                ldc as int) < cols {
                    stored(
                        beta,
                        c0[x],
                        kernel_dot(
                            a@,
                            nrows as int,
                            *panel,
                            b_off as int,
                            kb as int,
                            x / (ldc as int),
                            x % (ldc as int),
                        ),
                    )
                } else {
                    c0[x]
                }),
    {
        proof {
            assert(i * ldc <= (nrows - 1) * ldc && 0 <= i * ldc) by (nonlinear_arith)
                requires
                    0 <= i <= nrows - 1,
                    0 <= ldc,
            ;
            assert(c.len() == c@.len());
        }
        for j in 0..cols
            invariant
                i < nrows,
                nrows * kb <= a@.len(),
                b_off + block_cols * (kb * 16) <= panel.spec_size() <= usize::MAX,
                cols == block_cols * 16,
                0 < cols <= ldc,
                0 <= i * ldc,
                i * ldc + cols <= c.len(),
                c@.len() == c0.len(),
                forall|x: int| #![trigger c0[x]] 0 <= x < c0.len() ==> 0 <= x / (ldc as int),
                forall|x: int|
                    0 <= x < c0.len() ==> #[trigger] c@[x] == (if (x / (ldc as int) < i && x % (
                    ldc as int) < cols) || (x / (ldc as int) == i && x % (ldc as int) < j) {
                        stored(
                            beta,
                            c0[x],
                            kernel_dot(
                                a@,
                                nrows as int,
                                *panel,
                                b_off as int,
                                kb as int,
                                x / (ldc as int),
                                x % (ldc as int),
                            ),
                        )
                    } else {
                        c0[x]
                    }),
        {
            proof {
                lemma_div_mod_of(i as int, j as int, ldc as int);
                assert((j / 16 + 1) * (kb * 16) <= block_cols * (kb * 16)) by (nonlinear_arith)
                    requires
                        j / 16 + 1 <= block_cols,
                        0 <= kb,
                ;
                assert forall|x: int|
                    #![trigger c0[x]]
                    0 <= x < c0.len() && x / (ldc as int) == i && x % (ldc as int)
                        == j implies x == i * ldc + j by {
                    vstd::arithmetic::div_mod::lemma_fundamental_div_mod(x, ldc as int);
                    assert(ldc * (i as int) == i * ldc) by (nonlinear_arith);
                }
            }
            let acc = kernel_entry(a, nrows, panel, b_off, kb, i, j);
            let at: usize = i * ldc + j;
            let v = store(beta, c[at], acc);
            c[at] = v;
        }
    }
}

} // verus!
