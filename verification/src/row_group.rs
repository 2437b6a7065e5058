//! One group of rows times one block of rows of a packed matrix.

use crate::arith::{lemma_div_mod_of, lemma_position};
use crate::blocks::block_count;
use crate::kernels::{
    dot, kernel, kernel_dot, lemma_dot_shift, store, stored, strip_index, Panel,
};
use crate::layout::BLOCK_COL_SIZE;
use crate::pack::filled;
use crate::scalar::Scalar;
use vstd::prelude::*;

verus! {

/// Transposes `nrow` rows of `ncol` elements, which are `ldim` apart in `from`, into the start
/// of `to`: element `c` of row `r` goes to `r + c * nrow`.
pub fn pack_a<T: Copy>(nrow: usize, ncol: usize, from: &[T], ldim: usize, to: &mut [T])
    requires
        nrow > 0 && ncol > 0 ==> (nrow - 1) * ldim + ncol <= from@.len(),
        nrow * ncol <= old(to)@.len(),
    ensures
        final(to)@.len() == old(to)@.len(),
        forall|x: int|
            0 <= x < old(to)@.len() ==> #[trigger] final(to)@[x] == (if x < nrow * ncol {
                from@[(x % (nrow as int)) * ldim + x / (nrow as int)]
            } else {
                old(to)@[x]
            }),
{
    let ghost t0 = to@;
    proof {
        if nrow == 0 {
            assert(nrow * ncol == 0) by (nonlinear_arith)
                requires
                    nrow == 0,
            ;
        }
        assert forall|x: int| 0 <= x < t0.len() implies #[trigger] to@[x] == (if x < nrow * ncol
            && x % (nrow as int) < 0 {
            from@[(x % (nrow as int)) * ldim + x / (nrow as int)]
        } else {
            t0[x]
        }) by {
            if x < nrow * ncol {
                assert(nrow * ncol == ncol * nrow) by (nonlinear_arith);
                lemma_position(x, ncol as int, nrow as int);
            }
        }
    }
    for r in 0..nrow
        invariant
            nrow > 0 && ncol > 0 ==> (nrow - 1) * ldim + ncol <= from@.len(),
            nrow * ncol <= to@.len(),
            to@.len() == t0.len(),
            forall|x: int|
                0 <= x < t0.len() ==> #[trigger] to@[x] == (if x < nrow * ncol && x % (nrow as int)
                    < r {
                    from@[(x % (nrow as int)) * ldim + x / (nrow as int)]
                } else {
                    t0[x]
                }),
    {
        proof {
            assert(r * ldim <= (nrow - 1) * ldim && 0 <= r * ldim) by (nonlinear_arith)
                requires
                    0 <= r <= nrow - 1,
                    0 <= ldim,
            ;
            assert forall|x: int| 0 <= x < t0.len() && x < nrow * ncol implies 0 <= #[trigger] (x
                / (nrow as int)) by {
                assert(nrow * ncol == ncol * nrow) by (nonlinear_arith);
                lemma_position(x, ncol as int, nrow as int);
            }
        }
        for c in 0..ncol
            invariant
                r < nrow,
                0 <= r * ldim,
                ncol > 0 ==> r * ldim + ncol <= from.len(),
                nrow * ncol <= to.len(),
                to@.len() == t0.len(),
                forall|x: int|
                    0 <= x < t0.len() ==> #[trigger] to@[x] == (if x < nrow * ncol && (x % (
                    nrow as int) < r || (x % (nrow as int) == r && x / (nrow as int) < c)) {
                        from@[(x % (nrow as int)) * ldim + x / (nrow as int)]
                    } else {
                        t0[x]
                    }),
        {
            proof {
                lemma_div_mod_of(c as int, r as int, nrow as int);
                assert(c * nrow + r < nrow * ncol && 0 <= c * nrow) by (nonlinear_arith)
                    requires
                        0 <= r < nrow,
                        0 <= c < ncol,
                ;
                assert forall|x: int|
                    #![trigger t0[x]]
                    0 <= x < t0.len() && x % (nrow as int) == r && x / (nrow as int)
                        == c implies x == r + c * nrow by {
                    vstd::arithmetic::div_mod::lemma_fundamental_div_mod(x, nrow as int);
                    assert(nrow * (c as int) == c * nrow) by (nonlinear_arith);
                }
            }
            to[r + c * nrow] = from[r * ldim + c];
        }
        proof {
            assert forall|x: int| 0 <= x < t0.len() implies #[trigger] to@[x] == (if x < nrow * ncol
                && x % (nrow as int) < r + 1 {
                from@[(x % (nrow as int)) * ldim + x / (nrow as int)]
            } else {
                t0[x]
            }) by {
                if x < nrow * ncol {
                    assert(nrow * ncol == ncol * nrow) by (nonlinear_arith);
                    lemma_position(x, ncol as int, nrow as int);
                }
            }
        }
    }
    proof {
        assert forall|x: int| 0 <= x < t0.len() && x < nrow * ncol implies #[trigger] to@[x]
            == from@[(x % (nrow as int)) * ldim + x / (nrow as int)] by {
            assert(nrow * ncol == ncol * nrow) by (nonlinear_arith);
            lemma_position(x, ncol as int, nrow as int);
        }
    }
}

/// The product of `kb` elements of row `row` of `a`, from column `k_ind` on, and column `j` of the
/// blocks of columns that start at `b_off`.
pub open spec fn group_dot<T: Scalar, P: Panel<T>>(
    a: Seq<T>,
    k: int,
    row: int,
    k_ind: int,
    panel: P,
    b_off: int,
    kb: int,
    j: int,
) -> T {
    dot(
        |p: int| a[row * k + k_ind + p],
        |p: int| panel.spec_at(strip_index(b_off, kb, p, j)),
        0,
        kb,
    )
}

/// The output of a group of rows after one block: the first `nrows * n` elements updated.
pub open spec fn group_updated<T: Scalar, P: Panel<T>>(
    before: Seq<T>,
    after: Seq<T>,
    m2: int,
    nrows: int,
    k_ind: int,
    kb: int,
    beta: T,
    a: Seq<T>,
    k: int,
    n: int,
    panel: P,
    b_off: int,
) -> bool {
    &&& after.len() == before.len()
    &&& forall|x: int|
        0 <= x < before.len() ==> #[trigger] after[x] == (if x < nrows * n {
            stored(
                beta,
                before[x],
                group_dot(a, k, m2 + x / n, k_ind, panel, b_off, kb, x % n),
            )
        } else {
            before[x]
        })
}

/// Copies the columns from `last` on of `nrows` rows back from a buffer of whole blocks.
fn store_fringe<T: Scalar>(
    nrows: usize,
    n: usize,
    last: usize,
    c_tmp: &Vec<T>,
    beta: T,
    c: &mut [T],
)
    requires
        last < n,
        n - last <= 16,
        c_tmp@.len() == nrows * 16,
        nrows * n <= old(c)@.len(),
    ensures
        final(c)@.len() == old(c)@.len(),
        forall|x: int|
            0 <= x < old(c)@.len() ==> #[trigger] final(c)@[x] == (if x < nrows * n && x % (
            n as int) >= last {
                stored(beta, old(c)@[x], c_tmp@[(x / (n as int)) * 16 + (x % (n as int) - last)])
            } else {
                old(c)@[x]
            }),
{
    let ghost c0 = c@;
    let rem: usize = n - last;
    assert(0 * n == 0) by (nonlinear_arith);
    for i in 0..nrows
        invariant
            last < n,
            rem == n - last,
            rem <= 16,
            c_tmp@.len() == nrows * 16,
            nrows * n <= c@.len(),
            c@.len() == c0.len(),
            forall|x: int|
                0 <= x < c0.len() ==> #[trigger] c@[x] == (if x < i * n && x % (n as int)
                    >= last {
                    stored(beta, c0[x], c_tmp@[(x / (n as int)) * 16 + (x % (n as int) - last)])
                } else {
                    c0[x]
                }),
    {
        proof {
            assert(i * n + n <= nrows * n && 0 <= i * n) by (nonlinear_arith)
                requires
                    0 <= i < nrows,
                    0 <= n,
            ;
            assert((i + 1) * n == i * n + n) by (nonlinear_arith);
            assert(c.len() == c@.len());
        }
        for j in 0..rem
            invariant
                i < nrows,
                last < n,
                rem == n - last,
                rem <= 16,
                c_tmp.len() == nrows * 16,
                0 <= i * n,
                i * n + n <= c.len(),
                c@.len() == c0.len(),
                forall|x: int|
                    0 <= x < c0.len() ==> #[trigger] c@[x] == (if (x < i * n && x % (n as int)
                        >= last) || (i * n + last <= x < i * n + last + j) {
                        stored(beta, c0[x], c_tmp@[(x / (n as int)) * 16 + (x % (n as int) - last)])
                    } else {
                        c0[x]
                    }),
        {
            proof {
                lemma_div_mod_of(i as int, last + j, n as int);
            }
            let src = c_tmp[i * BLOCK_COL_SIZE + j];
            let at: usize = i * n + last + j;
            let v = store(beta, c[at], src);
            c[at] = v;
        }
        proof {
            assert forall|x: int| 0 <= x < c0.len() implies #[trigger] c@[x] == (if x < (i + 1) * n
                && x % (n as int) >= last {
                stored(beta, c0[x], c_tmp@[(x / (n as int)) * 16 + (x % (n as int) - last)])
            } else {
                c0[x]
            }) by {
                if i * n <= x < i * n + n {
                    lemma_div_mod_of(i as int, x - i * n, n as int);
                }
            }
        }
    }
}

/// A kernel reads the rows of a group through a transposed copy, or directly where the matrix has
/// a single row; either way it forms the products of the matrix.
proof fn lemma_kernel_dot<T: Scalar, P: Panel<T>>(
    panel_a: Seq<T>,
    nrows: int,
    a: Seq<T>,
    k: int,
    m2: int,
    k_ind: int,
    panel: P,
    b_off: int,
    kb: int,
    i: int,
    j: int,
    b_off2: int,
    j2: int,
)
    requires
        0 <= i < nrows,
        forall|p: int|
            0 <= p < kb ==> #[trigger] panel_a[i + p * nrows] == a[(m2 + i) * k + k_ind + p],
        forall|p: int|
            #[trigger] strip_index(b_off, kb, p, j) == strip_index(b_off2, kb, p, j2),
    ensures
        kernel_dot(panel_a, nrows, panel, b_off, kb, i, j) == group_dot(
            a,
            k,
            m2 + i,
            k_ind,
            panel,
            b_off2,
            kb,
            j2,
        ),
{
    let fa = |p: int| panel_a[i + p * nrows];
    let fb = |p: int| panel.spec_at(strip_index(b_off, kb, p, j));
    let ga = |p: int| a[(m2 + i) * k + k_ind + p];
    let gb = |p: int| panel.spec_at(strip_index(b_off2, kb, p, j2));
    lemma_dot_shift(fa, fb, ga, gb, 0, kb, 0);
}

/// Multiplies `nrows` rows of `a`, from row `m2` on, with one block of rows of a packed matrix and
/// stores the products with factor `beta` into the rows at the start of `c`. Columns in an
/// incomplete last block go through a buffer of whole blocks.
pub(crate) fn process_row_group<T: Scalar, P: Panel<T>>(
    m2: usize,
    nrows: usize,
    k_ind: usize,
    kb: usize,
    total_m: usize,
    beta: T,
    a: &[T],
    k: usize,
    n: usize,
    panel: &P,
    b_off: usize,
    c: &mut [T],
)
    requires
        1 <= nrows <= 6,
        kb <= 512,
        m2 + nrows <= total_m,
        total_m * k <= a@.len(),
        k_ind + kb <= k,
        b_off + block_count(n as int, 16) * (kb * 16) <= panel.spec_size() <= usize::MAX,
        nrows * n <= old(c)@.len(),
    ensures
        group_updated(
            old(c)@,
            final(c)@,
            m2 as int,
            nrows as int,
            k_ind as int,
            kb as int,
            beta,
            a@,
            k as int,
            n as int,
            *panel,
            b_off as int,
        ),
{
    let ghost c0 = c@;
    let nbcol: usize = n / BLOCK_COL_SIZE;
    proof {
        assert((m2 + nrows) * k <= total_m * k) by (nonlinear_arith)
            requires
                m2 + nrows <= total_m,
                0 <= k,
        ;
        assert((m2 + nrows) * k == m2 * k + (nrows - 1) * k + k) by (nonlinear_arith);
        assert(0 <= m2 * k && 0 <= (nrows - 1) * k) by (nonlinear_arith)
            requires
                0 <= m2,
                0 <= k,
                1 <= nrows,
        ;
        assert(nrows * kb <= 6 * 512 && 0 <= nrows * kb) by (nonlinear_arith)
            requires
                1 <= nrows <= 6,
                0 <= kb <= 512,
        ;
        assert(a.len() == a@.len());
        assert(c.len() == c@.len());
    }
    let mut scratchpad: Vec<T> = filled(nrows * kb, T::zero());
    if total_m != 1 {
        let from = vstd::slice::slice_subrange(a, m2 * k + k_ind, a.len());
        pack_a(nrows, kb, from, k, &mut scratchpad);
        proof {
            assert forall|i: int, p: int|
                0 <= i < nrows && 0 <= p < kb implies #[trigger] scratchpad@[i + p * nrows]
                == a@[(m2 + i) * k + k_ind + p] by {
                lemma_div_mod_of(p, i, nrows as int);
                assert(p * nrows + i < nrows * kb && 0 <= p * nrows) by (nonlinear_arith)
                    requires
                        0 <= i < nrows,
                        0 <= p < kb,
                ;
                assert((m2 + i) * k == m2 * k + i * k) by (nonlinear_arith);
                assert(0 <= i * k <= (nrows - 1) * k) by (nonlinear_arith)
                    requires
                        0 <= i <= nrows - 1,
                        0 <= k,
                ;
            }
        }
    }
    let panel_a: &[T] = if total_m == 1 {
        vstd::slice::slice_subrange(a, k_ind, k_ind + kb)
    } else {
        scratchpad.as_slice()
    };
    proof {
        assert forall|i: int, p: int|
            0 <= i < nrows && 0 <= p < kb implies #[trigger] panel_a@[i + p * nrows] == a@[(m2 + i)
            * k + k_ind + p] by {
            if total_m == 1 {
                assert(nrows == 1 && i == 0 && m2 == 0);
                assert((m2 + i) * k == 0) by (nonlinear_arith)
                    requires
                        m2 + i == 0,
                ;
                assert(p * nrows == p) by (nonlinear_arith)
                    requires
                        nrows == 1,
                ;
            }
        }
        assert(nbcol * (kb * 16) <= block_count(n as int, 16) * (kb * 16) && 0 <= nbcol * (kb * 16))
            by (nonlinear_arith)
            requires
                0 <= nbcol <= block_count(n as int, 16),
                0 <= kb,
        ;
        assert(nrows * n == (nrows - 1) * n + n) by (nonlinear_arith);
    }
    kernel(nrows, kb, panel_a, panel, b_off, nbcol, beta, c, n);
    let ghost c1 = c@;
    if n % BLOCK_COL_SIZE != 0 {
        let last_blk_col: usize = nbcol * BLOCK_COL_SIZE;
        proof {
            assert(block_count(n as int, 16) * (kb * 16) == nbcol * (kb * 16) + kb * 16)
                by (nonlinear_arith)
                requires
                    block_count(n as int, 16) == nbcol + 1,
            ;
            assert(nbcol * (kb * 16) == nbcol * kb * 16) by (nonlinear_arith);
            assert(0 <= nbcol * kb) by (nonlinear_arith)
                requires
                    0 <= nbcol,
                    0 <= kb,
            ;
            assert(1 * (kb * 16) == kb * 16);
        }
        let mut c_tmp: Vec<T> = filled(nrows * BLOCK_COL_SIZE, T::zero());
        let fringe_off: usize = b_off + nbcol * kb * BLOCK_COL_SIZE;
        kernel(nrows, kb, panel_a, panel, fringe_off, 1, T::zero(), &mut c_tmp, BLOCK_COL_SIZE);
        store_fringe(nrows, n, last_blk_col, &c_tmp, beta, c);
        proof {
            assert forall|i: int, jj: int|
                0 <= i < nrows && 0 <= jj < n - last_blk_col implies #[trigger] c_tmp@[i * 16 + jj]
                == group_dot(
                a@,
                k as int,
                m2 + i,
                k_ind as int,
                *panel,
                b_off as int,
                kb as int,
                last_blk_col + jj,
            ) by {
                let x = i * 16 + jj;
                assert(x / 16 == i && x % 16 == jj);
                assert forall|p: int| #[trigger] strip_index(fringe_off as int, kb as int, p, jj)
                    == strip_index(b_off as int, kb as int, p, last_blk_col + jj) by {
                    assert(jj / 16 == 0 && jj % 16 == jj);
                    assert((last_blk_col + jj) / 16 == nbcol && (last_blk_col + jj) % 16 == jj);
                    assert(0 * (kb * 16) == 0) by (nonlinear_arith);
                }
                lemma_kernel_dot(
                    panel_a@,
                    nrows as int,
                    a@,
                    k as int,
                    m2 as int,
                    k_ind as int,
                    *panel,
                    fringe_off as int,
                    kb as int,
                    i,
                    jj,
                    b_off as int,
                    last_blk_col + jj,
                );
            }
        }
    }
    proof {
        assert forall|x: int| 0 <= x < c0.len() implies #[trigger] c@[x] == (if x < nrows * n {
            stored(
                beta,
                c0[x],
                group_dot(
                    a@,
                    k as int,
                    m2 + x / (n as int),
                    k_ind as int,
                    *panel,
                    b_off as int,
                    kb as int,
                    x % (n as int),
                ),
            )
        } else {
            c0[x]
        }) by {
            assert(c1[x] == c1[x]);
            if x < nrows * n {
                lemma_position(x, nrows as int, n as int);
                let i = x / (n as int);
                let j = x % (n as int);
                lemma_kernel_dot(
                    panel_a@,
                    nrows as int,
                    a@,
                    k as int,
                    m2 as int,
                    k_ind as int,
                    *panel,
                    b_off as int,
                    kb as int,
                    i,
                    j,
                    b_off as int,
                    j,
                );
            } else if n > 0 {
                vstd::arithmetic::div_mod::lemma_fundamental_div_mod(x, n as int);
                assert(x / (n as int) >= nrows) by (nonlinear_arith)
                    requires
                        x >= nrows * n,
                        x == n * (x / (n as int)) + x % (n as int),
                        0 <= x % (n as int) < n,
                ;
            }
        }
    }
}

} // verus!
