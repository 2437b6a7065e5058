//! Matrix multiplication with a packed right-hand side.

use crate::kernels::PlainPanel;
use crate::layout::packed_size;
use crate::pack::PackedMatrix;
use crate::partition::{
    block_groups, groups_tile, groups_view, law_block_groups_tile, push_block_groups, MB_MAX,
};
use crate::product::{
    blocks_done, gemm_output, k_blocks, lemma_rows_output, lemma_rows_same, lemma_rows_step,
    lemma_strip_holds, rows_at,
};
use crate::rows::{count_k_blocks, k_block_range, run_groups};
use crate::scalar::Scalar;
use vstd::prelude::*;

verus! {

/// Computes `c = beta * c + a * b`, block of rows by block of rows, where `c` has no more than its
/// M×N elements.
fn compute_rows<T: Scalar>(
    m: usize,
    a: &[T],
    packed_b: &PackedMatrix<T>,
    beta: T,
    c: &mut [T],
)
    requires
        packed_b.wf(),
        m * packed_b.spec_k() <= a@.len(),
        old(c)@.len() == m * packed_b.spec_n(),
    ensures
        gemm_output(
            old(c)@,
            final(c)@,
            a@,
            m as int,
            packed_b.spec_k(),
            packed_b.matrix(),
            packed_b.spec_n(),
            beta,
        ),
{
    let k = packed_b.k();
    let n = packed_b.n();
    let nblocks = count_k_blocks(k);
    let panel = PlainPanel { data: packed_b.data() };
    let ghost b = packed_b.matrix();
    let ghost c0 = c@;
    proof {
        packed_b.lemma_wf();
    }
    let mut m0: usize = 0;
    while m0 < m
        invariant
            m0 <= m,
            packed_b.wf(),
            k == packed_b.spec_k(),
            n == packed_b.spec_n(),
            nblocks == k_blocks(k as int),
            panel.data@ == packed_b.elements(),
            panel.data@.len() == packed_size(k as int, n as int),
            packed_size(k as int, n as int) <= usize::MAX,
            b == packed_b.matrix(),
            m * k <= a@.len(),
            c@.len() == m * n,
            rows_at(
                c0,
                c@,
                a@,
                k as int,
                b,
                n as int,
                beta,
                |i: int|
                    if i < m0 {
                        nblocks as int
                    } else {
                        0
                    },
            ),
        decreases m - m0,
    {
        let mb: usize = if m - m0 < MB_MAX {
            m - m0
        } else {
            MB_MAX
        };
        let mut groups: Vec<(usize, usize)> = Vec::new();
        push_block_groups(m0, mb, &mut groups);
        proof {
            assert(groups_view(groups@) =~= block_groups(m0 as int, mb as int));
            law_block_groups_tile(m0 as int, mb as int);
            lemma_rows_same(
                c0,
                c@,
                a@,
                k as int,
                b,
                n as int,
                beta,
                |i: int|
                    if i < m0 {
                        nblocks as int
                    } else {
                        0
                    },
                blocks_done(m0 as int, mb as int, nblocks as int, 0),
            );
        }
        for q in 0..nblocks
            invariant
                m0 < m,
                m0 + mb <= m,
                groups_tile(groups_view(groups@), m0 as int, m0 + mb),
                packed_b.wf(),
                k == packed_b.spec_k(),
                n == packed_b.spec_n(),
                nblocks == k_blocks(k as int),
                panel.data@ == packed_b.elements(),
                panel.data@.len() == packed_size(k as int, n as int),
                packed_size(k as int, n as int) <= usize::MAX,
                b == packed_b.matrix(),
                m * k <= a@.len(),
                c@.len() == m * n,
                rows_at(
                    c0,
                    c@,
                    a@,
                    k as int,
                    b,
                    n as int,
                    beta,
                    blocks_done(m0 as int, mb as int, nblocks as int, q as int),
                ),
        {
            let (k_ind, kb) = k_block_range(k, q);
            let beta_ = if q == 0 {
                beta
            } else {
                T::one()
            };
            let b_off: usize = if k_ind < k && n > 0 {
                packed_b.addr(k_ind, 0)
            } else {
                0
            };
            let ghost c1 = c@;
            proof {
                lemma_strip_holds(panel, k as int, n as int, b, q as int);
            }
            run_groups(
                &groups,
                Ghost(m0 as int),
                Ghost(m0 + mb),
                Ghost(q as int),
                k_ind,
                kb,
                m,
                beta_,
                a,
                k,
                n,
                &panel,
                b_off,
                c,
                Ghost(b),
            );
            proof {
                lemma_rows_step(
                    c0,
                    c1,
                    c@,
                    a@,
                    k as int,
                    b,
                    n as int,
                    beta,
                    blocks_done(m0 as int, mb as int, nblocks as int, q as int),
                    blocks_done(m0 as int, mb as int, nblocks as int, q + 1),
                    m0 as int,
                    m0 + mb,
                    q as int,
                );
            }
        }
        proof {
            lemma_rows_same(
                c0,
                c@,
                a@,
                k as int,
                b,
                n as int,
                beta,
                blocks_done(m0 as int, mb as int, nblocks as int, nblocks as int),
                |i: int|
                    if i < m0 + mb {
                        nblocks as int
                    } else {
                        0
                    },
            );
        }
        m0 += mb;
    }
    proof {
        lemma_rows_output(
            c0,
            c@,
            a@,
            m as int,
            k as int,
            b,
            n as int,
            beta,
            |i: int|
                if i < m0 {
                    nblocks as int
                } else {
                    0
                },
        );
    }
}

/// Computes `c = beta * c + a * b` on one thread.
///
/// - `m`: number of rows of `a` and `c`
/// - `a`: M×K row-major matrix
/// - `packed_b`: packed K×N matrix
/// - `beta`: factor for the existing `c`
/// - `c`: M×N row-major output
///
/// Slices may be longer than the matrices; elements of `c` beyond the output stay as they are.
pub fn cblas_gemm_compute<T: Scalar>(
    m: usize,
    a: &[T],
    packed_b: &PackedMatrix<T>,
    beta: T,
    c: &mut [T],
)
    requires
        packed_b.wf(),
        m * packed_b.spec_k() <= a@.len(),
        m * packed_b.spec_n() <= old(c)@.len(),
    ensures
        gemm_output(
            old(c)@,
            final(c)@,
            a@,
            m as int,
            packed_b.spec_k(),
            packed_b.matrix(),
            packed_b.spec_n(),
            beta,
        ),
{
    proof {
        packed_b.lemma_wf();
        assert(0 <= m * packed_b.spec_n()) by (nonlinear_arith)
            requires
                0 <= m,
                0 <= packed_b.spec_n(),
        ;
        assert(c.len() == c@.len());
    }
    let (rows, _) = c.split_at_mut(m * packed_b.n());
    compute_rows(m, a, packed_b, beta, rows);
}

/// Computes `c = beta * c + a * b`.
///
/// - `a`: M×K row-major matrix
/// - `packed_b`: packed K×N matrix (see [`PackedMatrix`])
/// - `c`: M×N row-major output
/// - `m`: number of rows of `a` and `c`
/// - `beta`: factor for the existing `c`, zero to overwrite it
pub fn sgemm<T: Scalar>(m: usize, a: &[T], packed_b: &PackedMatrix<T>, beta: T, c: &mut [T])
    requires
        packed_b.wf(),
        a@.len() == m * packed_b.spec_k(),
        old(c)@.len() == m * packed_b.spec_n(),
    ensures
        gemm_output(
            old(c)@,
            final(c)@,
            a@,
            m as int,
            packed_b.spec_k(),
            packed_b.matrix(),
            packed_b.spec_n(),
            beta,
        ),
{
    cblas_gemm_compute(m, a, packed_b, beta, c);
}

/// Computes `c = a * b`, overwriting `c`.
pub fn sgemm_simple<T: Scalar>(m: usize, a: &[T], packed_b: &PackedMatrix<T>, c: &mut [T])
    requires
        packed_b.wf(),
        a@.len() == m * packed_b.spec_k(),
        old(c)@.len() == m * packed_b.spec_n(),
    ensures
        gemm_output(
            old(c)@,
            final(c)@,
            a@,
            m as int,
            packed_b.spec_k(),
            packed_b.matrix(),
            packed_b.spec_n(),
            T::spec_zero(),
        ),
        T::spec_zero().spec_is_zero(),
{
    sgemm(m, a, packed_b, T::zero(), c);
}

} // verus!
