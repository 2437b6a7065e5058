//! The product of a matrix and a packed matrix, block by block.

use crate::arith::lemma_position;
use crate::blocks::{block_count, block_len};
use crate::kernels::{dot, lemma_dot_shift, stored, strip_index, Panel};
use crate::layout::{lemma_addr_strip, lemma_strip_bound, packed_addr, packed_size};
use crate::row_group::group_dot;
use crate::scalar::Scalar;
use vstd::prelude::*;

verus! {

/// Number of blocks of rows of a packed matrix with `k` rows that a multiplication goes through.
/// A matrix without rows counts as one empty block, so that the factor `beta` is applied.
pub open spec fn k_blocks(k: int) -> int {
    if k == 0 {
        1
    } else {
        block_count(k, 512)
    }
}

/// The end of block `q` out of `k` rows.
pub open spec fn k_block_end(k: int, q: int) -> int {
    if q * 512 + 512 < k {
        q * 512 + 512
    } else {
        k
    }
}

/// The factor for the output in block `q`: the caller's in the first block, one after it.
pub open spec fn block_beta<T: Scalar>(beta: T, q: int) -> T {
    if q == 0 {
        beta
    } else {
        T::spec_one()
    }
}

/// The product of row `i` of `a` and column `j` of `b` over block `q` of their common dimension.
pub open spec fn block_dot<T: Scalar>(
    a: Seq<T>,
    k: int,
    b: spec_fn(int, int) -> T,
    i: int,
    j: int,
    q: int,
) -> T {
    dot(|p: int| a[i * k + p], |p: int| b(p, j), q * 512, k_block_end(k, q))
}

/// The output element in row `i` and column `j`, which was `c`, after the first `blocks` blocks.
pub open spec fn gemm_entry<T: Scalar>(
    a: Seq<T>,
    k: int,
    b: spec_fn(int, int) -> T,
    beta: T,
    c: T,
    i: int,
    j: int,
    blocks: int,
) -> T
    decreases blocks,
{
    if blocks <= 0 {
        c
    } else {
        stored(
            block_beta(beta, blocks - 1),
            gemm_entry(a, k, b, beta, c, i, j, blocks - 1),
            block_dot(a, k, b, i, j, blocks - 1),
        )
    }
}

/// The first `m * n` elements of `after` are `beta` times those of `before` plus the product of
/// `a` and `b`, block by block; the elements beyond are the same.
pub open spec fn gemm_output<T: Scalar>(
    before: Seq<T>,
    after: Seq<T>,
    a: Seq<T>,
    m: int,
    k: int,
    b: spec_fn(int, int) -> T,
    n: int,
    beta: T,
) -> bool {
    &&& after.len() == before.len()
    &&& forall|x: int|
        0 <= x < before.len() ==> #[trigger] after[x] == (if x < m * n {
            gemm_entry(a, k, b, beta, before[x], x / n, x % n, k_blocks(k))
        } else {
            before[x]
        })
}

/// The rows from `lo` to `hi` of `after` are those of `before` updated with block `q`; the other
/// rows are the same.
pub(crate) open spec fn rows_updated<T: Scalar>(
    before: Seq<T>,
    after: Seq<T>,
    lo: int,
    hi: int,
    beta: T,
    a: Seq<T>,
    k: int,
    b: spec_fn(int, int) -> T,
    n: int,
    q: int,
) -> bool {
    &&& after.len() == before.len()
    &&& forall|x: int|
        0 <= x < before.len() ==> #[trigger] after[x] == (if lo <= x / n < hi {
            stored(beta, before[x], block_dot(a, k, b, x / n, x % n, q))
        } else {
            before[x]
        })
}

/// Each row `i` of `c` is that of `c0` after the first `done(i)` blocks.
pub(crate) open spec fn rows_at<T: Scalar>(
    c0: Seq<T>,
    c: Seq<T>,
    a: Seq<T>,
    k: int,
    b: spec_fn(int, int) -> T,
    n: int,
    beta: T,
    done: spec_fn(int) -> int,
) -> bool {
    &&& c.len() == c0.len()
    &&& forall|x: int|
        0 <= x < c0.len() ==> #[trigger] c[x] == gemm_entry(
            a,
            k,
            b,
            beta,
            c0[x],
            x / n,
            x % n,
            done(x / n),
        )
}

/// Blocks done per row while `q` blocks are done for the `mb` rows from row `m0` on, all `nblocks`
/// for the rows before and none for those after.
pub(crate) open spec fn blocks_done(m0: int, mb: int, nblocks: int, q: int) -> spec_fn(int) -> int {
    |i: int|
        if i < m0 {
            nblocks
        } else if i < m0 + mb {
            q
        } else {
            0
        }
}

/// Updating rows that were at block `q` brings them to block `q + 1`.
pub(crate) proof fn lemma_rows_step<T: Scalar>(
    c0: Seq<T>,
    c1: Seq<T>,
    c2: Seq<T>,
    a: Seq<T>,
    k: int,
    b: spec_fn(int, int) -> T,
    n: int,
    beta: T,
    before: spec_fn(int) -> int,
    after: spec_fn(int) -> int,
    lo: int,
    hi: int,
    q: int,
)
    requires
        0 <= q,
        rows_at(c0, c1, a, k, b, n, beta, before),
        rows_updated(c1, c2, lo, hi, block_beta(beta, q), a, k, b, n, q),
        forall|i: int| lo <= i < hi ==> #[trigger] before(i) == q,
        forall|i: int|
            #[trigger] after(i) == (if lo <= i < hi {
                q + 1
            } else {
                before(i)
            }),
    ensures
        rows_at(c0, c2, a, k, b, n, beta, after),
{
    assert forall|x: int| 0 <= x < c0.len() implies #[trigger] c2[x] == gemm_entry(
        a,
        k,
        b,
        beta,
        c0[x],
        x / n,
        x % n,
        after(x / n),
    ) by {
        assert(c1[x] == gemm_entry(a, k, b, beta, c0[x], x / n, x % n, before(x / n)));
    }
}

/// Updating neighbouring groups of rows in turn updates both.
pub(crate) proof fn lemma_rows_join<T: Scalar>(
    c0: Seq<T>,
    c1: Seq<T>,
    c2: Seq<T>,
    lo: int,
    mid: int,
    hi: int,
    beta: T,
    a: Seq<T>,
    k: int,
    b: spec_fn(int, int) -> T,
    n: int,
    q: int,
)
    requires
        lo <= mid <= hi,
        rows_updated(c0, c1, lo, mid, beta, a, k, b, n, q),
        rows_updated(c1, c2, mid, hi, beta, a, k, b, n, q),
    ensures
        rows_updated(c0, c2, lo, hi, beta, a, k, b, n, q),
{
    assert forall|x: int| 0 <= x < c0.len() implies #[trigger] c2[x] == (if lo <= x / n < hi {
        stored(beta, c0[x], block_dot(a, k, b, x / n, x % n, q))
    } else {
        c0[x]
    }) by {
        assert(c1[x] == c1[x]);
    }
}

/// Equal counts describe the same output.
pub(crate) proof fn lemma_rows_same<T: Scalar>(
    c0: Seq<T>,
    c: Seq<T>,
    a: Seq<T>,
    k: int,
    b: spec_fn(int, int) -> T,
    n: int,
    beta: T,
    done: spec_fn(int) -> int,
    same: spec_fn(int) -> int,
)
    requires
        rows_at(c0, c, a, k, b, n, beta, done),
        forall|i: int| #[trigger] done(i) == same(i),
    ensures
        rows_at(c0, c, a, k, b, n, beta, same),
{
    assert forall|x: int| 0 <= x < c0.len() implies #[trigger] c[x] == gemm_entry(
        a,
        k,
        b,
        beta,
        c0[x],
        x / n,
        x % n,
        same(x / n),
    ) by {
        assert(done(x / n) == same(x / n));
    }
}

/// Once all blocks are done for all rows, the output is complete.
pub(crate) proof fn lemma_rows_output<T: Scalar>(
    c0: Seq<T>,
    c: Seq<T>,
    a: Seq<T>,
    m: int,
    k: int,
    b: spec_fn(int, int) -> T,
    n: int,
    beta: T,
    done: spec_fn(int) -> int,
)
    requires
        0 <= n,
        c0.len() == m * n,
        rows_at(c0, c, a, k, b, n, beta, done),
        forall|i: int| 0 <= i < m ==> #[trigger] done(i) == k_blocks(k),
    ensures
        gemm_output(c0, c, a, m, k, b, n, beta),
{
    assert forall|x: int| 0 <= x < c0.len() implies #[trigger] c[x] == gemm_entry(
        a,
        k,
        b,
        beta,
        c0[x],
        x / n,
        x % n,
        k_blocks(k),
    ) by {
        lemma_position(x, m, n);
        assert(done(x / n) == k_blocks(k));
    }
}

/// The blocks of columns from `b_off` on hold block `q` of the rows of `b`.
pub(crate) open spec fn strip_holds<T: Scalar, P: Panel<T>>(
    panel: P,
    b_off: int,
    kb: int,
    b: spec_fn(int, int) -> T,
    n: int,
    q: int,
) -> bool {
    forall|p: int, j: int|
        0 <= p < kb && 0 <= j < n ==> panel.spec_at(#[trigger] strip_index(b_off, kb, p, j)) == b(
            q * 512 + p,
            j,
        )
}

/// A packed matrix holds each block of its rows in one stretch, from `k_block_offset` on.
pub(crate) open spec fn k_block_offset(k: int, n: int, q: int) -> int {
    if q * 512 < k && 0 < n {
        packed_addr(k, n, q * 512, 0)
    } else {
        0
    }
}

/// The stretch of block `q` of a packed matrix lies within it and holds the block.
pub(crate) proof fn lemma_strip_holds<T: Scalar, P: Panel<T>>(
    panel: P,
    k: int,
    n: int,
    b: spec_fn(int, int) -> T,
    q: int,
)
    requires
        0 <= k,
        0 <= n,
        0 <= q < k_blocks(k),
        panel.spec_size() == packed_size(k, n),
        forall|p: int, j: int|
            0 <= p < k && 0 <= j < n ==> panel.spec_at(#[trigger] packed_addr(k, n, p, j)) == b(
                p,
                j,
            ),
    ensures
        0 <= k_block_end(k, q) - q * 512 <= 512,
        q * 512 <= k,
        0 <= k_block_offset(k, n, q),
        k_block_offset(k, n, q) + block_count(n, 16) * ((k_block_end(k, q) - q * 512) * 16)
            <= panel.spec_size(),
        strip_holds(panel, k_block_offset(k, n, q), k_block_end(k, q) - q * 512, b, n, q),
{
    let kb = k_block_end(k, q) - q * 512;
    let b_off = k_block_offset(k, n, q);
    if k == 0 {
        assert(block_count(n, 16) * (kb * 16) == 0) by (nonlinear_arith)
            requires
                kb == 0,
        ;
        assert(packed_size(k, n) == 0) by (nonlinear_arith)
            requires
                packed_size(k, n) == 512 * block_count(k, 512) * 16 * block_count(n, 16),
                block_count(k, 512) == 0,
        ;
    } else {
        assert(kb == block_len(k, 512, q));
        lemma_strip_bound(k, n, q);
        if n > 0 {
            lemma_addr_strip(k, n, q, 0, 0);
        } else {
            assert(block_count(n, 16) * (kb * 16) == 0) by (nonlinear_arith)
                requires
                    block_count(n, 16) == 0,
            ;
            assert(q * (block_count(n, 16) * 8192) == 0) by (nonlinear_arith)
                requires
                    block_count(n, 16) == 0,
            ;
        }
        assert forall|p: int, j: int| 0 <= p < kb && 0 <= j < n implies panel.spec_at(
            #[trigger] strip_index(b_off, kb, p, j),
        ) == b(q * 512 + p, j) by {
            lemma_addr_strip(k, n, q, p, j);
            assert(strip_index(b_off, kb, p, j) == packed_addr(k, n, q * 512 + p, j));
        }
    }
}

/// The products of one group of rows in terms of the whole matrices.
pub(crate) proof fn lemma_group_dot<T: Scalar, P: Panel<T>>(
    a: Seq<T>,
    k: int,
    b: spec_fn(int, int) -> T,
    n: int,
    panel: P,
    b_off: int,
    kb: int,
    q: int,
    i: int,
    j: int,
)
    requires
        0 <= j < n,
        0 <= kb,
        q * 512 + kb == k_block_end(k, q),
        strip_holds(panel, b_off, kb, b, n, q),
    ensures
        group_dot(a, k, i, q * 512, panel, b_off, kb, j) == block_dot(a, k, b, i, j, q),
{
    let fa = |p: int| a[i * k + q * 512 + p];
    let fb = |p: int| panel.spec_at(strip_index(b_off, kb, p, j));
    let ga = |p: int| a[i * k + p];
    let gb = |p: int| b(p, j);
    assert forall|p: int| 0 <= p < kb implies #[trigger] fb(p) == gb(p + q * 512) by {
        assert(panel.spec_at(strip_index(b_off, kb, p, j)) == b(q * 512 + p, j));
    }
    lemma_dot_shift(fa, fb, ga, gb, 0, kb, q * 512);
}

} // verus!
