//! One block of rows of a packed matrix, applied to groups of rows of the output.

use crate::arith::{lemma_div_mod_of, lemma_position};
use crate::blocks::{block_count, count_blocks};
use crate::kernels::{stored, Panel};
use crate::layout::DEFAULT_BROW;
use crate::parallel::par_map;
use crate::partition::{group_start, groups_tile, groups_view, lemma_group_within};
use crate::product::{
    block_dot, k_block_end, k_blocks, lemma_group_dot, lemma_rows_join, rows_updated, strip_holds,
};
use crate::row_group::{group_updated, process_row_group};
use crate::scalar::Scalar;
use vstd::prelude::*;

verus! {

/// Updating the rows of a group, which start at row `m2`, updates these rows of the whole output.
proof fn lemma_group_rows<T: Scalar, P: Panel<T>>(
    c0: Seq<T>,
    c1: Seq<T>,
    part0: Seq<T>,
    part1: Seq<T>,
    m2: int,
    nrows: int,
    kb: int,
    m: int,
    beta: T,
    a: Seq<T>,
    k: int,
    n: int,
    panel: P,
    b_off: int,
    b: spec_fn(int, int) -> T,
    q: int,
)
    requires
        0 <= m2,
        0 <= n,
        0 <= kb,
        c0.len() == m * n,
        c1.len() == m * n,
        m2 * n + part0.len() <= m * n,
        nrows * n <= part0.len(),
        group_updated(part0, part1, m2, nrows, q * 512, kb, beta, a, k, n, panel, b_off),
        part0 == c0.subrange(m2 * n, m2 * n + part0.len()),
        forall|x: int|
            0 <= x < c0.len() ==> #[trigger] c1[x] == (if m2 * n <= x < m2 * n + part0.len() {
                part1[x - m2 * n]
            } else {
                c0[x]
            }),
        q * 512 + kb == k_block_end(k, q),
        strip_holds(panel, b_off, kb, b, n, q),
    ensures
        rows_updated(c0, c1, m2, m2 + nrows, beta, a, k, b, n, q),
{
    assert forall|x: int| 0 <= x < c0.len() implies #[trigger] c1[x] == (if m2 <= x / n < m2
        + nrows {
        stored(beta, c0[x], block_dot(a, k, b, x / n, x % n, q))
    } else {
        c0[x]
    }) by {
        lemma_position(x, m, n);
        let i = x / n;
        let j = x % n;
        let y = x - m2 * n;
        assert(y == (i - m2) * n + j) by (nonlinear_arith)
            requires
                x == i * n + j,
                y == x - m2 * n,
        ;
        assert((y < 0 <==> i < m2) && (y < nrows * n <==> i < m2 + nrows)) by (nonlinear_arith)
            requires
                y == (i - m2) * n + j,
                0 <= j < n,
        ;
        if 0 <= y < part0.len() {
            assert(part0[y] == c0[x]);
            lemma_div_mod_of(i - m2, j, n);
            lemma_group_dot(a, k, b, n, panel, b_off, kb, q, i, j);
        }
    }
}

/// Runs the kernels of block `q` for one group of rows of the output.
fn step_group<T: Scalar, P: Panel<T>>(
    m2: usize,
    nrows: usize,
    Ghost(q): Ghost<int>,
    k_ind: usize,
    kb: usize,
    m: usize,
    beta: T,
    a: &[T],
    k: usize,
    n: usize,
    panel: &P,
    b_off: usize,
    c: &mut [T],
    Ghost(b): Ghost<spec_fn(int, int) -> T>,
)
    requires
        1 <= nrows <= 6,
        0 <= q,
        k_ind == q * 512,
        kb <= 512,
        k_ind + kb == k_block_end(k as int, q),
        m2 + nrows <= m,
        m * k <= a@.len(),
        old(c)@.len() == m * n,
        b_off + block_count(n as int, 16) * (kb * 16) <= panel.spec_size() <= usize::MAX,
        strip_holds(*panel, b_off as int, kb as int, b, n as int, q),
    ensures
        rows_updated(
            old(c)@,
            final(c)@,
            m2 as int,
            m2 + nrows,
            beta,
            a@,
            k as int,
            b,
            n as int,
            q,
        ),
{
    let ghost c0 = c@;
    proof {
        assert((m2 + nrows) * n <= m * n) by (nonlinear_arith)
            requires
                m2 + nrows <= m,
                0 <= n,
        ;
        assert((m2 + nrows) * n == m2 * n + nrows * n) by (nonlinear_arith);
        assert(0 <= m2 * n && 0 <= nrows * n) by (nonlinear_arith)
            requires
                0 <= m2,
                0 <= nrows,
                0 <= n,
        ;
        assert(c.len() == c0.len());
    }
    let off: usize = m2 * n;
    let (_, tail) = c.split_at_mut(off);
    let ghost tail0 = tail@;
    process_row_group(m2, nrows, k_ind, kb, m, beta, a, k, n, panel, b_off, tail);
    let ghost tail1 = tail@;
    proof {
        lemma_group_rows(
            c0,
            c@,
            tail0,
            tail1,
            m2 as int,
            nrows as int,
            kb as int,
            m as int,
            beta,
            a@,
            k as int,
            n as int,
            *panel,
            b_off as int,
            b,
            q,
        );
    }
}

/// Runs the kernels of block `q` for all `groups`, which tile the rows from `lo` to `hi`.
pub(crate) fn run_groups<T: Scalar, P: Panel<T>>(
    groups: &Vec<(usize, usize)>,
    Ghost(lo): Ghost<int>,
    Ghost(hi): Ghost<int>,
    Ghost(q): Ghost<int>,
    k_ind: usize,
    kb: usize,
    m: usize,
    beta: T,
    a: &[T],
    k: usize,
    n: usize,
    panel: &P,
    b_off: usize,
    c: &mut [T],
    Ghost(b): Ghost<spec_fn(int, int) -> T>,
)
    requires
        groups_tile(groups_view(groups@), lo, hi),
        0 <= lo,
        hi <= m,
        0 <= q,
        k_ind == q * 512,
        kb <= 512,
        k_ind + kb == k_block_end(k as int, q),
        m * k <= a@.len(),
        old(c)@.len() == m * n,
        b_off + block_count(n as int, 16) * (kb * 16) <= panel.spec_size() <= usize::MAX,
        strip_holds(*panel, b_off as int, kb as int, b, n as int, q),
    ensures
        rows_updated(old(c)@, final(c)@, lo, hi, beta, a@, k as int, b, n as int, q),
{
    let ghost c0 = c@;
    let ghost gv = groups_view(groups@);
    for g in 0..groups.len()
        invariant
            gv == groups_view(groups@),
            groups_tile(gv, lo, hi),
            0 <= lo,
            hi <= m,
            0 <= q,
            k_ind == q * 512,
            kb <= 512,
            k_ind + kb == k_block_end(k as int, q),
            m * k <= a@.len(),
            c@.len() == m * n,
            b_off + block_count(n as int, 16) * (kb * 16) <= panel.spec_size() <= usize::MAX,
            strip_holds(*panel, b_off as int, kb as int, b, n as int, q),
            rows_updated(
                c0,
                c@,
                lo,
                group_start(gv, lo, g as int),
                beta,
                a@,
                k as int,
                b,
                n as int,
                q,
            ),
    {
        let (m2, nrows) = groups[g];
        let ghost c1 = c@;
        proof {
            assert(gv[g as int] == (m2 as int, nrows as int));
            lemma_group_within(gv, lo, hi, g as int);
            lemma_group_within(gv, lo, hi, g + 1);
        }
        step_group(
            m2,
            nrows,
            Ghost(q),
            k_ind,
            kb,
            m,
            beta,
            a,
            k,
            n,
            panel,
            b_off,
            c,
            Ghost(b),
        );
        proof {
            lemma_rows_join(
                c0,
                c1,
                c@,
                lo,
                m2 as int,
                m2 + nrows,
                beta,
                a@,
                k as int,
                b,
                n as int,
                q,
            );
        }
    }
}

/// The rows of one group, as they are in `c`, updated with block `q`.
fn group_after<T: Scalar, P: Panel<T>>(
    group: (usize, usize),
    k_ind: usize,
    kb: usize,
    m: usize,
    beta: T,
    a: &[T],
    k: usize,
    n: usize,
    panel: &P,
    b_off: usize,
    c: &[T],
) -> (rows: Vec<T>)
    requires
        1 <= group.1 <= 6,
        kb <= 512,
        group.0 + group.1 <= m,
        m * k <= a@.len(),
        k_ind + kb <= k,
        b_off + block_count(n as int, 16) * (kb * 16) <= panel.spec_size() <= usize::MAX,
        c@.len() == m * n,
    ensures
        group_updated(
            c@.subrange(group.0 * n, (group.0 + group.1) * n),
            rows@,
            group.0 as int,
            group.1 as int,
            k_ind as int,
            kb as int,
            beta,
            a@,
            k as int,
            n as int,
            *panel,
            b_off as int,
        ),
{
    let (m2, nrows) = group;
    proof {
        lemma_group_range(m2 as int, nrows as int, m as int, n as int);
        assert(c.len() == c@.len());
    }
    let lo: usize = m2 * n;
    let hi: usize = (m2 + nrows) * n;
    let mut rows: Vec<T> = Vec::with_capacity(hi - lo);
    for x in lo..hi
        invariant
            hi <= c@.len(),
            rows@ == c@.subrange(lo as int, x as int),
    {
        rows.push(c[x]);
        assert(rows@ =~= c@.subrange(lo as int, x + 1));
    }
    process_row_group(m2, nrows, k_ind, kb, m, beta, a, k, n, panel, b_off, &mut rows);
    rows
}

/// The rows of a group lie within the output.
proof fn lemma_group_range(m2: int, nrows: int, m: int, n: int)
    requires
        0 <= m2,
        0 <= nrows,
        m2 + nrows <= m,
        0 <= n,
    ensures
        0 <= m2 * n <= (m2 + nrows) * n <= m * n,
        (m2 + nrows) * n == m2 * n + nrows * n,
{
    assert(0 <= m2 * n && m2 * n <= (m2 + nrows) * n && (m2 + nrows) * n <= m * n && (m2 + nrows)
        * n == m2 * n + nrows * n) by (nonlinear_arith)
        requires
            0 <= m2,
            0 <= nrows,
            m2 + nrows <= m,
            0 <= n,
    ;
}

/// Writes `rows` into `c` from position `off` on.
fn write_rows<T: Copy>(rows: &Vec<T>, off: usize, c: &mut [T])
    requires
        off + rows@.len() <= old(c)@.len(),
    ensures
        final(c)@.len() == old(c)@.len(),
        forall|x: int|
            0 <= x < old(c)@.len() ==> #[trigger] final(c)@[x] == (if off <= x < off
                + rows@.len() {
                rows@[x - off]
            } else {
                old(c)@[x]
            }),
{
    let ghost c0 = c@;
    for y in 0..rows.len()
        invariant
            off + rows.len() <= c.len(),
            c@.len() == c0.len(),
            forall|x: int|
                0 <= x < c0.len() ==> #[trigger] c@[x] == (if off <= x < off + y {
                    rows@[x - off]
                } else {
                    c0[x]
                }),
    {
        c[off + y] = rows[y];
    }
}

/// The rows of all groups, as they are in `c`, updated with block `q` on the threads of the pool.
fn groups_after<T: Scalar, P: Panel<T> + Sync>(
    groups: &Vec<(usize, usize)>,
    Ghost(lo): Ghost<int>,
    Ghost(hi): Ghost<int>,
    k_ind: usize,
    kb: usize,
    m: usize,
    beta: T,
    a: &[T],
    k: usize,
    n: usize,
    panel: &P,
    b_off: usize,
    c: &[T],
) -> (parts: Vec<Vec<T>>)
    requires
        groups_tile(groups_view(groups@), lo, hi),
        0 <= lo,
        hi <= m,
        kb <= 512,
        m * k <= a@.len(),
        k_ind + kb <= k,
        b_off + block_count(n as int, 16) * (kb * 16) <= panel.spec_size() <= usize::MAX,
        c@.len() == m * n,
    ensures
        parts@.len() == groups@.len(),
        forall|g: int|
            0 <= g < groups@.len() ==> group_updated(
                c@.subrange(groups@[g].0 * n, (groups@[g].0 + groups@[g].1) * n),
                (#[trigger] parts@[g])@,
                groups@[g].0 as int,
                groups@[g].1 as int,
                k_ind as int,
                kb as int,
                beta,
                a@,
                k as int,
                n as int,
                *panel,
                b_off as int,
            ),
{
    let f = |group: &(usize, usize)| -> (rows: Vec<T>)
        requires
            1 <= group.1 <= 6,
            group.0 + group.1 <= m,
        ensures
            group_updated(
                c@.subrange(group.0 * n, (group.0 + group.1) * n),
                rows@,
                group.0 as int,
                group.1 as int,
                k_ind as int,
                kb as int,
                beta,
                a@,
                k as int,
                n as int,
                *panel,
                b_off as int,
            ),
        { group_after(*group, k_ind, kb, m, beta, a, k, n, panel, b_off, c) };
    proof {
        let gv = groups_view(groups@);
        assert forall|g: int| 0 <= g < groups@.len() implies call_requires(
            f,
            (&#[trigger] groups@[g],),
        ) by {
            assert(gv[g] == (groups@[g].0 as int, groups@[g].1 as int));
            lemma_group_within(gv, lo, hi, g);
            lemma_group_within(gv, lo, hi, g + 1);
        }
    }
    par_map(groups, f)
}

/// Runs the kernels of block `q` for all `groups`, which tile the rows from `lo` to `hi`, on the
/// threads of the pool.
pub(crate) fn run_groups_par<T: Scalar, P: Panel<T> + Sync>(
    groups: &Vec<(usize, usize)>,
    Ghost(lo): Ghost<int>,
    Ghost(hi): Ghost<int>,
    Ghost(q): Ghost<int>,
    k_ind: usize,
    kb: usize,
    m: usize,
    beta: T,
    a: &[T],
    k: usize,
    n: usize,
    panel: &P,
    b_off: usize,
    c: &mut [T],
    Ghost(b): Ghost<spec_fn(int, int) -> T>,
)
    requires
        groups_tile(groups_view(groups@), lo, hi),
        0 <= lo,
        hi <= m,
        0 <= q,
        k_ind == q * 512,
        kb <= 512,
        k_ind + kb == k_block_end(k as int, q),
        m * k <= a@.len(),
        old(c)@.len() == m * n,
        b_off + block_count(n as int, 16) * (kb * 16) <= panel.spec_size() <= usize::MAX,
        strip_holds(*panel, b_off as int, kb as int, b, n as int, q),
    ensures
        rows_updated(old(c)@, final(c)@, lo, hi, beta, a@, k as int, b, n as int, q),
{
    let ghost c0 = c@;
    let ghost gv = groups_view(groups@);
    let parts = groups_after(
        groups,
        Ghost(lo),
        Ghost(hi),
        k_ind,
        kb,
        m,
        beta,
        a,
        k,
        n,
        panel,
        b_off,
        c,
    );
    for g in 0..groups.len()
        invariant
            gv == groups_view(groups@),
            groups_tile(gv, lo, hi),
            0 <= lo,
            hi <= m,
            0 <= q,
            k_ind == q * 512,
            k_ind + kb == k_block_end(k as int, q),
            c0.len() == m * n,
            c@.len() == m * n,
            strip_holds(*panel, b_off as int, kb as int, b, n as int, q),
            parts@.len() == groups@.len(),
            forall|g: int|
                0 <= g < groups@.len() ==> group_updated(
                    c0.subrange(groups@[g].0 * n, (groups@[g].0 + groups@[g].1) * n),
                    (#[trigger] parts@[g])@,
                    groups@[g].0 as int,
                    groups@[g].1 as int,
                    k_ind as int,
                    kb as int,
                    beta,
                    a@,
                    k as int,
                    n as int,
                    *panel,
                    b_off as int,
                ),
            rows_updated(
                c0,
                c@,
                lo,
                group_start(gv, lo, g as int),
                beta,
                a@,
                k as int,
                b,
                n as int,
                q,
            ),
    {
        let (m2, nrows) = groups[g];
        let ghost c1 = c@;
        let ghost part0 = c1.subrange(m2 * n, (m2 + nrows) * n);
        proof {
            assert(gv[g as int] == (m2 as int, nrows as int));
            lemma_group_within(gv, lo, hi, g as int);
            lemma_group_within(gv, lo, hi, g + 1);
            lemma_group_range(m2 as int, nrows as int, m as int, n as int);
            assert(c.len() == c@.len());
            assert(part0 =~= c0.subrange(m2 * n, (m2 + nrows) * n)) by {
                assert forall|y: int| 0 <= y < part0.len() implies part0[y] == c0[m2 * n + y] by {
                    let x = m2 * n + y;
                    lemma_position(x, m as int, n as int);
                    assert(x / (n as int) >= m2) by (nonlinear_arith)
                        requires
                            x == (x / (n as int)) * n + x % (n as int),
                            x % (n as int) < n,
                            x >= m2 * n,
                    ;
                    assert(c1[x] == c0[x]);
                }
            }
            assert(group_updated(
                part0,
                parts@[g as int]@,
                m2 as int,
                nrows as int,
                k_ind as int,
                kb as int,
                beta,
                a@,
                k as int,
                n as int,
                *panel,
                b_off as int,
            ));
        }
        write_rows(&parts[g], m2 * n, c);
        proof {
            lemma_group_rows(
                c1,
                c@,
                part0,
                parts@[g as int]@,
                m2 as int,
                nrows as int,
                kb as int,
                m as int,
                beta,
                a@,
                k as int,
                n as int,
                *panel,
                b_off as int,
                b,
                q,
            );
            lemma_rows_join(
                c0,
                c1,
                c@,
                lo,
                m2 as int,
                m2 + nrows,
                beta,
                a@,
                k as int,
                b,
                n as int,
                q,
            );
        }
    }
}

/// The number of blocks of rows that a multiplication goes through.
pub(crate) fn count_k_blocks(k: usize) -> (r: usize)
    ensures
        r == k_blocks(k as int),
        r >= 1,
{
    if k == 0 {
        1
    } else {
        count_blocks(k, DEFAULT_BROW)
    }
}

/// The first row and the number of rows of block `q` out of `k` rows.
pub(crate) fn k_block_range(k: usize, q: usize) -> (r: (usize, usize))
    requires
        q < k_blocks(k as int),
    ensures
        r.0 == q * 512,
        r.1 <= 512,
        r.0 + r.1 == k_block_end(k as int, q as int),
        r.0 + r.1 <= k,
{
    let k_ind: usize = q * DEFAULT_BROW;
    let kb: usize = if k - k_ind < DEFAULT_BROW {
        k - k_ind
    } else {
        DEFAULT_BROW
    };
    (k_ind, kb)
}

} // verus!
