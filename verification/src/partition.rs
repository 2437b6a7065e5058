//! How a block of rows is cut into groups that one kernel call handles.

use vstd::prelude::*;

verus! {

/// Number of rows in one block of rows of the output.
pub const MB_MAX: usize = 120;

/// Largest number of rows that one kernel call handles.
pub const KERNEL_ROWS: usize = 6;

/// Number of kernel calls for `mb` rows.
pub open spec fn kernel_calls(mb: int) -> int {
    (mb + 5) / 6
}

/// The two cycles of kernel calls for `mb` rows, each as rows per call and number of calls: calls
/// are as few as possible and as even as possible, the larger ones first. A cycle of zero rows
/// ends the list.
pub open spec fn partition_cycles(mb: int) -> ((int, int), (int, int)) {
    let calls = kernel_calls(mb);
    let base = mb / calls;
    let extra = mb % calls;
    if extra == 0 {
        ((base, calls), (0, 0))
    } else {
        ((base + 1, extra), (base, calls - extra))
    }
}

/// Both cycles together handle all rows, in calls of one to six rows.
pub proof fn law_partition_is_complete(mb: int)
    requires
        1 <= mb,
    ensures
        ({
            let (first, second) = partition_cycles(mb);
            &&& 1 <= first.0 <= 6
            &&& 1 <= first.1 <= mb
            &&& 0 <= second.0 <= 6
            &&& 0 <= second.1 <= mb
            &&& second.0 == 0 <==> second.1 == 0
            &&& first.0 * first.1 + second.0 * second.1 == mb
        }),
{
    let q = kernel_calls(mb);
    let base = mb / q;
    let extra = mb % q;
    vstd::arithmetic::div_mod::lemma_fundamental_div_mod(mb, q);
    assert(1 <= base && base <= 6 && (extra > 0 ==> base <= 5)) by (nonlinear_arith)
        requires
            mb == q * base + extra,
            0 <= extra < q,
            q <= mb <= 6 * q,
            q >= 1,
    ;
    assert((base + 1) * extra + base * (q - extra) == q * base + extra) by (nonlinear_arith);
    assert(base * q == q * base) by (nonlinear_arith);
}

/// The two cycles of kernel calls for `mb` rows.
pub fn partition_avx2(mb: usize) -> (r: [(usize, usize); 2])
    requires
        1 <= mb <= 120,
    ensures
        r@[0].0 == partition_cycles(mb as int).0.0,
        r@[0].1 == partition_cycles(mb as int).0.1,
        r@[1].0 == partition_cycles(mb as int).1.0,
        r@[1].1 == partition_cycles(mb as int).1.1,
{
    let calls: usize = (mb + KERNEL_ROWS - 1) / KERNEL_ROWS;
    let base: usize = mb / calls;
    let extra: usize = mb % calls;
    if extra == 0 {
        [(base, calls), (0, 0)]
    } else {
        [(base + 1, extra), (base, calls - extra)]
    }
}

/// `count` groups of `nrows` rows each, from row `start` on, as first row and number of rows.
pub open spec fn cycle_groups(start: int, nrows: int, count: int) -> Seq<(int, int)> {
    Seq::new(count as nat, |g: int| (start + g * nrows, nrows))
}

/// The groups of the `mb` rows from row `m0` on.
pub open spec fn block_groups(m0: int, mb: int) -> Seq<(int, int)> {
    let (first, second) = partition_cycles(mb);
    cycle_groups(m0, first.0, first.1) + cycle_groups(
        m0 + first.0 * first.1,
        second.0,
        second.1,
    )
}

/// The groups of the rows from `m0` to `m`, block by block.
pub open spec fn row_groups(m0: int, m: int) -> Seq<(int, int)>
    decreases m - m0,
{
    if m <= m0 {
        Seq::empty()
    } else if m - m0 <= 120 {
        block_groups(m0, m - m0)
    } else {
        block_groups(m0, 120) + row_groups(m0 + 120, m)
    }
}

/// The groups follow each other from row `lo` to row `hi` without gap or overlap, and each has
/// one to six rows.
pub open spec fn groups_tile(groups: Seq<(int, int)>, lo: int, hi: int) -> bool {
    &&& forall|g: int| 0 <= g < groups.len() ==> 1 <= (#[trigger] groups[g]).1 <= 6
    &&& forall|g: int|
        0 <= g < groups.len() ==> (#[trigger] groups[g]).0 == group_start(groups, lo, g)
    &&& group_start(groups, lo, groups.len() as int) == hi
}

/// The row after the first `g` groups.
pub open spec fn group_start(groups: Seq<(int, int)>, lo: int, g: int) -> int {
    if g <= 0 {
        lo
    } else {
        groups[g - 1].0 + groups[g - 1].1
    }
}

/// Groups that tile neighbouring ranges tile both together.
proof fn lemma_tile_join(g1: Seq<(int, int)>, g2: Seq<(int, int)>, lo: int, mid: int, hi: int)
    requires
        groups_tile(g1, lo, mid),
        groups_tile(g2, mid, hi),
    ensures
        groups_tile(g1 + g2, lo, hi),
{
    let s = g1 + g2;
    assert forall|g: int| 0 <= g < s.len() implies (#[trigger] s[g]).0 == group_start(s, lo, g) && 1
        <= s[g].1 <= 6 by {
        if g < g1.len() {
            assert(s[g] == g1[g]);
            if g > 0 {
                assert(s[g - 1] == g1[g - 1]);
            }
        } else {
            assert(s[g] == g2[g - g1.len()]);
            if g > g1.len() {
                assert(s[g - 1] == g2[g - 1 - g1.len()]);
            } else if g > 0 {
                assert(s[g - 1] == g1[g - 1]);
            }
        }
    }
    if g2.len() > 0 {
        assert(s[s.len() - 1] == g2[g2.len() - 1]);
    } else if g1.len() > 0 {
        assert(s[s.len() - 1] == g1[g1.len() - 1]);
    }
}

/// The groups stay within the range that they tile.
pub(crate) proof fn lemma_group_within(groups: Seq<(int, int)>, lo: int, hi: int, g: int)
    requires
        groups_tile(groups, lo, hi),
        0 <= g <= groups.len(),
    ensures
        lo <= group_start(groups, lo, g) <= hi,
{
    lemma_groups_ordered(groups, lo, hi, 0, g);
    lemma_groups_ordered(groups, lo, hi, g, groups.len() as int);
}

/// Later groups start at later rows.
proof fn lemma_groups_ordered(groups: Seq<(int, int)>, lo: int, hi: int, g1: int, g2: int)
    requires
        groups_tile(groups, lo, hi),
        0 <= g1 <= g2 <= groups.len(),
    ensures
        group_start(groups, lo, g1) <= group_start(groups, lo, g2),
    decreases g2 - g1,
{
    if g1 < g2 {
        lemma_groups_ordered(groups, lo, hi, g1, g2 - 1);
        assert(groups[g2 - 1].0 == group_start(groups, lo, g2 - 1));
    }
}

/// The groups of one cycle tile its rows.
proof fn lemma_cycle_tiles(start: int, nrows: int, count: int)
    requires
        0 <= count,
        count > 0 ==> 1 <= nrows <= 6,
    ensures
        groups_tile(cycle_groups(start, nrows, count), start, start + nrows * count),
{
    let s = cycle_groups(start, nrows, count);
    assert forall|g: int| 0 <= g < s.len() implies (#[trigger] s[g]).0 == group_start(
        s,
        start,
        g,
    ) by {
        if g > 0 {
            assert(s[g - 1] == (start + (g - 1) * nrows, nrows));
            assert((g - 1) * nrows + nrows == g * nrows) by (nonlinear_arith);
        }
    }
    if count > 0 {
        assert(s[count - 1] == (start + (count - 1) * nrows, nrows));
        assert((count - 1) * nrows + nrows == nrows * count) by (nonlinear_arith);
    } else {
        assert(nrows * 0 == 0) by (nonlinear_arith);
    }
}

/// The groups of one block of rows tile it.
pub proof fn law_block_groups_tile(m0: int, mb: int)
    requires
        1 <= mb,
    ensures
        groups_tile(block_groups(m0, mb), m0, m0 + mb),
{
    law_partition_is_complete(mb);
    let (first, second) = partition_cycles(mb);
    lemma_cycle_tiles(m0, first.0, first.1);
    lemma_cycle_tiles(m0 + first.0 * first.1, second.0, second.1);
    lemma_tile_join(
        cycle_groups(m0, first.0, first.1),
        cycle_groups(m0 + first.0 * first.1, second.0, second.1),
        m0,
        m0 + first.0 * first.1,
        m0 + mb,
    );
}

/// Every row belongs to exactly one group: the groups of all rows follow each other from the
/// first row to the last.
pub proof fn law_row_groups_tile(m0: int, m: int)
    requires
        0 <= m0 <= m,
    ensures
        groups_tile(row_groups(m0, m), m0, m),
    decreases m - m0,
{
    if m <= m0 {
    } else if m - m0 <= 120 {
        law_block_groups_tile(m0, m - m0);
    } else {
        law_block_groups_tile(m0, 120);
        law_row_groups_tile(m0 + 120, m);
        lemma_tile_join(block_groups(m0, 120), row_groups(m0 + 120, m), m0, m0 + 120, m);
    }
}

/// The groups as integers.
pub open spec fn groups_view(groups: Seq<(usize, usize)>) -> Seq<(int, int)> {
    groups.map_values(|g: (usize, usize)| (g.0 as int, g.1 as int))
}

/// Appends the groups of the `mb` rows from row `m0` on.
pub(crate) fn push_block_groups(m0: usize, mb: usize, groups: &mut Vec<(usize, usize)>)
    requires
        1 <= mb <= 120,
        m0 + mb <= usize::MAX,
    ensures
        groups_view(final(groups)@) == groups_view(old(groups)@) + block_groups(
            m0 as int,
            mb as int,
        ),
{
    let partition = partition_avx2(mb);
    let ghost before = groups_view(groups@);
    let ghost (first, second) = partition_cycles(mb as int);
    proof {
        law_partition_is_complete(mb as int);
    }
    let mut m1: usize = m0;
    let mut cycle: usize = 0;
    while cycle < 2
        invariant_except_break
            cycle <= 2,
            m1 == (if cycle == 0 {
                m0 as int
            } else if cycle == 1 {
                m0 + first.0 * first.1
            } else {
                m0 + mb
            }),
            groups_view(groups@) == before + (if cycle == 0 {
                Seq::empty()
            } else if cycle == 1 {
                cycle_groups(m0 as int, first.0, first.1)
            } else {
                block_groups(m0 as int, mb as int)
            }),
        invariant
            m0 + mb <= usize::MAX,
            1 <= mb <= 120,
            (first, second) == partition_cycles(mb as int),
            partition@[0].0 == first.0,
            partition@[0].1 == first.1,
            partition@[1].0 == second.0,
            partition@[1].1 == second.1,
            1 <= first.0 <= 6,
            0 <= second.0 <= 6,
            second.0 == 0 <==> second.1 == 0,
            first.0 * first.1 + second.0 * second.1 == mb,
        ensures
            groups_view(groups@) == before + block_groups(m0 as int, mb as int),
        decreases 2 - cycle,
    {
        let kernel_nrows: usize = partition[cycle].0;
        let nkernel_nrows: usize = partition[cycle].1;
        if kernel_nrows == 0 {
            proof {
                assert(cycle == 1);
                assert(groups_view(groups@) =~= before + block_groups(m0 as int, mb as int));
            }
            break ;
        }
        let ghost start = m1 as int;
        let ghost mid = groups_view(groups@);
        proof {
            assert(0 <= first.0 * first.1 && 0 <= second.0 * second.1) by (nonlinear_arith)
                requires
                    0 <= first.0,
                    0 <= first.1,
                    0 <= second.0,
                    0 <= second.1,
            ;
            assert(cycle_groups(start, kernel_nrows as int, 0) =~= Seq::empty());
            assert(mid =~= mid + cycle_groups(start, kernel_nrows as int, 0));
            assert(0 * kernel_nrows == 0) by (nonlinear_arith);
        }
        for g in 0..nkernel_nrows
            invariant
                m1 == start + g * kernel_nrows,
                start + kernel_nrows * nkernel_nrows <= usize::MAX,
                0 <= start,
                groups_view(groups@) == mid + cycle_groups(start, kernel_nrows as int, g as int),
        {
            proof {
                assert((g + 1) * kernel_nrows == g * kernel_nrows + kernel_nrows)
                    by (nonlinear_arith);
                assert((g + 1) * kernel_nrows <= kernel_nrows * nkernel_nrows)
                    by (nonlinear_arith)
                    requires
                        g + 1 <= nkernel_nrows,
                        0 <= kernel_nrows,
                ;
            }
            let ghost sofar = groups_view(groups@);
            groups.push((m1, kernel_nrows));
            proof {
                assert(groups_view(groups@) =~= sofar.push((m1 as int, kernel_nrows as int)));
                assert(cycle_groups(start, kernel_nrows as int, g + 1) =~= cycle_groups(
                    start,
                    kernel_nrows as int,
                    g as int,
                ).push((m1 as int, kernel_nrows as int)));
                assert(groups_view(groups@) =~= mid + cycle_groups(
                    start,
                    kernel_nrows as int,
                    g + 1,
                ));
            }
            m1 += kernel_nrows;
        }
        proof {
            assert(nkernel_nrows * kernel_nrows == kernel_nrows * nkernel_nrows)
                by (nonlinear_arith);
            if cycle == 0 {
                assert(groups_view(groups@) =~= before + cycle_groups(
                    m0 as int,
                    first.0,
                    first.1,
                ));
            } else {
                assert(groups_view(groups@) =~= before + block_groups(m0 as int, mb as int));
            }
        }
        cycle += 1;
    }
}

/// Cuts `m` rows into groups, each given as first row and number of rows.
pub fn collect_row_groups(m: usize) -> (groups: Vec<(usize, usize)>)
    ensures
        groups_view(groups@) == row_groups(0, m as int),
{
    let mut tasks: Vec<(usize, usize)> = Vec::new();
    let mut m0: usize = 0;
    assert(groups_view(tasks@) + row_groups(0, m as int) =~= row_groups(0, m as int));
    while m0 < m
        invariant
            m0 <= m,
            groups_view(tasks@) + row_groups(m0 as int, m as int) == row_groups(0, m as int),
        decreases m - m0,
    {
        let mb: usize = if m - m0 < MB_MAX {
            m - m0
        } else {
            MB_MAX
        };
        let ghost before = groups_view(tasks@);
        push_block_groups(m0, mb, &mut tasks);
        proof {
            assert(row_groups(m0 as int, m as int) =~= block_groups(m0 as int, mb as int)
                + row_groups(m0 + mb, m as int));
            assert(groups_view(tasks@) + row_groups(m0 + mb, m as int) =~= before + row_groups(
                m0 as int,
                m as int,
            ));
        }
        m0 += mb;
    }
    assert(groups_view(tasks@) + row_groups(m as int, m as int) =~= groups_view(tasks@));
    tasks
}

} // verus!
