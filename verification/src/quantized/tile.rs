//! One tile of the integer product: the row-interleaved layout of a packed weight tile, the
//! two ways a kernel multiplies a row of activations with a column of it, and the loop that
//! adds a block of such products to an output matrix.

use crate::arith::{lemma_wrap_add, lemma_wrap_small, lemma_wrapping_ops, sum_range, wrap32};
use vstd::prelude::*;

verus! {

/// Number of K elements in one K block, and the row stride of a packed activation tile.
pub const KCB: usize = 512;

/// Number of columns in one packed weight tile.
pub const NR: usize = 8;

/// Number of consecutive K elements of a column that a packed tile stores side by side.
pub const ROW_INTERLEAVE: usize = 4;

/// Largest number of rows that one kernel call handles.
pub const MR: usize = 12;

/// Number of rows in one M block.
pub const MCB: usize = 120;

/// Position of element `p` of column `j` inside a packed tile: groups of `ROW_INTERLEAVE`
/// elements of each of the `NR` columns in turn.
pub open spec fn tile_index(p: int, j: int) -> int {
    (p / 4) * 32 + j * 4 + p % 4
}

/// The exact product of `kc` activations from `a0` on with column `j` of the tile `b`.
pub open spec fn dot_unsigned(a: Seq<u8>, a0: int, b: Seq<i8>, j: int, kc: int) -> int {
    sum_range(|p: int| a[a0 + p] * b[tile_index(p, j)], 0, kc)
}

/// The same product with each activation read as a signed byte after its top bit is flipped,
/// that is, lowered by 128.
pub open spec fn dot_signed(a: Seq<u8>, a0: int, b: Seq<i8>, j: int, kc: int) -> int {
    sum_range(|p: int| (a[a0 + p] - 128) * b[tile_index(p, j)], 0, kc)
}

/// What row `i` of a block of `cols` columns with row stride `ldc` adds to position `x` of the
/// output, where `acc(i, j)` is the product for row `i` and column `j`.
pub open spec fn row_term(
    acc: spec_fn(int, int) -> int,
    cols: int,
    ldc: int,
    x: int,
    i: int,
) -> int {
    if i * ldc <= x < i * ldc + cols {
        acc(i, x - i * ldc)
    } else {
        0
    }
}

/// What the first `rows` rows of such a block add to position `x` of the output.
pub open spec fn block_terms(
    acc: spec_fn(int, int) -> int,
    rows: int,
    cols: int,
    ldc: int,
    x: int,
) -> int {
    sum_range(|i: int| row_term(acc, cols, ldc, x, i), 0, rows)
}

/// The output `after` is `before` with a block of products added in 32-bit arithmetic.
pub open spec fn block_added(
    before: Seq<i32>,
    after: Seq<i32>,
    acc: spec_fn(int, int) -> int,
    rows: int,
    cols: int,
    ldc: int,
) -> bool {
    &&& after.len() == before.len()
    &&& forall|x: int|
        0 <= x < before.len() ==> #[trigger] after[x] == wrap32(
            before[x] + block_terms(acc, rows, cols, ldc, x),
        )
}

/// Positions within one group of interleaved elements.
proof fn lemma_tile_index_group(g: int, r: int, j: int)
    requires
        0 <= r < 4,
        0 <= g,
    ensures
        tile_index(4 * g + r, j) == g * 32 + j * 4 + r,
{
}

/// The 32-bit product of an activation and a weight.
fn product(x: u8, y: i8) -> (r: i32)
    ensures
        r == x * y,
        -32640 <= r <= 32385,
{
    assert(-32640 <= x * y <= 32385) by (nonlinear_arith)
        requires
            0 <= x <= 255,
            -128 <= y <= 127,
    ;
    x as i32 * y as i32
}

/// Product of a row of activations with one tile column, four elements at a time, with exact
/// four-element sums and a wrapping 32-bit accumulator.
fn dot4(a: &[u8], a0: usize, b: &[i8], j: usize, kc: usize) -> (r: i32)
    requires
        kc % 4 == 0,
        a0 + kc <= a@.len(),
        j < 8,
        kc * 8 <= b@.len(),
    ensures
        r == wrap32(dot_unsigned(a@, a0 as int, b@, j as int, kc as int)),
{
    let mut acc: i32 = 0;
    let ghost f = |p: int| a@[a0 + p] * b@[tile_index(p, j as int)];
    for g in 0..kc / 4
        invariant
            kc % 4 == 0,
            a0 + kc <= a.len(),
            j < 8,
            kc * 8 <= b.len(),
            f == (|p: int| a@[a0 + p] * b@[tile_index(p, j as int)]),
            acc == wrap32(sum_range(f, 0, 4 * g)),
    {
        let p: usize = g * 4;
        let o: usize = g * 32 + j * 4;
        let s: i32 = product(a[a0 + p], b[o]) + product(a[a0 + p + 1], b[o + 1]) + product(
            a[a0 + p + 2],
            b[o + 2],
        ) + product(a[a0 + p + 3], b[o + 3]);
        proof {
            reveal_with_fuel(sum_range, 5);
            lemma_tile_index_group(g as int, 0, j as int);
            lemma_tile_index_group(g as int, 1, j as int);
            lemma_tile_index_group(g as int, 2, j as int);
            lemma_tile_index_group(g as int, 3, j as int);
            assert(sum_range(f, 0, 4 * g + 4) == sum_range(f, 0, 4 * g) + s);
            lemma_wrapping_ops(acc, s);
            lemma_wrap_add(sum_range(f, 0, 4 * g), s as int);
        }
        acc = acc.wrapping_add(s);
    }
    acc
}

/// Adds the products of `mc` rows of a packed activation tile (row stride `KCB`) with the `NR`
/// columns of a weight tile to the output matrix.
pub(crate) fn add_simd_tile(
    mc: usize,
    a: &[u8],
    b: &[i8],
    c: &mut [i32],
    kc: usize,
    ldc: usize,
)
    requires
        kc % 4 == 0,
        mc >= 1,
        (mc - 1) * KCB + kc <= a@.len(),
        kc * NR <= b@.len(),
        (mc - 1) * ldc + NR <= old(c)@.len(),
    ensures
        block_added(
            old(c)@,
            final(c)@,
            |i: int, j: int| dot_unsigned(a@, i * KCB, b@, j, kc as int),
            mc as int,
            NR as int,
            ldc as int,
        ),
{
    let ghost c0 = c@;
    let ghost acc = |i: int, j: int| dot_unsigned(a@, i * KCB, b@, j, kc as int);
    proof {
        assert forall|x: int| 0 <= x < c0.len() implies #[trigger] c@[x] == wrap32(
            c0[x] + block_terms(acc, 0, 8, ldc as int, x),
        ) by {
            lemma_wrap_small(c0[x] as int);
        }
    }
    for row in 0..mc
        invariant
            kc % 4 == 0,
            mc >= 1,
            (mc - 1) * KCB + kc <= a@.len(),
            kc * NR <= b@.len(),
            (mc - 1) * ldc + NR <= c0.len(),
            acc == (|i: int, j: int| dot_unsigned(a@, i * KCB, b@, j, kc as int)),
            c@.len() == c0.len(),
            block_added(c0, c@, acc, row as int, 8, ldc as int),
    {
        let ghost c1 = c@;
        assert(row * ldc <= (mc - 1) * ldc) by (nonlinear_arith)
            requires
                row <= mc - 1,
        ;
        for j in 0..NR
            invariant
                kc % 4 == 0,
                row < mc,
                (mc - 1) * KCB + kc <= a.len(),
                kc * NR <= b.len(),
                row * ldc + NR <= c.len(),
                c1.len() == c0.len(),
                c@.len() == c0.len(),
                acc == (|i: int, j: int| dot_unsigned(a@, i * KCB, b@, j, kc as int)),
                forall|x: int|
                    0 <= x < c0.len() ==> #[trigger] c@[x] == (if row * ldc <= x < row * ldc + j {
                        wrap32(c1[x] + acc(row as int, x - row * ldc))
                    } else {
                        c1[x]
                    }),
        {
            let s: i32 = dot4(a, row * KCB, b, j, kc);
            let x: usize = row * ldc + j;
            proof {
                let d = acc(row as int, j as int);
                assert(d == dot_unsigned(a@, row * KCB, b@, j as int, kc as int));
                assert(s == wrap32(d));
                lemma_wrapping_ops(c@[x as int], s);
                lemma_wrap_add(d, c@[x as int] as int);
            }
            let v: i32 = c[x].wrapping_add(s);
            c[x] = v;
        }
        proof {
            assert forall|x: int| 0 <= x < c0.len() implies #[trigger] c@[x] == wrap32(
                c0[x] + block_terms(acc, row + 1, 8, ldc as int, x),
            ) by {
                let t = block_terms(acc, row as int, 8, ldc as int, x);
                assert(c1[x] == wrap32(c0[x] + t));
                lemma_wrap_add(c0[x] + t, row_term(acc, 8, ldc as int, x, row as int));
                lemma_wrap_small(c1[x] as int);
            }
        }
    }
}

} // verus!
