//! Blocked integer matrix multiplication.

use crate::arith::{
    lemma_sum_eq, lemma_sum_shift, lemma_sum_single, lemma_sum_split, lemma_sum_zero,
    lemma_wrap_add, lemma_wrap_small, sum_range, wrap32,
};
use crate::blocks::{block_count, block_len};
use crate::quantized::avx2;
use crate::quantized::avx512_vnni;
use crate::quantized::pack::{interleaved, PackedBMatrixI8};
use crate::quantized::reference::{ref_i8i8_kernel, ref_u8i8_kernel};
use crate::quantized::tile::{
    block_added, block_terms, dot_signed, dot_unsigned, row_term, tile_index, KCB, MR, NR,
    ROW_INTERLEAVE,
};
use vstd::prelude::*;

verus! {

/// The SIMD capabilities of the machine, by target architecture.
#[derive(Clone, Copy)]
pub enum SimdFlags {
    X86 { avx512_vnni: bool, avx2: bool },
    Aarch64 { neon_dotprod: bool },
    Other,
}

/// How a kernel multiplies activations with weights.
pub enum ProductKind {
    /// With activations as they are.
    Unsigned,
    /// With activations lowered by 128.
    Signed,
}

impl SimdFlags {
    /// Whether any SIMD kernel can be used.
    pub open spec fn spec_use_simd(self) -> bool {
        match self {
            SimdFlags::X86 { avx512_vnni, avx2 } => avx512_vnni || avx2,
            SimdFlags::Aarch64 { neon_dotprod } => neon_dotprod,
            SimdFlags::Other => false,
        }
    }

    /// How products are formed: lowered by 128 where the machine multiplies signed bytes.
    pub open spec fn kind(self) -> ProductKind {
        match self {
            SimdFlags::Aarch64 { neon_dotprod: true } => ProductKind::Signed,
            _ => ProductKind::Unsigned,
        }
    }

    /// The zero point to subtract: 128 lower where activations are read lowered by 128.
    pub open spec fn spec_effective_zp(self, a_zero_point: int) -> int {
        match self {
            SimdFlags::Aarch64 { neon_dotprod: true } => a_zero_point - 128,
            _ => a_zero_point,
        }
    }

    /// Whether any SIMD kernel can be used.
    pub fn use_simd(&self) -> (r: bool)
        ensures
            r == self.spec_use_simd(),
    {
        match self {
            SimdFlags::X86 { avx512_vnni, avx2 } => *avx512_vnni || *avx2,
            SimdFlags::Aarch64 { neon_dotprod } => *neon_dotprod,
            SimdFlags::Other => false,
        }
    }

    /// The zero point to subtract, in 32-bit arithmetic.
    pub fn effective_zp(&self, a_zero_point: i32) -> (r: i32)
        ensures
            r == wrap32(self.spec_effective_zp(a_zero_point as int)),
    {
        proof {
            crate::arith::lemma_wrapping_ops(a_zero_point, 128);
            lemma_wrap_small(a_zero_point as int);
        }
        match self {
            SimdFlags::Aarch64 { neon_dotprod } => if *neon_dotprod {
                a_zero_point.wrapping_sub(128)
            } else {
                a_zero_point
            },
            _ => a_zero_point,
        }
    }
}

/// What the elements `lo <= p < hi` of row `i` and column `j` add to the accumulator.
pub open spec fn product_sum(
    kind: ProductKind,
    a: Seq<u8>,
    b: &PackedBMatrixI8,
    i: int,
    j: int,
    lo: int,
    hi: int,
) -> int {
    match kind {
        ProductKind::Unsigned => sum_range(
            |p: int| a[i * b.spec_k() + p] * b.weight(p, j),
            lo,
            hi,
        ),
        ProductKind::Signed => sum_range(
            |p: int| (a[i * b.spec_k() + p] - 128) * b.weight(p, j),
            lo,
            hi,
        ),
    }
}

/// Where a buffer with row stride `ld` places the element in row `row0` and column `col0` of the
/// product first.
#[derive(Clone, Copy)]
pub struct OutputView {
    pub row0: usize,
    pub col0: usize,
    pub ld: usize,
}

/// Whether position `x` of a buffer lies in the given rows and columns of the product.
pub open spec fn in_area(
    v: OutputView,
    row_lo: int,
    row_hi: int,
    col_lo: int,
    col_hi: int,
    x: int,
) -> bool {
    &&& v.ld > 0
    &&& row_lo <= v.row0 + x / (v.ld as int) < row_hi
    &&& col_lo <= v.col0 + x % (v.ld as int) < col_hi
}

/// What the elements `lo <= p < hi` add to position `x` of a buffer.
pub open spec fn position_sum(
    flags: SimdFlags,
    a: Seq<u8>,
    b: &PackedBMatrixI8,
    v: OutputView,
    lo: int,
    hi: int,
    x: int,
) -> int {
    let j = v.col0 + x % (v.ld as int);
    product_sum(flags.kind(), a, b, v.row0 + x / (v.ld as int), j, lo, hi)
}

/// The buffer `after` is `before` with the products over `lo <= p < hi` added to the given rows
/// and columns in 32-bit arithmetic.
pub open spec fn area_added(
    before: Seq<i32>,
    after: Seq<i32>,
    flags: SimdFlags,
    a: Seq<u8>,
    b: &PackedBMatrixI8,
    v: OutputView,
    row_lo: int,
    row_hi: int,
    col_lo: int,
    col_hi: int,
    lo: int,
    hi: int,
) -> bool {
    &&& after.len() == before.len()
    &&& area_values(before, after, flags, a, b, v, row_lo, row_hi, col_lo, col_hi, lo, hi)
}

/// The elements of such a buffer.
#[verifier::opaque]
pub open spec fn area_values(
    before: Seq<i32>,
    after: Seq<i32>,
    flags: SimdFlags,
    a: Seq<u8>,
    b: &PackedBMatrixI8,
    v: OutputView,
    row_lo: int,
    row_hi: int,
    col_lo: int,
    col_hi: int,
    lo: int,
    hi: int,
) -> bool {
    forall|x: int|
        0 <= x < before.len() ==> #[trigger] after[x] == (if in_area(
            v,
            row_lo,
            row_hi,
            col_lo,
            col_hi,
            x,
        ) {
            wrap32(before[x] + position_sum(flags, a, b, v, lo, hi, x))
        } else {
            before[x]
        })
}

/// Adding products to no rows, or to no columns, changes nothing.
pub(crate) proof fn lemma_no_area(
    c: Seq<i32>,
    flags: SimdFlags,
    a: Seq<u8>,
    b: &PackedBMatrixI8,
    v: OutputView,
    row_lo: int,
    row_hi: int,
    col_lo: int,
    col_hi: int,
    lo: int,
    hi: int,
)
    requires
        row_hi <= row_lo || col_hi <= col_lo,
    ensures
        area_added(c, c, flags, a, b, v, row_lo, row_hi, col_lo, col_hi, lo, hi),
{
    reveal(area_values);
}

/// What a block of `rows` rows and `cols` columns that starts at row `r0` and column `j0` of a
/// buffer adds to position `x`.
proof fn lemma_block_terms_at(
    acc: spec_fn(int, int) -> int,
    rows: int,
    cols: int,
    ld: int,
    r0: int,
    j0: int,
    x: int,
)
    requires
        0 <= rows,
        0 < cols,
        0 <= r0,
        0 <= j0,
        j0 + cols <= ld,
        r0 * ld + j0 <= x,
    ensures
        block_terms(acc, rows, cols, ld, x - (r0 * ld + j0)) == (if r0 <= x / ld < r0 + rows && j0
            <= x % ld < j0 + cols {
            acc(x / ld - r0, x % ld - j0)
        } else {
            0
        }),
{
    let q = x / ld;
    let m = x % ld;
    let y = x - (r0 * ld + j0);
    vstd::arithmetic::div_mod::lemma_fundamental_div_mod(x, ld);
    assert(y == (q - r0) * ld + (m - j0)) by (nonlinear_arith)
        requires
            x == ld * q + m,
            y == x - (r0 * ld + j0),
    ;
    let f = |i: int| row_term(acc, cols, ld, y, i);
    assert forall|i: int| i != q - r0 implies #[trigger] f(i) == 0 by {
        if i < q - r0 {
            assert(y - i * ld >= ld + (m - j0)) by (nonlinear_arith)
                requires
                    y == (q - r0) * ld + (m - j0),
                    i <= q - r0 - 1,
                    ld > 0,
            ;
        } else {
            assert(y - i * ld <= -ld + (m - j0)) by (nonlinear_arith)
                requires
                    y == (q - r0) * ld + (m - j0),
                    i >= q - r0 + 1,
                    ld > 0,
            ;
        }
    }
    if 0 <= q - r0 < rows {
        lemma_sum_single(f, 0, rows, q - r0);
        assert(y - (q - r0) * ld == m - j0);
    } else {
        lemma_sum_zero(f, 0, rows);
    }
}

/// The products that a kernel forms for K block `kb` of tile `nb`, by kind, agree with the
/// products of the whole matrices.
proof fn lemma_tile_products(
    kind: ProductKind,
    a: Seq<u8>,
    b: &PackedBMatrixI8,
    i: int,
    kb: int,
    nb: int,
    jj: int,
    kc: int,
    s: Seq<u8>,
    s0: int,
)
    requires
        b.wf(),
        0 <= kb < block_count(b.spec_k(), 512),
        kc == block_len(b.spec_k(), 512, kb),
        0 <= jj < 8,
        forall|p: int|
            0 <= p < kc ==> #[trigger] s[s0 + p] == a[i * b.spec_k() + kb * 512 + p],
    ensures
        kind is Unsigned ==> dot_unsigned(s, s0, b.spec_tile(kb, nb), jj, kc) == product_sum(
            kind,
            a,
            b,
            i,
            nb * 8 + jj,
            kb * 512,
            kb * 512 + kc,
        ),
        kind is Signed ==> dot_signed(s, s0, b.spec_tile(kb, nb), jj, kc) == product_sum(
            kind,
            a,
            b,
            i,
            nb * 8 + jj,
            kb * 512,
            kb * 512 + kc,
        ),
{
    let j = nb * 8 + jj;
    let t = b.spec_tile(kb, nb);
    b.lemma_wf();
    assert(j / 8 == nb && j % 8 == jj);
    assert forall|p: int| 0 <= p < kc implies #[trigger] b.weight(p + kb * 512, j) == t[tile_index(
        p,
        jj,
    )] by {
        assert((p + kb * 512) / 512 == kb && (p + kb * 512) % 512 == p);
    }
    if kind is Unsigned {
        let f = |p: int| s[s0 + p] * t[tile_index(p, jj)];
        let g = |p: int| a[i * b.spec_k() + p] * b.weight(p, j);
        assert forall|p: int| 0 <= p < kc implies #[trigger] f(p) == g(p + kb * 512) by {
            assert(s[s0 + p] == a[i * b.spec_k() + kb * 512 + p]);
            assert(b.weight(p + kb * 512, j) == t[tile_index(p, jj)]);
        }
        lemma_sum_shift(f, g, 0, kc, kb * 512);
    } else if kind is Signed {
        let f = |p: int| (s[s0 + p] - 128) * t[tile_index(p, jj)];
        let g = |p: int| (a[i * b.spec_k() + p] - 128) * b.weight(p, j);
        assert forall|p: int| 0 <= p < kc implies #[trigger] f(p) == g(p + kb * 512) by {
            assert(s[s0 + p] == a[i * b.spec_k() + kb * 512 + p]);
            assert(b.weight(p + kb * 512, j) == t[tile_index(p, jj)]);
        }
        lemma_sum_shift(f, g, 0, kc, kb * 512);
    }
}

/// The products that a SIMD kernel forms from a zero-padded packed tile agree with the products
/// of the whole matrices.
proof fn lemma_packed_products(
    a: Seq<u8>,
    b: &PackedBMatrixI8,
    i: int,
    kb: int,
    nb: int,
    jj: int,
    kc: int,
    s: Seq<u8>,
    s0: int,
)
    requires
        b.wf(),
        0 <= kb < block_count(b.spec_k(), 512),
        kc == block_len(b.spec_k(), 512, kb),
        0 <= jj < 8,
        forall|p: int|
            0 <= p < kc ==> #[trigger] s[s0 + p] == a[i * b.spec_k() + kb * 512 + p],
        forall|p: int| kc <= p < interleaved(kc) ==> #[trigger] s[s0 + p] == 0,
    ensures
        dot_unsigned(s, s0, b.spec_tile(kb, nb), jj, interleaved(kc)) == product_sum(
            ProductKind::Unsigned,
            a,
            b,
            i,
            nb * 8 + jj,
            kb * 512,
            kb * 512 + kc,
        ),
{
    let t = b.spec_tile(kb, nb);
    let f = |p: int| s[s0 + p] * t[tile_index(p, jj)];
    assert forall|p: int| kc <= p < interleaved(kc) implies #[trigger] f(p) == 0 by {
        assert(s[s0 + p] == 0);
    }
    lemma_tile_products(ProductKind::Unsigned, a, b, i, kb, nb, jj, kc, s, s0);
    lemma_sum_split(f, 0, kc, interleaved(kc));
    lemma_sum_zero(f, kc, interleaved(kc));
}

/// A block added to the part of a buffer from `off` on is an area added to the buffer.
proof fn lemma_area_added(
    before: Seq<i32>,
    after: Seq<i32>,
    tail: Seq<i32>,
    off: int,
    acc: spec_fn(int, int) -> int,
    flags: SimdFlags,
    a: Seq<u8>,
    b: &PackedBMatrixI8,
    v: OutputView,
    i: int,
    rows: int,
    n_start: int,
    nc: int,
    lo: int,
    hi: int,
)
    requires
        0 <= off <= before.len(),
        off == (i - v.row0) * v.ld + (n_start - v.col0),
        v.row0 <= i,
        v.col0 <= n_start,
        n_start + nc - v.col0 <= v.ld,
        0 < nc,
        0 <= rows,
        after == before.subrange(0, off) + tail,
        block_added(
            before.subrange(off, before.len() as int),
            tail,
            acc,
            rows,
            nc,
            v.ld as int,
        ),
        forall|r: int, jj: int|
            0 <= r < rows && 0 <= jj < nc ==> #[trigger] acc(r, jj) == product_sum(
                flags.kind(),
                a,
                b,
                i + r,
                n_start + jj,
                lo,
                hi,
            ),
    ensures
        area_added(
            before,
            after,
            flags,
            a,
            b,
            v,
            i,
            i + rows,
            n_start,
            n_start + nc,
            lo,
            hi,
        ),
{
    reveal(area_values);
    let ld = v.ld as int;
    let r0 = i - v.row0;
    let j0 = n_start - v.col0;
    assert forall|x: int| 0 <= x < before.len() implies #[trigger] after[x] == (if in_area(
        v,
        i,
        i + rows,
        n_start,
        n_start + nc,
        x,
    ) {
        wrap32(before[x] + position_sum(flags, a, b, v, lo, hi, x))
    } else {
        before[x]
    }) by {
        vstd::arithmetic::div_mod::lemma_fundamental_div_mod(x, ld);
        if x < off {
            assert(after[x] == before[x]);
            if in_area(v, i, i + rows, n_start, n_start + nc, x) {
                assert(x >= r0 * ld + j0) by (nonlinear_arith)
                    requires
                        x == ld * (x / ld) + x % ld,
                        x / ld >= r0,
                        x % ld >= j0,
                        ld > 0,
                ;
            }
        } else {
            let tail0 = before.subrange(off, before.len() as int);
            assert(tail0[x - off] == before[x]);
            assert(after[x] == tail[x - off]);
            lemma_block_terms_at(acc, rows, nc, ld, r0, j0, x);
            lemma_wrap_small(before[x] as int);
            if in_area(v, i, i + rows, n_start, n_start + nc, x) {
                assert(acc(x / ld - r0, x % ld - j0) == position_sum(flags, a, b, v, lo, hi, x));
            }
        }
    }
}

/// The products of K block `kb` for `kind`, by row from `i` on and by column of tile `nb`.
spec fn tile_acc(
    kind: ProductKind,
    a: Seq<u8>,
    b: &PackedBMatrixI8,
    i: int,
    kb: int,
    nb: int,
) -> spec_fn(int, int) -> int {
    |r: int, jj: int|
        product_sum(
            kind,
            a,
            b,
            i + r,
            nb * 8 + jj,
            kb * 512,
            kb * 512 + block_len(b.spec_k(), 512, kb),
        )
}

/// Blocks with the same products are added alike.
proof fn lemma_block_added_eq(
    before: Seq<i32>,
    after: Seq<i32>,
    acc1: spec_fn(int, int) -> int,
    acc2: spec_fn(int, int) -> int,
    rows: int,
    cols: int,
    ldc: int,
)
    requires
        block_added(before, after, acc1, rows, cols, ldc),
        forall|r: int, jj: int|
            0 <= r < rows && 0 <= jj < cols ==> #[trigger] acc1(r, jj) == acc2(r, jj),
    ensures
        block_added(before, after, acc2, rows, cols, ldc),
{
    assert forall|x: int| 0 <= x < before.len() implies #[trigger] after[x] == wrap32(
        before[x] + block_terms(acc2, rows, cols, ldc, x),
    ) by {
        let f = |i: int| row_term(acc1, cols, ldc, x, i);
        let g = |i: int| row_term(acc2, cols, ldc, x, i);
        assert forall|i: int| 0 <= i < rows implies #[trigger] f(i) == g(i) by {
            if i * ldc <= x < i * ldc + cols {
                assert(acc1(i, x - i * ldc) == acc2(i, x - i * ldc));
            }
        }
        lemma_sum_eq(f, g, 0, rows);
    }
}

/// Bounds of the rows `i .. i + rows` of a matrix with row length `k`.
proof fn lemma_row_bounds(i: int, rows: int, r: int, k: int)
    requires
        0 <= i,
        0 <= r < rows,
        0 <= k,
    ensures
        (i + rows) * k == (i + (rows - 1)) * k + k,
        (i + (rows - 1)) * k == i * k + (rows - 1) * k,
        (i + r) * k == i * k + r * k,
        0 <= i * k,
        0 <= r * k <= (rows - 1) * k,
{
    assert((i + rows) * k == (i + (rows - 1)) * k + k) by (nonlinear_arith);
    assert((i + (rows - 1)) * k == i * k + (rows - 1) * k) by (nonlinear_arith);
    assert((i + r) * k == i * k + r * k) by (nonlinear_arith);
    assert(0 <= i * k) by (nonlinear_arith)
        requires
            0 <= i,
            0 <= k,
    ;
    assert(0 <= r * k <= (rows - 1) * k) by (nonlinear_arith)
        requires
            0 <= r <= rows - 1,
            0 <= k,
    ;
}

/// Adds one tile with a SIMD kernel: packs the activations into a zeroed tile and dispatches.
fn add_packed_rows(
    avx512_vnni: bool,
    i: usize,
    kernel_rows: usize,
    kb: usize,
    kc: usize,
    a_u8: &[u8],
    k: usize,
    n: usize,
    nb: usize,
    packed_b: &PackedBMatrixI8,
    c: &mut [i32],
    ld: usize,
)
    requires
        packed_b.wf(),
        k == packed_b.spec_k(),
        n == packed_b.spec_n(),
        kb < block_count(k as int, 512),
        nb < block_count(n as int, 8),
        kc == block_len(k as int, 512, kb as int),
        1 <= kernel_rows <= 12,
        i + kernel_rows <= usize::MAX,
        (i + kernel_rows) * k <= a_u8@.len(),
        block_len(n as int, 8, nb as int) == 8,
        (kernel_rows - 1) * ld + NR <= old(c)@.len(),
    ensures
        block_added(
            old(c)@,
            final(c)@,
            tile_acc(
                ProductKind::Unsigned,
                a_u8@,
                packed_b,
                i as int,
                kb as int,
                nb as int,
            ),
            kernel_rows as int,
            8,
            ld as int,
        ),
{
    let ghost c0 = c@;
    let k_start: usize = kb * KCB;
    let kc_aligned: usize = (kc + ROW_INTERLEAVE - 1) / ROW_INTERLEAVE * ROW_INTERLEAVE;
    let b_tile = packed_b.tile(kb, nb);
    let mut a_packed: Vec<u8> = vec![0u8; MR * KCB];
    let ghost zeros = a_packed@;
    proof {
        lemma_row_bounds(i as int, kernel_rows as int, 0, k as int);
    }
    avx2::pack_a_tile(a_u8, i, k_start, kernel_rows, kc, k, &mut a_packed);
    if avx512_vnni {
        avx512_vnni::dispatch_i8_kernel(kernel_rows, &a_packed, b_tile, c, kc_aligned, ld);
    } else {
        avx2::dispatch_i8_kernel(kernel_rows, &a_packed, b_tile, c, kc_aligned, ld);
    }
    proof {
        let s = a_packed@;
        let acc = |r: int, jj: int| dot_unsigned(s, r * KCB, b_tile@, jj, kc_aligned as int);
        let full = tile_acc(
            ProductKind::Unsigned,
            a_u8@,
            packed_b,
            i as int,
            kb as int,
            nb as int,
        );
        assert forall|r: int, jj: int| 0 <= r < kernel_rows && 0 <= jj < 8 implies #[trigger] acc(
            r,
            jj,
        ) == full(r, jj) by {
            assert forall|p: int| 0 <= p < interleaved(kc as int) implies #[trigger] s[r * 512 + p]
                == (if p < kc {
                a_u8@[(i + r) * packed_b.spec_k() + kb * 512 + p]
            } else {
                0
            }) by {
                assert((r * 512 + p) / 512 == r);
                assert(zeros[r * 512 + p] == 0);
            }
            lemma_packed_products(
                a_u8@,
                packed_b,
                i + r,
                kb as int,
                nb as int,
                jj,
                kc as int,
                s,
                r * 512,
            );
        }
        lemma_block_added_eq(c0, c@, acc, full, kernel_rows as int, 8, ld as int);
    }
}

/// Adds one tile with a reference kernel.
fn add_plain_rows(
    signed: bool,
    i: usize,
    kernel_rows: usize,
    kb: usize,
    kc: usize,
    a_u8: &[u8],
    k: usize,
    n: usize,
    nb: usize,
    nc: usize,
    packed_b: &PackedBMatrixI8,
    c: &mut [i32],
    ld: usize,
)
    requires
        packed_b.wf(),
        k == packed_b.spec_k(),
        n == packed_b.spec_n(),
        kb < block_count(k as int, 512),
        nb < block_count(n as int, 8),
        kc == block_len(k as int, 512, kb as int),
        1 <= kernel_rows <= 12,
        i + kernel_rows <= usize::MAX,
        (i + kernel_rows) * k <= a_u8@.len(),
        nc == block_len(n as int, 8, nb as int),
        (kernel_rows - 1) * ld + nc <= old(c)@.len(),
    ensures
        block_added(
            old(c)@,
            final(c)@,
            tile_acc(
                if signed {
                    ProductKind::Signed
                } else {
                    ProductKind::Unsigned
                },
                a_u8@,
                packed_b,
                i as int,
                kb as int,
                nb as int,
            ),
            kernel_rows as int,
            nc as int,
            ld as int,
        ),
{
    let ghost kind = if signed {
        ProductKind::Signed
    } else {
        ProductKind::Unsigned
    };
    let ghost c0 = c@;
    let k_start: usize = kb * KCB;
    let b_tile = packed_b.tile(kb, nb);
    proof {
        lemma_row_bounds(i as int, kernel_rows as int, 0, k as int);
        assert(a_u8.len() == a_u8@.len());
    }
    let a_tail = vstd::slice::slice_subrange(a_u8, i * k + k_start, a_u8.len());
    if signed {
        ref_i8i8_kernel(kernel_rows, a_tail, k, b_tile, c, ld, kc, nc);
    } else {
        ref_u8i8_kernel(kernel_rows, a_tail, k, b_tile, c, ld, kc, nc);
    }
    proof {
        let acc = |r: int, jj: int|
            crate::quantized::reference::ref_dot(signed, a_tail@, r * k, b_tile@, jj, kc as int);
        let full = tile_acc(kind, a_u8@, packed_b, i as int, kb as int, nb as int);
        if signed {
            lemma_block_added_eq(
                c0,
                c@,
                |r: int, jj: int| dot_signed(a_tail@, r * k, b_tile@, jj, kc as int),
                acc,
                kernel_rows as int,
                nc as int,
                ld as int,
            );
        } else {
            lemma_block_added_eq(
                c0,
                c@,
                |r: int, jj: int| dot_unsigned(a_tail@, r * k, b_tile@, jj, kc as int),
                acc,
                kernel_rows as int,
                nc as int,
                ld as int,
            );
        }
        assert forall|r: int, jj: int| 0 <= r < kernel_rows && 0 <= jj < nc implies #[trigger] acc(
            r,
            jj,
        ) == full(r, jj) by {
            lemma_row_bounds(i as int, kernel_rows as int, r, k as int);
            assert forall|p: int| 0 <= p < kc implies #[trigger] a_tail@[r * k + p] == a_u8@[(i + r)
                * packed_b.spec_k() + kb * 512 + p] by {}
            lemma_tile_products(
                kind,
                a_u8@,
                packed_b,
                i + r,
                kb as int,
                nb as int,
                jj,
                kc as int,
                a_tail@,
                r * k,
            );
        }
        lemma_block_added_eq(c0, c@, acc, full, kernel_rows as int, nc as int, ld as int);
    }
}

/// Adds the products of K block `kb` to `kernel_rows` rows and the columns of tile `nb` of the
/// output, with the kernel that the flags select.
fn process_tile(
    i: usize,
    kernel_rows: usize,
    kb: usize,
    kc: usize,
    a_u8: &[u8],
    k: usize,
    n: usize,
    nb: usize,
    packed_b: &PackedBMatrixI8,
    c: &mut [i32],
    view: OutputView,
    flags: SimdFlags,
)
    requires
        packed_b.wf(),
        k == packed_b.spec_k(),
        n == packed_b.spec_n(),
        kb < block_count(k as int, 512),
        nb < block_count(n as int, 8),
        kc == block_len(k as int, 512, kb as int),
        1 <= kernel_rows <= 12,
        i + kernel_rows <= usize::MAX,
        (i + kernel_rows) * k <= a_u8@.len(),
        view.row0 <= i,
        view.col0 <= nb * 8,
        nb * 8 + block_len(n as int, 8, nb as int) - view.col0 <= view.ld,
        (i + kernel_rows - view.row0) * view.ld <= old(c)@.len(),
    ensures
        area_added(
            old(c)@,
            final(c)@,
            flags,
            a_u8@,
            packed_b,
            view,
            i as int,
            i + kernel_rows,
            nb * 8,
            nb * 8 + block_len(n as int, 8, nb as int),
            kb * 512,
            kb * 512 + kc,
        ),
{
    let ghost c0 = c@;
    let n_start: usize = nb * NR;
    let nc: usize = if n - n_start < NR {
        n - n_start
    } else {
        NR
    };
    let ld: usize = view.ld;
    proof {
        lemma_row_bounds(i - view.row0, kernel_rows as int, 0, ld as int);
        assert(c.len() == c0.len());
    }
    let off: usize = (i - view.row0) * ld + (n_start - view.col0);
    let (_, tail) = c.split_at_mut(off);
    let ghost kind = flags.kind();
    let ghost acc = tile_acc(kind, a_u8@, packed_b, i as int, kb as int, nb as int);
    match flags {
        SimdFlags::X86 { avx512_vnni, avx2 } => if avx512_vnni && nc == NR {
            add_packed_rows(true, i, kernel_rows, kb, kc, a_u8, k, n, nb, packed_b, tail, ld);
        } else if avx2 && nc == NR {
            add_packed_rows(false, i, kernel_rows, kb, kc, a_u8, k, n, nb, packed_b, tail, ld);
        } else {
            add_plain_rows(false, i, kernel_rows, kb, kc, a_u8, k, n, nb, nc, packed_b, tail, ld);
        },
        SimdFlags::Aarch64 { neon_dotprod } => {
            add_plain_rows(
                neon_dotprod,
                i,
                kernel_rows,
                kb,
                kc,
                a_u8,
                k,
                n,
                nb,
                nc,
                packed_b,
                tail,
                ld,
            );
        },
        SimdFlags::Other => {
            add_plain_rows(false, i, kernel_rows, kb, kc, a_u8, k, n, nb, nc, packed_b, tail, ld);
        },
    }
    proof {
        assert(c@ =~= c0.subrange(0, off as int) + c@.subrange(off as int, c@.len() as int));
        lemma_area_added(
            c0,
            c@,
            c@.subrange(off as int, c@.len() as int),
            off as int,
            acc,
            flags,
            a_u8@,
            packed_b,
            view,
            i as int,
            kernel_rows as int,
            n_start as int,
            nc as int,
            kb * 512,
            kb * 512 + kc,
        );
    }
}

/// The end of the columns of the first `nb` tiles out of `n` columns.
pub open spec fn col_end(nb: int, n: int) -> int {
    if nb * 8 < n {
        nb * 8
    } else {
        n
    }
}

/// Products over neighbouring ranges add up.
pub(crate) proof fn lemma_product_split(
    kind: ProductKind,
    a: Seq<u8>,
    b: &PackedBMatrixI8,
    i: int,
    j: int,
    lo: int,
    mid: int,
    hi: int,
)
    requires
        0 <= lo <= mid <= hi,
    ensures
        product_sum(kind, a, b, i, j, lo, hi) == product_sum(kind, a, b, i, j, lo, mid)
            + product_sum(kind, a, b, i, j, mid, hi),
{
    match kind {
        ProductKind::Unsigned => lemma_sum_split(
            |p: int| a[i * b.spec_k() + p] * b.weight(p, j),
            lo,
            mid,
            hi,
        ),
        ProductKind::Signed => lemma_sum_split(
            |p: int| (a[i * b.spec_k() + p] - 128) * b.weight(p, j),
            lo,
            mid,
            hi,
        ),
    }
}

/// Adding the products of two neighbouring ranges in turn adds those of the whole range.
pub(crate) proof fn lemma_area_ranges(
    c0: Seq<i32>,
    c1: Seq<i32>,
    c2: Seq<i32>,
    flags: SimdFlags,
    a: Seq<u8>,
    b: &PackedBMatrixI8,
    v: OutputView,
    row_lo: int,
    row_hi: int,
    col_lo: int,
    col_hi: int,
    lo: int,
    mid: int,
    hi: int,
)
    requires
        0 <= lo <= mid <= hi,
        area_added(c0, c1, flags, a, b, v, row_lo, row_hi, col_lo, col_hi, lo, mid),
        area_added(c1, c2, flags, a, b, v, row_lo, row_hi, col_lo, col_hi, mid, hi),
    ensures
        area_added(c0, c2, flags, a, b, v, row_lo, row_hi, col_lo, col_hi, lo, hi),
{
    reveal(area_values);
    assert forall|x: int| 0 <= x < c0.len() implies #[trigger] c2[x] == (if in_area(
        v,
        row_lo,
        row_hi,
        col_lo,
        col_hi,
        x,
    ) {
        wrap32(c0[x] + position_sum(flags, a, b, v, lo, hi, x))
    } else {
        c0[x]
    }) by {
        assert(c1[x] == c1[x]);
        let j = v.col0 + x % (v.ld as int);
        lemma_product_split(
            flags.kind(),
            a,
            b,
            v.row0 + x / (v.ld as int),
            j,
            lo,
            mid,
            hi,
        );
        lemma_wrap_add(
            c0[x] + position_sum(flags, a, b, v, lo, mid, x),
            position_sum(flags, a, b, v, mid, hi, x),
        );
    }
}

/// Adding products to two neighbouring groups of rows, or of columns, in turn adds them to the
/// whole.
pub(crate) proof fn lemma_area_union(
    c0: Seq<i32>,
    c1: Seq<i32>,
    c2: Seq<i32>,
    flags: SimdFlags,
    a: Seq<u8>,
    b: &PackedBMatrixI8,
    v: OutputView,
    row_lo: int,
    row_mid: int,
    row_hi: int,
    col_lo: int,
    col_mid: int,
    col_hi: int,
    lo: int,
    hi: int,
)
    requires
        row_lo <= row_mid <= row_hi,
        col_lo <= col_mid <= col_hi,
        area_added(c0, c1, flags, a, b, v, row_lo, row_mid, col_lo, col_mid, lo, hi),
        (row_mid == row_hi && area_added(
            c1,
            c2,
            flags,
            a,
            b,
            v,
            row_lo,
            row_hi,
            col_mid,
            col_hi,
            lo,
            hi,
        )) || (col_mid == col_hi && area_added(
            c1,
            c2,
            flags,
            a,
            b,
            v,
            row_mid,
            row_hi,
            col_lo,
            col_hi,
            lo,
            hi,
        )),
    ensures
        area_added(c0, c2, flags, a, b, v, row_lo, row_hi, col_lo, col_hi, lo, hi),
{
    reveal(area_values);
    assert forall|x: int| 0 <= x < c0.len() implies #[trigger] c2[x] == (if in_area(
        v,
        row_lo,
        row_hi,
        col_lo,
        col_hi,
        x,
    ) {
        wrap32(c0[x] + position_sum(flags, a, b, v, lo, hi, x))
    } else {
        c0[x]
    }) by {
        assert(c1[x] == c1[x]);
    }
}

/// Adds the products of K block `kb` to the rows `mb_start .. mb_start + mc` and the columns of
/// the tiles `nb_start .. nb_end` of the output.
pub(crate) fn process_kb_block(
    mb_start: usize,
    mc: usize,
    kb: usize,
    kc: usize,
    a_u8: &[u8],
    k: usize,
    n: usize,
    nb_start: usize,
    nb_end: usize,
    packed_b: &PackedBMatrixI8,
    c: &mut [i32],
    view: OutputView,
    flags: SimdFlags,
)
    requires
        packed_b.wf(),
        k == packed_b.spec_k(),
        n == packed_b.spec_n(),
        kb < block_count(k as int, 512),
        kc == block_len(k as int, 512, kb as int),
        nb_start <= nb_end <= block_count(n as int, 8),
        mb_start + mc <= usize::MAX,
        (mb_start + mc) * k <= a_u8@.len(),
        view.row0 <= mb_start,
        view.col0 <= nb_start * 8,
        col_end(nb_end as int, n as int) - view.col0 <= view.ld,
        (mb_start + mc - view.row0) * view.ld <= old(c)@.len(),
    ensures
        area_added(
            old(c)@,
            final(c)@,
            flags,
            a_u8@,
            packed_b,
            view,
            mb_start as int,
            mb_start + mc,
            nb_start * 8,
            col_end(nb_end as int, n as int),
            kb * 512,
            kb * 512 + kc,
        ),
{
    let ghost c0 = c@;
    proof {
        lemma_no_area(
            c0,
            flags,
            a_u8@,
            packed_b,
            view,
            mb_start as int,
            mb_start + mc,
            nb_start * 8,
            col_end(nb_start as int, n as int),
            kb * 512,
            kb * 512 + kc,
        );
    }
    for nb in nb_start..nb_end
        invariant
            packed_b.wf(),
            k == packed_b.spec_k(),
            n == packed_b.spec_n(),
            kb < block_count(k as int, 512),
            kc == block_len(k as int, 512, kb as int),
            nb_start <= nb_end <= block_count(n as int, 8),
            mb_start + mc <= usize::MAX,
            (mb_start + mc) * k <= a_u8@.len(),
            view.row0 <= mb_start,
            view.col0 <= nb_start * 8,
            col_end(nb_end as int, n as int) - view.col0 <= view.ld,
            (mb_start + mc - view.row0) * view.ld <= c@.len(),
            area_added(
                c0,
                c@,
                flags,
                a_u8@,
                packed_b,
                view,
                mb_start as int,
                mb_start + mc,
                nb_start * 8,
                col_end(nb as int, n as int),
                kb * 512,
                kb * 512 + kc,
            ),
    {
        let ghost c1 = c@;
        let mut row_offset: usize = 0;
        proof {
            lemma_no_area(
                c1,
                flags,
                a_u8@,
                packed_b,
                view,
                mb_start as int,
                mb_start as int,
                nb * 8,
                col_end(nb + 1, n as int),
                kb * 512,
                kb * 512 + kc,
            );
        }
        while row_offset < mc
            invariant
                packed_b.wf(),
                k == packed_b.spec_k(),
                n == packed_b.spec_n(),
                kb < block_count(k as int, 512),
                kc == block_len(k as int, 512, kb as int),
                nb_start <= nb < nb_end <= block_count(n as int, 8),
                mb_start + mc <= usize::MAX,
                (mb_start + mc) * k <= a_u8@.len(),
                view.row0 <= mb_start,
                view.col0 <= nb_start * 8,
                col_end(nb_end as int, n as int) - view.col0 <= view.ld,
                (mb_start + mc - view.row0) * view.ld <= c@.len(),
                0 <= row_offset <= mc,
                area_added(
                    c1,
                    c@,
                    flags,
                    a_u8@,
                    packed_b,
                    view,
                    mb_start as int,
                    mb_start + row_offset,
                    nb * 8,
                    col_end(nb + 1, n as int),
                    kb * 512,
                    kb * 512 + kc,
                ),
            decreases mc - row_offset,
        {
            let ghost c2 = c@;
            let kernel_rows: usize = if mc - row_offset < MR {
                mc - row_offset
            } else {
                MR
            };
            let i: usize = mb_start + row_offset;
            proof {
                assert((i + kernel_rows) * k <= (mb_start + mc) * k) by (nonlinear_arith)
                    requires
                        i + kernel_rows <= mb_start + mc,
                        0 <= k,
                ;
                assert((i + kernel_rows - view.row0) * view.ld <= (mb_start + mc - view.row0)
                    * view.ld) by (nonlinear_arith)
                    requires
                        i + kernel_rows <= mb_start + mc,
                        0 <= view.ld,
                ;
            }
            process_tile(i, kernel_rows, kb, kc, a_u8, k, n, nb, packed_b, c, view, flags);
            proof {
                lemma_area_union(
                    c1,
                    c2,
                    c@,
                    flags,
                    a_u8@,
                    packed_b,
                    view,
                    mb_start as int,
                    i as int,
                    i + kernel_rows,
                    nb * 8,
                    col_end(nb + 1, n as int),
                    col_end(nb + 1, n as int),
                    kb * 512,
                    kb * 512 + kc,
                );
            }
            row_offset += kernel_rows;
        }
        proof {
            lemma_area_union(
                c0,
                c1,
                c@,
                flags,
                a_u8@,
                packed_b,
                view,
                mb_start as int,
                mb_start + mc,
                mb_start + mc,
                nb_start * 8,
                nb * 8,
                col_end(nb + 1, n as int),
                kb * 512,
                kb * 512 + kc,
            );
        }
    }
}

/// Adds the whole product to the rows `mb_start .. mb_start + mc` of the output.
pub(crate) fn process_m_block(
    mb_start: usize,
    mc: usize,
    a_u8: &[u8],
    k: usize,
    n: usize,
    packed_b: &PackedBMatrixI8,
    c_i32: &mut [i32],
    flags: SimdFlags,
)
    requires
        packed_b.wf(),
        k == packed_b.spec_k(),
        n == packed_b.spec_n(),
        mb_start + mc <= usize::MAX,
        (mb_start + mc) * k <= a_u8@.len(),
        (mb_start + mc) * n <= old(c_i32)@.len(),
    ensures
        area_added(
            old(c_i32)@,
            final(c_i32)@,
            flags,
            a_u8@,
            packed_b,
            OutputView { row0: 0, col0: 0, ld: n },
            mb_start as int,
            mb_start + mc,
            0,
            n as int,
            0,
            k as int,
        ),
{
    let view = OutputView { row0: 0, col0: 0, ld: n };
    let num_k_blocks = packed_b.num_k_blocks();
    let num_n_blocks = packed_b.num_n_blocks();
    let ghost c0 = c_i32@;
    proof {
        lemma_no_range(c0, flags, a_u8@, packed_b, view, mb_start as int, mb_start + mc, n as int);
    }
    for kb in 0..num_k_blocks
        invariant
            packed_b.wf(),
            k == packed_b.spec_k(),
            n == packed_b.spec_n(),
            num_k_blocks == block_count(k as int, 512),
            num_n_blocks == block_count(n as int, 8),
            view == (OutputView { row0: 0, col0: 0, ld: n }),
            mb_start + mc <= usize::MAX,
            (mb_start + mc) * k <= a_u8@.len(),
            (mb_start + mc) * n <= c_i32@.len(),
            area_added(
                c0,
                c_i32@,
                flags,
                a_u8@,
                packed_b,
                view,
                mb_start as int,
                mb_start + mc,
                0,
                n as int,
                0,
                if kb * 512 < k {
                    kb * 512
                } else {
                    k as int
                },
            ),
    {
        let ghost c1 = c_i32@;
        let k_start: usize = kb * KCB;
        let kc: usize = if k - k_start < KCB {
            k - k_start
        } else {
            KCB
        };
        process_kb_block(
            mb_start,
            mc,
            kb,
            kc,
            a_u8,
            k,
            n,
            0,
            num_n_blocks,
            packed_b,
            c_i32,
            view,
            flags,
        );
        proof {
            lemma_area_ranges(
                c0,
                c1,
                c_i32@,
                flags,
                a_u8@,
                packed_b,
                view,
                mb_start as int,
                mb_start + mc,
                0,
                n as int,
                0,
                kb * 512,
                kb * 512 + kc,
            );
        }
    }
}

/// Adding the products of an empty range changes nothing.
pub(crate) proof fn lemma_no_range(
    c: Seq<i32>,
    flags: SimdFlags,
    a: Seq<u8>,
    b: &PackedBMatrixI8,
    v: OutputView,
    row_lo: int,
    row_hi: int,
    col_hi: int,
)
    ensures
        area_added(c, c, flags, a, b, v, row_lo, row_hi, 0, col_hi, 0, 0),
{
    reveal(area_values);
    assert forall|x: int| 0 <= x < c.len() implies #[trigger] c[x] == wrap32(
        c[x] + position_sum(flags, a, b, v, 0, 0, x),
    ) by {
        lemma_wrap_small(c[x] as int);
    }
}

} // verus!
