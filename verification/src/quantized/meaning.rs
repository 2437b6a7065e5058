//! What the results of quantized multiplication are, in terms of the operands and of element
//! operations alone.

use crate::arith::{lemma_sum_eq, lemma_wrap_congruent, lemma_wrap_small, sum_range, wrap32};
use crate::blocks::block_count;
use crate::laws::lemma_row_position;
use crate::quantized::avx2::packed_byte;
use crate::quantized::block::SimdFlags;
use crate::quantized::gemm::{dequantized, i8gemm_output, lemma_task_ok, task_at, TileTask};
use crate::quantized::laws::{centered_sum, law_zero_point_correction};
use crate::quantized::pack::{interleaved, PackedBMatrixI8};
use crate::quantized::quantize::{
    quantized_bytes, row_greatest, row_least, row_scale, row_scales, row_zero_point,
    row_zero_points,
};
use crate::quantized::tile::{
    block_added, block_terms, dot_signed, dot_unsigned, row_term, tile_index,
};
use crate::scalar::Activation;
use vstd::prelude::*;

verus! {

/// A sum is what grows from zero by one term at a time.
proof fn lemma_sum_is(f: spec_fn(int) -> int, sums: spec_fn(int) -> int, n: int)
    requires
        0 <= n,
        sums(0) == 0,
        forall|p: int| 0 <= p < n ==> sums(p + 1) == #[trigger] sums(p) + f(p),
    ensures
        sum_range(f, 0, n) == sums(n),
    decreases n,
{
    if n > 0 {
        lemma_sum_is(f, sums, n - 1);
        assert(sums(n - 1 + 1) == sums(n - 1) + f(n - 1));
    }
}

/// Each row is quantized by its own range: `lows` and `highs` run through the row from zero on and
/// keep the lesser and the greater element, the scale and the zero point of the row are made from
/// their ends, and each byte of the row from its element with that scale and that zero point.
pub proof fn law_rows_are_quantized_by_their_range<T: Activation>(
    a: Seq<T>,
    m: int,
    k: int,
    i: int,
) -> (r: (spec_fn(int) -> T, spec_fn(int) -> T))
    requires
        0 <= k,
        0 <= i < m,
    ensures
        ({
            let (lows, highs) = r;
            let scale = row_scales(a, m, k)[i];
            let zero_point = row_zero_points(a, m, k)[i];
            &&& lows(0) == T::spec_zero()
            &&& forall|p: int|
                0 <= p < k ==> lows(p + 1) == (#[trigger] lows(p)).spec_lesser(a[i * k + p])
            &&& highs(0) == T::spec_zero()
            &&& forall|p: int|
                0 <= p < k ==> highs(p + 1) == (#[trigger] highs(p)).spec_greater(a[i * k + p])
            &&& scale == T::spec_scale(lows(k), highs(k))
            &&& zero_point == T::spec_zero_point(lows(k), highs(k))
            &&& forall|p: int|
                0 <= p < k ==> #[trigger] quantized_bytes(a, m, k)[i * k + p] == a[i * k
                    + p].spec_quantize(scale, zero_point)
        }),
        row_scales(a, m, k).len() == m,
        row_zero_points(a, m, k).len() == m,
        quantized_bytes(a, m, k).len() == m * k,
{
    let lows = |p: int| row_least(a, i * k, p);
    let highs = |p: int| row_greatest(a, i * k, p);
    assert(0 <= m * k) by (nonlinear_arith)
        requires
            0 <= m,
            0 <= k,
    ;
    assert forall|p: int| 0 <= p < k implies #[trigger] quantized_bytes(a, m, k)[i * k + p] == a[i
        * k + p].spec_quantize(row_scales(a, m, k)[i], row_zero_points(a, m, k)[i]) by {
        lemma_row_position(i, p, m, k);
    }
    (lows, highs)
}

/// The range of a row holds zero and all its elements, and its ends are zero or elements, wherever
/// the lesser and the greater of two elements are so in an order `le`.
pub proof fn law_row_range_holds_the_row<T: Activation>(
    a: Seq<T>,
    m: int,
    k: int,
    i: int,
    le: spec_fn(T, T) -> bool,
) -> (r: (T, T))
    requires
        0 <= k,
        0 <= i < m,
        forall|x: T| #[trigger] le(x, x),
        forall|x: T, y: T, z: T| #[trigger] le(x, y) && #[trigger] le(y, z) ==> le(x, z),
        forall|x: T, y: T|
            {
                let z = #[trigger] x.spec_lesser(y);
                le(z, x) && le(z, y) && (z == x || z == y)
            },
        forall|x: T, y: T|
            {
                let z = #[trigger] x.spec_greater(y);
                le(x, z) && le(y, z) && (z == x || z == y)
            },
    ensures
        row_scales(a, m, k)[i] == T::spec_scale(r.0, r.1),
        row_zero_points(a, m, k)[i] == T::spec_zero_point(r.0, r.1),
        le(r.0, T::spec_zero()),
        le(T::spec_zero(), r.1),
        forall|p: int|
            0 <= p < k ==> le(r.0, #[trigger] a[i * k + p]) && le(a[i * k + p], r.1),
        r.0 == T::spec_zero() || exists|p: int| 0 <= p < k && r.0 == #[trigger] a[i * k + p],
        r.1 == T::spec_zero() || exists|p: int| 0 <= p < k && r.1 == #[trigger] a[i * k + p],
{
    lemma_range(a, i * k, k, le);
    (row_least(a, i * k, k), row_greatest(a, i * k, k))
}

/// The range of the first `k` elements from `base` on.
proof fn lemma_range<T: Activation>(a: Seq<T>, base: int, k: int, le: spec_fn(T, T) -> bool)
    requires
        0 <= k,
        forall|x: T| #[trigger] le(x, x),
        forall|x: T, y: T, z: T| #[trigger] le(x, y) && #[trigger] le(y, z) ==> le(x, z),
        forall|x: T, y: T|
            {
                let z = #[trigger] x.spec_lesser(y);
                le(z, x) && le(z, y) && (z == x || z == y)
            },
        forall|x: T, y: T|
            {
                let z = #[trigger] x.spec_greater(y);
                le(x, z) && le(y, z) && (z == x || z == y)
            },
    ensures
        ({
            let lo = row_least(a, base, k);
            let hi = row_greatest(a, base, k);
            &&& le(lo, T::spec_zero())
            &&& le(T::spec_zero(), hi)
            &&& forall|p: int|
                0 <= p < k ==> le(lo, #[trigger] a[base + p]) && le(a[base + p], hi)
            &&& lo == T::spec_zero() || exists|p: int| 0 <= p < k && lo == #[trigger] a[base + p]
            &&& hi == T::spec_zero() || exists|p: int| 0 <= p < k && hi == #[trigger] a[base + p]
        }),
    decreases k,
{
    if k > 0 {
        lemma_range(a, base, k - 1, le);
        let lo = row_least(a, base, k - 1);
        let hi = row_greatest(a, base, k - 1);
        let x = a[base + (k - 1)];
        let lo2 = lo.spec_lesser(x);
        let hi2 = hi.spec_greater(x);
        assert(le(lo2, lo) && le(lo, T::spec_zero()));
        assert(le(T::spec_zero(), hi) && le(hi, hi2));
        assert(row_least(a, base, k) == lo2 && row_greatest(a, base, k) == hi2);
        assert forall|p: int| 0 <= p < k implies le(lo2, #[trigger] a[base + p]) && le(
            a[base + p],
            hi2,
        ) by {
            if p < k - 1 {
                assert(le(lo, a[base + p]) && le(a[base + p], hi));
            }
        }
        if lo2 != T::spec_zero() && lo2 == lo {
            let p = choose|p: int| 0 <= p < k - 1 && lo == #[trigger] a[base + p];
            assert(0 <= p < k && lo2 == a[base + p]);
        } else if lo2 != T::spec_zero() {
            assert(lo2 == a[base + (k - 1)]);
        }
        if hi2 != T::spec_zero() && hi2 == hi {
            let p = choose|p: int| 0 <= p < k - 1 && hi == #[trigger] a[base + p];
            assert(0 <= p < k && hi2 == a[base + p]);
        } else if hi2 != T::spec_zero() {
            assert(hi2 == a[base + (k - 1)]);
        }
    }
}

/// On integers, the range of a row holds zero and all its elements, and its ends are zero or
/// elements.
pub proof fn law_integer_row_range_holds_the_row(a: Seq<i32>, base: int, k: int)
    requires
        0 <= k,
    ensures
        row_least(a, base, k) <= 0 <= row_greatest(a, base, k),
        forall|p: int|
            0 <= p < k ==> row_least(a, base, k) <= #[trigger] a[base + p] <= row_greatest(
                a,
                base,
                k,
            ),
        row_least(a, base, k) == 0 || exists|p: int|
            0 <= p < k && row_least(a, base, k) == #[trigger] a[base + p],
        row_greatest(a, base, k) == 0 || exists|p: int|
            0 <= p < k && row_greatest(a, base, k) == #[trigger] a[base + p],
{
    let le = |x: i32, y: i32| x <= y;
    lemma_range(a, base, k, le);
    assert forall|p: int| 0 <= p < k implies row_least(a, base, k) <= #[trigger] a[base + p]
        <= row_greatest(a, base, k) by {
        assert(le(row_least(a, base, k), a[base + p]) && le(a[base + p], row_greatest(a, base, k)));
    }
}

/// Equal rows have equal ranges.
proof fn lemma_same_range<T: Activation>(
    a1: Seq<T>,
    base1: int,
    a2: Seq<T>,
    base2: int,
    k: int,
)
    requires
        forall|p: int| 0 <= p < k ==> #[trigger] a1[base1 + p] == a2[base2 + p],
    ensures
        row_least(a1, base1, k) == row_least(a2, base2, k),
        row_greatest(a1, base1, k) == row_greatest(a2, base2, k),
    decreases k,
{
    if k > 0 {
        lemma_same_range(a1, base1, a2, base2, k - 1);
        assert(a1[base1 + (k - 1)] == a2[base2 + (k - 1)]);
    }
}

/// A row is quantized by itself: equal rows of two matrices have the same scale, the same zero
/// point and the same bytes, whatever the other rows hold.
pub proof fn law_rows_are_quantized_alone<T: Activation>(
    a1: Seq<T>,
    m1: int,
    i1: int,
    a2: Seq<T>,
    m2: int,
    i2: int,
    k: int,
)
    requires
        0 <= k,
        0 <= i1 < m1,
        0 <= i2 < m2,
        forall|p: int| 0 <= p < k ==> #[trigger] a1[i1 * k + p] == a2[i2 * k + p],
    ensures
        row_scales(a1, m1, k)[i1] == row_scales(a2, m2, k)[i2],
        row_zero_points(a1, m1, k)[i1] == row_zero_points(a2, m2, k)[i2],
        forall|p: int|
            0 <= p < k ==> #[trigger] quantized_bytes(a1, m1, k)[i1 * k + p] == quantized_bytes(
                a2,
                m2,
                k,
            )[i2 * k + p],
{
    lemma_same_range(a1, i1 * k, a2, i2 * k, k);
    assert forall|p: int| 0 <= p < k implies #[trigger] quantized_bytes(a1, m1, k)[i1 * k + p]
        == quantized_bytes(a2, m2, k)[i2 * k + p] by {
        lemma_row_position(i1, p, m1, k);
        lemma_row_position(i2, p, m2, k);
        assert(a1[i1 * k + p] == a2[i2 * k + p]);
    }
}

/// A quantized multiplication, for elements of any kind and on every machine: `lows` and `highs`
/// run through the row of activations and end in its range, which gives its scale and its zero
/// point; each activation is quantized to a byte with them; `sums` adds the products of the bytes,
/// less the zero point, and the weights of the column; and the output element is that sum `s`,
/// modulo 2^32, times the scale of the row times that of the weights. Elements beyond the output
/// stay.
pub proof fn law_quantized_output_step_by_step<T: Activation>(
    before: Seq<T>,
    after: Seq<T>,
    flags: SimdFlags,
    a: Seq<T>,
    m: int,
    b: &PackedBMatrixI8,
    w: spec_fn(int, int) -> i8,
    b_scale: T,
    i: int,
    j: int,
) -> (r: (spec_fn(int) -> T, spec_fn(int) -> T, spec_fn(int) -> int, i32))
    requires
        b.wf(),
        i8gemm_output(before, after, flags, a, m, b, b_scale),
        forall|p: int, q: int|
            0 <= p < b.spec_k() && 0 <= q < b.spec_n() ==> #[trigger] b.weight(p, q) == w(p, q),
        0 <= i < m,
        0 <= j < b.spec_n(),
        m * b.spec_n() <= before.len(),
    ensures
        ({
            let (lows, highs, sums, s) = r;
            let k = b.spec_k();
            let scale = T::spec_scale(lows(k), highs(k));
            let zero_point = T::spec_zero_point(lows(k), highs(k));
            &&& lows(0) == T::spec_zero()
            &&& forall|p: int|
                0 <= p < k ==> lows(p + 1) == (#[trigger] lows(p)).spec_lesser(a[i * k + p])
            &&& highs(0) == T::spec_zero()
            &&& forall|p: int|
                0 <= p < k ==> highs(p + 1) == (#[trigger] highs(p)).spec_greater(a[i * k + p])
            &&& sums(0) == 0
            &&& forall|p: int|
                0 <= p < k ==> sums(p + 1) == #[trigger] sums(p) + (a[i * k + p].spec_quantize(
                    scale,
                    zero_point,
                ) - zero_point) * w(p, j)
            &&& (s - sums(k)) % 0x1_0000_0000 == 0
            &&& after[i * b.spec_n() + j] == T::spec_from_i32(s).spec_times(
                scale.spec_times(b_scale),
            )
        }),
        after.len() == before.len(),
        forall|x: int| m * b.spec_n() <= x < before.len() ==> #[trigger] after[x] == before[x],
{
    b.lemma_wf();
    let k = b.spec_k();
    let n = b.spec_n();
    lemma_row_position(i, j, m, n);
    let (lows, highs) = law_rows_are_quantized_by_their_range(a, m, k, i);
    let zero_point = row_zero_point(a, k, i);
    let q = quantized_bytes(a, m, k);
    law_zero_point_correction(flags, q, b, zero_point, i, j);
    let f = |p: int| (q[i * k + p] - zero_point) * b.weight(p, j);
    let sums = |p: int| sum_range(f, 0, p);
    let s = wrap32(centered_sum(q, b, zero_point as int, i, j));
    assert(centered_sum(q, b, zero_point as int, i, j) == sums(k));
    lemma_wrap_congruent(sums(k));
    assert(row_scales(a, m, k)[i] == row_scale(a, k, i));
    assert(row_zero_points(a, m, k)[i] == zero_point);
    assert forall|p: int| 0 <= p < k implies sums(p + 1) == #[trigger] sums(p) + (a[i * k
        + p].spec_quantize(row_scale(a, k, i), zero_point) - zero_point) * w(p, j) by {
        assert(q[i * k + p] == a[i * k + p].spec_quantize(row_scale(a, k, i), zero_point));
        assert(b.weight(p, j) == w(p, j));
    }
    (lows, highs, sums, s)
}

/// A quantized output row depends on its own row of activations alone: equal rows of two matrices
/// give equal output rows, whatever the other rows hold.
pub proof fn law_quantized_rows_are_independent<T: Activation>(
    before1: Seq<T>,
    after1: Seq<T>,
    a1: Seq<T>,
    m1: int,
    i1: int,
    before2: Seq<T>,
    after2: Seq<T>,
    a2: Seq<T>,
    m2: int,
    i2: int,
    flags: SimdFlags,
    b: &PackedBMatrixI8,
    b_scale: T,
    j: int,
)
    requires
        b.wf(),
        i8gemm_output(before1, after1, flags, a1, m1, b, b_scale),
        i8gemm_output(before2, after2, flags, a2, m2, b, b_scale),
        0 <= i1 < m1,
        0 <= i2 < m2,
        0 <= j < b.spec_n(),
        m1 * b.spec_n() <= before1.len(),
        m2 * b.spec_n() <= before2.len(),
        forall|p: int|
            0 <= p < b.spec_k() ==> #[trigger] a1[i1 * b.spec_k() + p] == a2[i2 * b.spec_k() + p],
    ensures
        after1[i1 * b.spec_n() + j] == after2[i2 * b.spec_n() + j],
{
    b.lemma_wf();
    let k = b.spec_k();
    let n = b.spec_n();
    lemma_row_position(i1, j, m1, n);
    lemma_row_position(i2, j, m2, n);
    law_rows_are_quantized_alone(a1, m1, i1, a2, m2, i2, k);
    assert(row_scales(a1, m1, k)[i1] == row_scale(a1, k, i1));
    assert(row_scales(a2, m2, k)[i2] == row_scale(a2, k, i2));
    assert(row_zero_points(a1, m1, k)[i1] == row_zero_point(a1, k, i1));
    assert(row_zero_points(a2, m2, k)[i2] == row_zero_point(a2, k, i2));
    let zp = row_zero_point(a1, k, i1);
    let (q1, q2) = (quantized_bytes(a1, m1, k), quantized_bytes(a2, m2, k));
    law_zero_point_correction(flags, q1, b, zp, i1, j);
    law_zero_point_correction(flags, q2, b, zp, i2, j);
    let f1 = |p: int| (q1[i1 * k + p] - zp) * b.weight(p, j);
    let f2 = |p: int| (q2[i2 * k + p] - zp) * b.weight(p, j);
    assert forall|p: int| 0 <= p < k implies #[trigger] f1(p) == f2(p) by {
        assert(q1[i1 * k + p] == q2[i2 * k + p]);
    }
    lemma_sum_eq(f1, f2, 0, k);
}

/// Two quantized multiplications that differ in the scale of the weights alone have outputs that
/// differ in it alone: there are an element `r.0` and a row scale `r.1` that both are made from.
pub proof fn law_weight_scale_is_the_last_factor<T: Activation>(
    before1: Seq<T>,
    after1: Seq<T>,
    s1: T,
    before2: Seq<T>,
    after2: Seq<T>,
    s2: T,
    flags: SimdFlags,
    a: Seq<T>,
    m: int,
    b: &PackedBMatrixI8,
    i: int,
    j: int,
) -> (r: (T, T))
    requires
        b.wf(),
        i8gemm_output(before1, after1, flags, a, m, b, s1),
        i8gemm_output(before2, after2, flags, a, m, b, s2),
        0 <= i < m,
        0 <= j < b.spec_n(),
        m * b.spec_n() <= before1.len(),
        m * b.spec_n() <= before2.len(),
    ensures
        r.1 == row_scales(a, m, b.spec_k())[i],
        after1[i * b.spec_n() + j] == r.0.spec_times(r.1.spec_times(s1)),
        after2[i * b.spec_n() + j] == r.0.spec_times(r.1.spec_times(s2)),
{
    lemma_row_position(i, j, m, b.spec_n());
    (
        crate::quantized::laws::unscaled_entry(flags, a, m, b, i, j),
        row_scale(a, b.spec_k(), i),
    )
}

/// Dequantization corrects the sum for the zero point, which is 128 lower where the machine
/// multiplies signed bytes, modulo 2^32, converts it, and multiplies it with the scale of the row
/// times that of the weights.
pub proof fn law_dequantization<T: Activation>(
    flags: SimdFlags,
    raw: i32,
    zero_point: i32,
    col_offset: i32,
    a_scale: T,
    b_scale: T,
) -> (s: i32)
    ensures
        ({
            let zp = match flags {
                SimdFlags::Aarch64 { neon_dotprod: true } => zero_point - 128,
                _ => zero_point as int,
            };
            (s - (raw - zp * col_offset)) % 0x1_0000_0000 == 0
        }),
        dequantized(flags, raw, zero_point, col_offset, a_scale, b_scale) == T::spec_from_i32(
            s,
        ).spec_times(a_scale.spec_times(b_scale)),
{
    let zp = flags.spec_effective_zp(zero_point as int);
    lemma_wrap_congruent(raw - zp * col_offset);
    wrap32(raw - zp * col_offset)
}

/// The zero point to subtract is 128 lower on machines that multiply signed bytes, and a machine
/// has SIMD kernels where it has one of the instruction sets.
pub proof fn law_flags(avx512_vnni: bool, avx2: bool, neon_dotprod: bool, zero_point: i32)
    ensures
        (SimdFlags::X86 { avx512_vnni, avx2 }).spec_use_simd() <==> avx512_vnni || avx2,
        (SimdFlags::Aarch64 { neon_dotprod }).spec_use_simd() <==> neon_dotprod,
        !SimdFlags::Other.spec_use_simd(),
        wrap32((SimdFlags::X86 { avx512_vnni, avx2 }).spec_effective_zp(zero_point as int))
            == zero_point,
        wrap32(SimdFlags::Other.spec_effective_zp(zero_point as int)) == zero_point,
        wrap32(
            (SimdFlags::Aarch64 { neon_dotprod: false }).spec_effective_zp(zero_point as int),
        ) == zero_point,
        (wrap32((SimdFlags::Aarch64 { neon_dotprod: true }).spec_effective_zp(zero_point as int))
            - (zero_point - 128)) % 0x1_0000_0000 == 0,
{
    lemma_wrap_small(zero_point as int);
    lemma_wrap_congruent(zero_point - 128);
}

/// A block of products `acc` is added row by row.
proof fn lemma_block_added_at(
    before: Seq<i32>,
    after: Seq<i32>,
    acc: spec_fn(int, int) -> int,
    rows: int,
    cols: int,
    ldc: int,
    totals: spec_fn(int) -> int,
    x: int,
)
    requires
        block_added(before, after, acc, rows, cols, ldc),
        0 <= rows,
        0 <= x < before.len(),
        totals(0) == 0,
        forall|i: int|
            0 <= i < rows ==> totals(i + 1) == #[trigger] totals(i) + (if i * ldc <= x < i * ldc
                + cols {
                acc(i, x - i * ldc)
            } else {
                0
            }),
    ensures
        (after[x] - (before[x] + totals(rows))) % 0x1_0000_0000 == 0,
{
    let f = |i: int| row_term(acc, cols, ldc, x, i);
    lemma_sum_is(f, totals, rows);
    lemma_wrap_congruent(before[x] + block_terms(acc, rows, cols, ldc, x));
}

/// A kernel adds the product of `rows` rows of activations, `lda` apart, and the columns of a tile
/// to the rows of the output, `ldc` apart: `products(i, j, p)` adds up the first `p` terms for row
/// `i` and column `j`, where element `p` of column `j` lies in the group of four rows `p / 4`, and
/// `totals` adds up what the rows of the block put at position `x`. Sums are modulo 2^32.
pub proof fn law_kernel_adds_the_product(
    before: Seq<i32>,
    after: Seq<i32>,
    a: Seq<u8>,
    lda: int,
    b: Seq<i8>,
    kc: int,
    rows: int,
    cols: int,
    ldc: int,
    products: spec_fn(int, int, int) -> int,
    totals: spec_fn(int) -> int,
    x: int,
)
    requires
        block_added(
            before,
            after,
            |i: int, j: int| dot_unsigned(a, i * lda, b, j, kc),
            rows,
            cols,
            ldc,
        ),
        0 <= kc,
        0 <= rows,
        0 <= x < before.len(),
        forall|i: int, j: int| #[trigger] products(i, j, 0) == 0,
        forall|i: int, j: int, p: int|
            0 <= p < kc ==> products(i, j, p + 1) == #[trigger] products(i, j, p) + a[i * lda + p]
                * b[p / 4 * 32 + j * 4 + p % 4],
        totals(0) == 0,
        forall|i: int|
            0 <= i < rows ==> totals(i + 1) == #[trigger] totals(i) + (if i * ldc <= x < i * ldc
                + cols {
                products(i, x - i * ldc, kc)
            } else {
                0
            }),
    ensures
        (after[x] - (before[x] + totals(rows))) % 0x1_0000_0000 == 0,
        after.len() == before.len(),
{
    let acc = |i: int, j: int| dot_unsigned(a, i * lda, b, j, kc);
    assert forall|i: int, j: int| #[trigger] acc(i, j) == products(i, j, kc) by {
        let f = |p: int| a[i * lda + p] * b[tile_index(p, j)];
        let sums = |p: int| products(i, j, p);
        assert forall|p: int| 0 <= p < kc implies sums(p + 1) == #[trigger] sums(p) + f(p) by {
            assert(products(i, j, p + 1) == products(i, j, p) + a[i * lda + p] * b[p / 4 * 32 + j
                * 4 + p % 4]);
        }
        assert(products(i, j, 0) == 0);
        lemma_sum_is(f, sums, kc);
    }
    assert forall|i: int| 0 <= i < rows implies totals(i + 1) == #[trigger] totals(i) + (if i * ldc
        <= x < i * ldc + cols {
        acc(i, x - i * ldc)
    } else {
        0
    }) by {
        assert(acc(i, x - i * ldc) == products(i, x - i * ldc, kc));
    }
    lemma_block_added_at(before, after, acc, rows, cols, ldc, totals, x);
}

/// The same for the kernel that reads activations lowered by 128.
pub proof fn law_signed_kernel_adds_the_product(
    before: Seq<i32>,
    after: Seq<i32>,
    a: Seq<u8>,
    lda: int,
    b: Seq<i8>,
    kc: int,
    rows: int,
    cols: int,
    ldc: int,
    products: spec_fn(int, int, int) -> int,
    totals: spec_fn(int) -> int,
    x: int,
)
    requires
        block_added(
            before,
            after,
            |i: int, j: int| dot_signed(a, i * lda, b, j, kc),
            rows,
            cols,
            ldc,
        ),
        0 <= kc,
        0 <= rows,
        0 <= x < before.len(),
        forall|i: int, j: int| #[trigger] products(i, j, 0) == 0,
        forall|i: int, j: int, p: int|
            0 <= p < kc ==> products(i, j, p + 1) == #[trigger] products(i, j, p) + (a[i * lda + p]
                - 128) * b[p / 4 * 32 + j * 4 + p % 4],
        totals(0) == 0,
        forall|i: int|
            0 <= i < rows ==> totals(i + 1) == #[trigger] totals(i) + (if i * ldc <= x < i * ldc
                + cols {
                products(i, x - i * ldc, kc)
            } else {
                0
            }),
    ensures
        (after[x] - (before[x] + totals(rows))) % 0x1_0000_0000 == 0,
        after.len() == before.len(),
{
    let acc = |i: int, j: int| dot_signed(a, i * lda, b, j, kc);
    assert forall|i: int, j: int| #[trigger] acc(i, j) == products(i, j, kc) by {
        let f = |p: int| (a[i * lda + p] - 128) * b[tile_index(p, j)];
        let sums = |p: int| products(i, j, p);
        assert forall|p: int| 0 <= p < kc implies sums(p + 1) == #[trigger] sums(p) + f(p) by {
            assert(products(i, j, p + 1) == products(i, j, p) + (a[i * lda + p] - 128) * b[p / 4
                * 32 + j * 4 + p % 4]);
        }
        assert(products(i, j, 0) == 0);
        lemma_sum_is(f, sums, kc);
    }
    assert forall|i: int| 0 <= i < rows implies totals(i + 1) == #[trigger] totals(i) + (if i * ldc
        <= x < i * ldc + cols {
        acc(i, x - i * ldc)
    } else {
        0
    }) by {
        assert(acc(i, x - i * ldc) == products(i, x - i * ldc, kc));
    }
    lemma_block_added_at(before, after, acc, rows, cols, ldc, totals, x);
}

/// A tile of packed activations holds byte `p` of matrix row `m_start + i` at `i * 512 + p`; where
/// rows overlap, the later one counts. All other bytes stay.
pub proof fn law_packed_activations(
    a: Seq<u8>,
    m_start: int,
    k_start: int,
    mc: int,
    kc: int,
    k: int,
    before: Seq<u8>,
    x: int,
)
    requires
        0 <= mc,
        0 <= kc,
        0 <= x,
    ensures
        forall|i: int|
            0 <= i < mc && #[trigger] (i * 512) <= x < i * 512 + kc && (i + 1 == mc || x < i * 512
                + 512) ==> packed_byte(a, m_start, k_start, mc, kc, k, before, x) == a[(m_start + i)
                * k + k_start + (x - i * 512)],
        (forall|i: int| 0 <= i < mc ==> !(#[trigger] (i * 512) <= x < i * 512 + kc))
            ==> packed_byte(a, m_start, k_start, mc, kc, k, before, x) == before[x],
{
    let r = crate::quantized::avx2::packed_row(mc, x);
    if mc > 0 {
        assert(0 <= r < mc && r * 512 <= x);
    }
}

/// A tile holds the weights of its rows and columns, four rows of each column together.
pub proof fn law_tiles_hold_the_weights(b: &PackedBMatrixI8, kb: int, nb: int, p: int, j: int)
    requires
        0 <= kb,
        0 <= nb,
        0 <= p < 512,
        0 <= j < 8,
    ensures
        b.spec_tile(kb, nb)[p / 4 * 32 + j * 4 + p % 4] == b.weight(kb * 512 + p, nb * 8 + j),
{
    assert((kb * 512 + p) / 512 == kb && (kb * 512 + p) % 512 == p);
    assert((nb * 8 + j) / 8 == nb && (nb * 8 + j) % 8 == j);
}

/// Tiles take whole groups of four rows, of eight columns each: element `p` of column `j` lies in
/// group `p / 4`, after the groups before it and the columns before it in its group.
pub proof fn law_tiles_take_whole_groups(rows: int, p: int, j: int)
    requires
        0 <= p < rows,
        0 <= j < 8,
    ensures
        interleaved(rows) % 4 == 0,
        rows <= interleaved(rows) < rows + 4,
        tile_index(p, j) == p / 4 * 32 + j * 4 + p % 4,
        0 <= tile_index(p, j) < interleaved(rows) * 8,
{
}

/// The column sums are the sums of the weights, modulo 2^32.
pub proof fn law_column_sums(b: &PackedBMatrixI8, sums: spec_fn(int) -> int, j: int)
    requires
        b.wf(),
        0 <= j < b.spec_n(),
        sums(0) == 0,
        forall|p: int|
            0 <= p < b.spec_k() ==> sums(p + 1) == #[trigger] sums(p) + b.weight(p, j),
    ensures
        b.spec_col_offsets().len() == b.spec_n(),
        (b.spec_col_offsets()[j] - sums(b.spec_k())) % 0x1_0000_0000 == 0,
{
    b.lemma_wf();
    let f = |p: int| b.weight(p, j) as int;
    lemma_sum_is(f, sums, b.spec_k());
    lemma_wrap_congruent(b.column_sum(j));
}

/// The tasks share out the output: rows `i` in blocks of 120 and columns `j` in chunks of tiles of
/// 8, so that one listed task, and only one, has each element of the output in its rows and tiles.
pub proof fn law_tasks_share_out_the_output(
    m: int,
    n: int,
    chunk: int,
    tasks: Seq<TileTask>,
    i: int,
    j: int,
) -> (t: int)
    requires
        0 <= i < m <= usize::MAX,
        0 <= j < n <= usize::MAX,
        1 <= chunk <= usize::MAX,
        tasks.len() == block_count(m, 120) * block_count(block_count(n, 8), chunk),
        forall|u: int|
            0 <= u < tasks.len() ==> #[trigger] tasks[u] == task_at(
                block_count(n, 8),
                chunk,
                u / block_count(block_count(n, 8), chunk),
                u % block_count(block_count(n, 8), chunk),
            ),
    ensures
        forall|u: int|
            0 <= u < tasks.len() ==> {
                &&& (#[trigger] tasks[u]).mb_start < m
                &&& tasks[u].nb_start < tasks[u].nb_end
                &&& (tasks[u].nb_end - 1) * 8 < n
            },
        0 <= t < tasks.len(),
        tasks[t].mb_start <= i < tasks[t].mb_start + 120,
        tasks[t].nb_start * 8 <= j < tasks[t].nb_end * 8,
        forall|u: int|
            0 <= u < tasks.len() && (#[trigger] tasks[u]).mb_start <= i < tasks[u].mb_start + 120
                && tasks[u].nb_start * 8 <= j < tasks[u].nb_end * 8 ==> u == t,
{
    let blocks = block_count(n, 8);
    let per_row = block_count(blocks, chunk);
    let t = crate::quantized::laws::law_tasks_partition_output(m, n, chunk, i, j);
    lemma_task_ok(m, n, chunk, t);
    assert(tasks[t] == task_at(blocks, chunk, t / per_row, t % per_row));
    assert forall|u: int| 0 <= u < tasks.len() implies {
        &&& (#[trigger] tasks[u]).mb_start < m
        &&& tasks[u].nb_start < tasks[u].nb_end
        &&& (tasks[u].nb_end - 1) * 8 < n
    } by {
        lemma_task_ok(m, n, chunk, u);
        assert(tasks[u] == task_at(blocks, chunk, u / per_row, u % per_row));
    }
    assert forall|u: int|
        0 <= u < tasks.len() && (#[trigger] tasks[u]).mb_start <= i < tasks[u].mb_start + 120
            && tasks[u].nb_start * 8 <= j < tasks[u].nb_end * 8 implies u == t by {
        lemma_task_ok(m, n, chunk, u);
        assert(tasks[u] == task_at(blocks, chunk, u / per_row, u % per_row));
        assert(crate::quantized::laws::task_covers(
            task_at(blocks, chunk, u / per_row, u % per_row),
            m,
            n,
            i,
            j,
        ));
    }
    t
}

/// Integers stand for themselves: they are compared as integers, and quantized by rounding their
/// sum with the zero point to the nearest byte.
pub proof fn law_integer_activations(x: i32, y: i32, zero_point: i32)
    ensures
        i32::spec_from_i32(x) == x,
        x.spec_lesser(y) <= x && x.spec_lesser(y) <= y,
        x.spec_lesser(y) == x || x.spec_lesser(y) == y,
        x.spec_greater(y) >= x && x.spec_greater(y) >= y,
        x.spec_greater(y) == x || x.spec_greater(y) == y,
        i32::spec_scale(x, y) == 1,
        i32::spec_zero_point(x, y) == 128,
        0 <= x + zero_point <= 255 ==> x.spec_quantize(1, zero_point) == x + zero_point,
        x + zero_point < 0 ==> x.spec_quantize(1, zero_point) == 0,
        x + zero_point > 255 ==> x.spec_quantize(1, zero_point) == 255,
{
}

} // verus!
