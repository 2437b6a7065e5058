//! What holds of quantized matrix multiplication as a whole.

use crate::arith::{
    lemma_div_mod_of, lemma_position, lemma_sum_combine, lemma_sum_eq, lemma_wrap_add,
    lemma_wrap_mul, lemma_wrap_small, lemma_wrap_sub, sum_range, wrap32,
};
use crate::blocks::block_count;
use crate::quantized::block::{product_sum, SimdFlags};
use crate::quantized::gemm::{
    adjusted_sum, i8gemm_entry, i8gemm_output, raw_sum, task_at, task_cols, task_rows, TileTask,
};
use crate::quantized::pack::PackedBMatrixI8;
use crate::quantized::quantize::{quantized_bytes, row_scale, row_zero_point};
use crate::quantized::tile::{dot_signed, dot_unsigned, tile_index};
use crate::scalar::{Activation, Scalar};
use vstd::prelude::*;

verus! {

/// The exact product of row `i` of activations, each lowered by `zero_point`, and column `j`.
pub open spec fn centered_sum(
    a: Seq<u8>,
    b: &PackedBMatrixI8,
    zero_point: int,
    i: int,
    j: int,
) -> int {
    sum_range(|p: int| (a[i * b.spec_k() + p] - zero_point) * b.weight(p, j), 0, b.spec_k())
}

/// The zero-point correction is exact: the corrected product of row `i` and column `j` is the
/// product of the weights with the activations lowered by the zero point, whether the kernel
/// reads activations as they are or lowered by 128.
pub proof fn law_zero_point_correction(
    flags: SimdFlags,
    a: Seq<u8>,
    b: &PackedBMatrixI8,
    zero_point: i32,
    i: int,
    j: int,
)
    requires
        b.wf(),
        0 <= j < b.spec_n(),
    ensures
        adjusted_sum(flags, raw_sum(flags, a, b, i, j), zero_point, b.spec_col_offsets()[j])
            == wrap32(centered_sum(a, b, zero_point as int, i, j)),
{
    b.lemma_wf();
    let k = b.spec_k();
    let kind = flags.kind();
    let zp = flags.spec_effective_zp(zero_point as int);
    let s = product_sum(kind, a, b, i, j, 0, k);
    let w = |p: int| b.weight(p, j) as int;
    let h = |p: int| (a[i * k + p] - zero_point) * b.weight(p, j);
    let off = b.column_sum(j);
    if kind is Signed {
        let f = |p: int| (a[i * k + p] - 128) * b.weight(p, j);
        assert forall|p: int| 0 <= p < k implies #[trigger] h(p) == f(p) - zp * w(p) by {
            let x = a[i * k + p] as int;
            let y = b.weight(p, j) as int;
            let z = zero_point as int;
            assert((x - z) * y == (x - 128) * y - (z - 128) * y) by (nonlinear_arith);
        }
        lemma_sum_combine(h, f, zp, w, 0, k);
    } else {
        let f = |p: int| a[i * k + p] * b.weight(p, j);
        assert forall|p: int| 0 <= p < k implies #[trigger] h(p) == f(p) - zp * w(p) by {
            let x = a[i * k + p] as int;
            let y = b.weight(p, j) as int;
            let z = zero_point as int;
            assert((x - z) * y == x * y - z * y) by (nonlinear_arith);
        }
        lemma_sum_combine(h, f, zp, w, 0, k);
    }
    assert(centered_sum(a, b, zero_point as int, i, j) == s - zp * off);
    let o32 = wrap32(off);
    let raw = wrap32(s);
    lemma_wrap_mul(off, zp);
    assert(off * zp == zp * off) by (nonlinear_arith);
    assert(o32 * zp == zp * o32) by (nonlinear_arith);
    lemma_wrap_add(s, -(zp * o32));
    lemma_wrap_sub(zp * o32, s);
    lemma_wrap_sub(zp * off, s);
}

/// The result of a quantized multiplication does not depend on the machine it runs on: what one
/// machine computes is what any other does.
pub proof fn law_machine_independent<T: Activation>(
    before: Seq<T>,
    after: Seq<T>,
    flags: SimdFlags,
    other: SimdFlags,
    a: Seq<T>,
    m: int,
    b: &PackedBMatrixI8,
    b_scale: T,
)
    requires
        b.wf(),
        i8gemm_output(before, after, flags, a, m, b, b_scale),
    ensures
        i8gemm_output(before, after, other, a, m, b, b_scale),
{
    b.lemma_wf();
    let n = b.spec_n();
    assert forall|x: int| 0 <= x < before.len() implies #[trigger] after[x] == (if x < m * n {
        i8gemm_entry(other, a, m, b, b_scale, x / n, x % n)
    } else {
        before[x]
    }) by {
        if x < m * n {
            lemma_position(x, m, n);
            let q = quantized_bytes(a, m, b.spec_k());
            let zero_point = row_zero_point(a, b.spec_k(), x / n);
            law_zero_point_correction(flags, q, b, zero_point, x / n, x % n);
            law_zero_point_correction(other, q, b, zero_point, x / n, x % n);
        }
    }
}

/// The integer product behind the element in row `i` and column `j`, as an element: it depends on
/// the activations and the weights alone.
pub open spec fn unscaled_entry<T: Activation>(
    flags: SimdFlags,
    a: Seq<T>,
    m: int,
    b: &PackedBMatrixI8,
    i: int,
    j: int,
) -> T {
    T::spec_from_i32(
        adjusted_sum(
            flags,
            raw_sum(flags, quantized_bytes(a, m, b.spec_k()), b, i, j),
            row_zero_point(a, b.spec_k(), i),
            b.spec_col_offsets()[j],
        ),
    )
}

/// The scale of the weights enters as a factor of the output and nowhere else: for two scales, the
/// elements differ in their last factor only.
pub proof fn law_weight_scale_is_a_factor<T: Activation>(
    flags: SimdFlags,
    a: Seq<T>,
    m: int,
    b: &PackedBMatrixI8,
    s1: T,
    s2: T,
    i: int,
    j: int,
)
    ensures
        i8gemm_entry(flags, a, m, b, s1, i, j) == unscaled_entry(flags, a, m, b, i, j).spec_times(
            row_scale(a, b.spec_k(), i).spec_times(s1),
        ),
        i8gemm_entry(flags, a, m, b, s2, i, j) == unscaled_entry(flags, a, m, b, i, j).spec_times(
            row_scale(a, b.spec_k(), i).spec_times(s2),
        ),
{
}

/// An operation on the scale of the weights that commutes with the two products behind an element
/// is the same operation on the element. Doubling is one wherever it is exact.
pub proof fn law_weight_scale_scales_output<T: Activation>(
    flags: SimdFlags,
    a: Seq<T>,
    m: int,
    b: &PackedBMatrixI8,
    b_scale: T,
    scaled: spec_fn(T) -> T,
    i: int,
    j: int,
)
    requires
        ({
            let s = row_scale(a, b.spec_k(), i);
            let u = unscaled_entry(flags, a, m, b, i, j);
            &&& s.spec_times(scaled(b_scale)) == scaled(s.spec_times(b_scale))
            &&& u.spec_times(scaled(s.spec_times(b_scale))) == scaled(
                u.spec_times(s.spec_times(b_scale)),
            )
        }),
    ensures
        i8gemm_entry(flags, a, m, b, scaled(b_scale), i, j) == scaled(
            i8gemm_entry(flags, a, m, b, b_scale, i, j),
        ),
{
}

/// On integers, `f` times the scale of the weights gives `f` times the output, modulo 2^32.
pub proof fn law_integer_weight_scale_scales_output(
    flags: SimdFlags,
    a: Seq<i32>,
    m: int,
    b: &PackedBMatrixI8,
    b_scale: i32,
    f: int,
    i: int,
    j: int,
)
    ensures
        i8gemm_entry(flags, a, m, b, wrap32(f * b_scale), i, j) == wrap32(
            f * i8gemm_entry(flags, a, m, b, b_scale, i, j),
        ),
{
    let scaled = |x: i32| wrap32(f * x);
    let s = row_scale(a, b.spec_k(), i);
    let u = unscaled_entry(flags, a, m, b, i, j);
    lemma_wrapped_factor(f, s, b_scale);
    lemma_wrapped_factor(f, u, s.spec_times(b_scale));
    law_weight_scale_scales_output(flags, a, m, b, b_scale, scaled, i, j);
}

/// A factor of one factor is a factor of the product, modulo 2^32.
proof fn lemma_wrapped_factor(f: int, x: i32, y: i32)
    ensures
        wrap32(x * wrap32(f * y)) == wrap32(f * wrap32(x * y)),
{
    lemma_wrap_mul(f * y, x as int);
    lemma_wrap_mul(x * y, f);
    assert(wrap32(f * y) * x == x * wrap32(f * y)) by (nonlinear_arith);
    assert(wrap32(x * y) * f == f * wrap32(x * y)) by (nonlinear_arith);
    assert((f * y) * x == (x * y) * f) by (nonlinear_arith);
}

/// The output of a quantized multiplication is determined by its operands and the machine: with
/// or without the buffers of an earlier call, on one thread or on many, it is the same.
pub proof fn law_quantized_output_is_determined<T: Activation>(
    before: Seq<T>,
    after1: Seq<T>,
    after2: Seq<T>,
    flags: SimdFlags,
    a: Seq<T>,
    m: int,
    b: &PackedBMatrixI8,
    b_scale: T,
)
    requires
        i8gemm_output(before, after1, flags, a, m, b, b_scale),
        i8gemm_output(before, after2, flags, a, m, b, b_scale),
    ensures
        after1 == after2,
{
    assert forall|x: int| 0 <= x < after1.len() implies after1[x] == after2[x] by {
        assert(after1[x] == after2[x]);
    }
    assert(after1 =~= after2);
}

/// Integer activations from -128 to 127 are multiplied exactly: each element is the product of
/// the row, the column and the scale in 32-bit arithmetic.
pub proof fn law_integer_activations_are_exact(
    flags: SimdFlags,
    a: Seq<i32>,
    m: int,
    b: &PackedBMatrixI8,
    b_scale: i32,
    i: int,
    j: int,
)
    requires
        b.wf(),
        0 <= i < m,
        0 <= j < b.spec_n(),
        m * b.spec_k() <= a.len(),
        forall|x: int| 0 <= x < m * b.spec_k() ==> -128 <= #[trigger] a[x] <= 127,
    ensures
        i8gemm_entry(flags, a, m, b, b_scale, i, j) == wrap32(
            b_scale * sum_range(|p: int| a[i * b.spec_k() + p] * b.weight(p, j), 0, b.spec_k()),
        ),
{
    let k = b.spec_k();
    let q = quantized_bytes(a, m, k);
    let f = |p: int| (q[i * k + p] - 128) * b.weight(p, j);
    let g = |p: int| a[i * k + p] * b.weight(p, j);
    law_zero_point_correction(flags, q, b, 128, i, j);
    assert forall|p: int| 0 <= p < k implies #[trigger] f(p) == g(p) by {
        assert(i * k + p < m * k && 0 <= i * k) by (nonlinear_arith)
            requires
                0 <= i < m,
                0 <= p < k,
        ;
        assert(-128 <= a[i * k + p] <= 127);
        lemma_div_mod_of(i, p, k);
    }
    lemma_sum_eq(f, g, 0, k);
    let s = sum_range(g, 0, k);
    lemma_wrap_small(b_scale as int);
    lemma_wrap_mul(s, b_scale as int);
    assert(s * b_scale == b_scale * s) by (nonlinear_arith);
    assert(1 * b_scale == b_scale);
}

/// Whether a task writes the element in row `i` and column `j`.
pub open spec fn task_covers(task: TileTask, m: int, n: int, i: int, j: int) -> bool {
    &&& task.mb_start <= i < task.mb_start + task_rows(m, task)
    &&& task.nb_start * 8 <= j < task.nb_start * 8 + task_cols(n, task)
}

/// The listed tasks write disjoint parts of the output that together are all of it: every element
/// is written by exactly one task.
pub proof fn law_tasks_partition_output(m: int, n: int, chunk: int, i: int, j: int) -> (t: int)
    requires
        0 <= i < m <= usize::MAX,
        0 <= j < n <= usize::MAX,
        1 <= chunk <= usize::MAX,
    ensures
        ({
            let blocks = block_count(n, 8);
            let per_row = block_count(blocks, chunk);
            &&& 0 <= t < block_count(m, 120) * per_row
            &&& task_covers(task_at(blocks, chunk, t / per_row, t % per_row), m, n, i, j)
            &&& forall|u: int|
                0 <= u < block_count(m, 120) * per_row && #[trigger] task_covers(
                    task_at(blocks, chunk, u / per_row, u % per_row),
                    m,
                    n,
                    i,
                    j,
                ) ==> u == t
        }),
{
    let blocks = block_count(n, 8);
    let per_row = block_count(blocks, chunk);
    let rows = block_count(m, 120);
    let r = i / 120;
    let nb = j / 8;
    let s = nb / chunk;
    vstd::arithmetic::div_mod::lemma_fundamental_div_mod(nb, chunk);
    vstd::arithmetic::div_mod::lemma_fundamental_div_mod(blocks, chunk);
    let q = blocks / chunk;
    assert(0 <= s && s * chunk <= nb < s * chunk + chunk) by (nonlinear_arith)
        requires
            nb == chunk * s + nb % chunk,
            0 <= nb % chunk < chunk,
            s == nb / chunk,
            0 <= nb,
            chunk >= 1,
    ;
    assert(s < per_row) by (nonlinear_arith)
        requires
            s * chunk <= nb < blocks,
            blocks == chunk * q + blocks % chunk,
            0 <= blocks % chunk < chunk,
            chunk >= 1,
            per_row == (if blocks % chunk == 0 {
                q
            } else {
                q + 1
            }),
    ;
    let t = r * per_row + s;
    lemma_div_mod_of(r, s, per_row);
    assert(0 <= t < rows * per_row) by (nonlinear_arith)
        requires
            0 <= r < rows,
            0 <= s < per_row,
            t == r * per_row + s,
    ;
    assert forall|u: int|
        0 <= u < rows * per_row && #[trigger] task_covers(
            task_at(blocks, chunk, u / per_row, u % per_row),
            m,
            n,
            i,
            j,
        ) implies u == t by {
        let ur = u / per_row;
        let us = u % per_row;
        crate::quantized::gemm::lemma_task_ok(m, n, chunk, u);
        vstd::arithmetic::div_mod::lemma_fundamental_div_mod(u, per_row);
        assert(us * chunk <= nb < us * chunk + chunk);
        assert(us == s) by (nonlinear_arith)
            requires
                us * chunk <= nb < us * chunk + chunk,
                s * chunk <= nb < s * chunk + chunk,
                chunk >= 1,
        ;
        assert(ur == r);
        assert(per_row * ur == r * per_row) by (nonlinear_arith)
            requires
                ur == r,
        ;
    }
    t
}

/// Lowering the activations by 128 lowers the product of a tile column by 128 times its sum.
pub proof fn law_signed_tile_product(a: Seq<u8>, a0: int, b: Seq<i8>, j: int, kc: int)
    ensures
        dot_signed(a, a0, b, j, kc) == dot_unsigned(a, a0, b, j, kc) - 128 * sum_range(
            |p: int| b[tile_index(p, j)] as int,
            0,
            kc,
        ),
{
    let f = |p: int| a[a0 + p] * b[tile_index(p, j)];
    let h = |p: int| (a[a0 + p] - 128) * b[tile_index(p, j)];
    let w = |p: int| b[tile_index(p, j)] as int;
    assert forall|p: int| 0 <= p < kc implies #[trigger] h(p) == f(p) - 128 * w(p) by {
        let x = a[a0 + p] as int;
        let y = b[tile_index(p, j)] as int;
        assert((x - 128) * y == x * y - 128 * y) by (nonlinear_arith);
    }
    lemma_sum_combine(h, f, 128, w, 0, kc);
}

} // verus!
