//! Quantized matrix multiplication: real-valued activations are quantized row by row, multiplied
//! with packed 8-bit weights in 32-bit integers, and scaled back.

use crate::arith::{
    lemma_div_mod_of, lemma_position, lemma_wrap_add, lemma_wrap_mul, lemma_wrap_sub,
    lemma_wrapping_ops, wrap32,
};
use crate::blocks::{block_count, block_len, count_blocks};
use crate::parallel::{current_num_threads, par_map};
use crate::quantized::block::{
    area_added, area_values, col_end, in_area, lemma_area_ranges, lemma_area_union, lemma_no_area,
    lemma_no_range, position_sum, process_kb_block, process_m_block, product_sum, OutputView,
    SimdFlags,
};
use crate::quantized::pack::PackedBMatrixI8;
use crate::quantized::quantize::{
    quantize_a_per_row_into_no_offsets, quantized_bytes, row_scale, row_scales, row_zero_point,
    row_zero_points,
};
use crate::quantized::tile::{KCB, MCB, NR};
use crate::scalar::Activation;
use vstd::prelude::*;

verus! {

/// Buffers for quantized matrix multiplication that can be used again from call to call.
pub struct I8GemmScratch<T> {
    a_u8: Vec<u8>,
    a_scales: Vec<T>,
    a_zero_points: Vec<i32>,
    c_i32: Vec<i32>,
}

impl<T> I8GemmScratch<T> {
    /// The quantized activations of the last call.
    pub closed spec fn bytes(&self) -> Seq<u8> {
        self.a_u8@
    }

    /// The row scales of the last call.
    pub closed spec fn scales(&self) -> Seq<T> {
        self.a_scales@
    }

    /// The row zero points of the last call.
    pub closed spec fn zero_points(&self) -> Seq<i32> {
        self.a_zero_points@
    }

    /// The integer product of the last call.
    pub closed spec fn sums(&self) -> Seq<i32> {
        self.c_i32@
    }

    /// Empty buffers.
    pub fn new() -> (r: I8GemmScratch<T>)
        ensures
            r.bytes() == Seq::<u8>::empty(),
            r.scales() == Seq::<T>::empty(),
            r.zero_points() == Seq::<i32>::empty(),
            r.sums() == Seq::<i32>::empty(),
    {
        I8GemmScratch {
            a_u8: Vec::new(),
            a_scales: Vec::new(),
            a_zero_points: Vec::new(),
            c_i32: Vec::new(),
        }
    }
}

/// The 32-bit product of row `i` of the quantized activations and column `j` of the weights.
pub open spec fn raw_sum(
    flags: SimdFlags,
    a: Seq<u8>,
    b: &PackedBMatrixI8,
    i: int,
    j: int,
) -> i32 {
    wrap32(product_sum(flags.kind(), a, b, i, j, 0, b.spec_k()))
}

/// All 32-bit products of `m` rows of quantized activations.
pub open spec fn raw_sums(
    flags: SimdFlags,
    a: Seq<u8>,
    b: &PackedBMatrixI8,
    m: int,
) -> Seq<i32> {
    Seq::new(
        (m * b.spec_n()) as nat,
        |x: int| raw_sum(flags, a, b, x / b.spec_n(), x % b.spec_n()),
    )
}

/// A product corrected, in 32-bit arithmetic, for the zero point of its row.
pub open spec fn adjusted_sum(flags: SimdFlags, raw: i32, zero_point: i32, col_offset: i32) -> i32 {
    wrap32(raw - flags.spec_effective_zp(zero_point as int) * col_offset)
}

/// A product corrected for the zero point of its row and scaled back.
pub open spec fn dequantized<T: Activation>(
    flags: SimdFlags,
    raw: i32,
    zero_point: i32,
    col_offset: i32,
    a_scale: T,
    b_scale: T,
) -> T {
    T::spec_from_i32(adjusted_sum(flags, raw, zero_point, col_offset)).spec_times(
        a_scale.spec_times(b_scale),
    )
}

/// The element in row `i` and column `j` of the quantized product of the M×K activations `a` and
/// the packed weights `b`.
pub open spec fn i8gemm_entry<T: Activation>(
    flags: SimdFlags,
    a: Seq<T>,
    m: int,
    b: &PackedBMatrixI8,
    b_scale: T,
    i: int,
    j: int,
) -> T {
    dequantized(
        flags,
        raw_sum(flags, quantized_bytes(a, m, b.spec_k()), b, i, j),
        row_zero_point(a, b.spec_k(), i),
        b.spec_col_offsets()[j],
        row_scale(a, b.spec_k(), i),
        b_scale,
    )
}

/// The output `after` holds the quantized product in its first `m * n` elements and is `before`
/// elsewhere.
pub open spec fn i8gemm_output<T: Activation>(
    before: Seq<T>,
    after: Seq<T>,
    flags: SimdFlags,
    a: Seq<T>,
    m: int,
    b: &PackedBMatrixI8,
    b_scale: T,
) -> bool {
    &&& after.len() == before.len()
    &&& forall|x: int|
        0 <= x < before.len() ==> #[trigger] after[x] == (if x < m * b.spec_n() {
            i8gemm_entry(flags, a, m, b, b_scale, x / b.spec_n(), x % b.spec_n())
        } else {
            before[x]
        })
}

/// The buffers hold the quantized activations and the integer product of a call.
pub open spec fn scratch_filled<T: Activation>(
    scratch: &I8GemmScratch<T>,
    flags: SimdFlags,
    a: Seq<T>,
    m: int,
    b: &PackedBMatrixI8,
) -> bool {
    &&& scratch.bytes() == quantized_bytes(a, m, b.spec_k())
    &&& scratch.scales() == row_scales(a, m, b.spec_k())
    &&& scratch.zero_points() == row_zero_points(a, m, b.spec_k())
    &&& scratch.sums() == raw_sums(flags, quantized_bytes(a, m, b.spec_k()), b, m)
}

/// Zeros to which the products of all rows and columns were added hold the products.
proof fn lemma_whole_area(
    before: Seq<i32>,
    after: Seq<i32>,
    flags: SimdFlags,
    a: Seq<u8>,
    b: &PackedBMatrixI8,
    n: usize,
    m: int,
)
    requires
        n == b.spec_n(),
        0 <= m,
        before.len() == m * n,
        forall|x: int| 0 <= x < before.len() ==> #[trigger] before[x] == 0,
        area_added(
            before,
            after,
            flags,
            a,
            b,
            OutputView { row0: 0, col0: 0, ld: n },
            0,
            m,
            0,
            n as int,
            0,
            b.spec_k(),
        ),
    ensures
        after == raw_sums(flags, a, b, m),
{
    reveal(area_values);
    assert forall|x: int| 0 <= x < after.len() implies #[trigger] after[x] == raw_sums(
        flags,
        a,
        b,
        m,
    )[x] by {
        lemma_position(x, m, n as int);
        assert(before[x] == 0);
    }
    assert(after =~= raw_sums(flags, a, b, m));
}

/// Computes the integer product, one block of rows after the other.
fn accumulate(
    m: usize,
    a_u8: &[u8],
    packed_b: &PackedBMatrixI8,
    c: &mut Vec<i32>,
    flags: SimdFlags,
)
    requires
        packed_b.wf(),
        m * packed_b.spec_k() <= a_u8@.len(),
        m * packed_b.spec_n() <= usize::MAX,
    ensures
        final(c)@ == raw_sums(flags, a_u8@, packed_b, m as int),
{
    let k = packed_b.k();
    let n = packed_b.n();
    c.clear();
    c.resize(m * n, 0);
    let ghost c0 = c@;
    let ghost view = OutputView { row0: 0, col0: 0, ld: n };
    let mut mb_start: usize = 0;
    proof {
        lemma_no_area(c0, flags, a_u8@, packed_b, view, 0, 0, 0, n as int, 0, k as int);
    }
    while mb_start < m
        invariant
            packed_b.wf(),
            k == packed_b.spec_k(),
            n == packed_b.spec_n(),
            m * k <= a_u8@.len(),
            view == (OutputView { row0: 0, col0: 0, ld: n }),
            mb_start <= m,
            c0.len() == m * n,
            area_added(
                c0,
                c@,
                flags,
                a_u8@,
                packed_b,
                view,
                0,
                mb_start as int,
                0,
                n as int,
                0,
                k as int,
            ),
        decreases m - mb_start,
    {
        let mc: usize = if m - mb_start < MCB {
            m - mb_start
        } else {
            MCB
        };
        let ghost c1 = c@;
        proof {
            assert((mb_start + mc) * k <= m * k) by (nonlinear_arith)
                requires
                    mb_start + mc <= m,
                    0 <= k,
            ;
            assert((mb_start + mc) * n <= m * n) by (nonlinear_arith)
                requires
                    mb_start + mc <= m,
                    0 <= n,
            ;
        }
        process_m_block(mb_start, mc, a_u8, k, n, packed_b, c, flags);
        proof {
            lemma_area_union(
                c0,
                c1,
                c@,
                flags,
                a_u8@,
                packed_b,
                view,
                0,
                mb_start as int,
                mb_start + mc,
                0,
                n as int,
                n as int,
                0,
                k as int,
            );
        }
        mb_start += mc;
    }
    proof {
        lemma_whole_area(c0, c@, flags, a_u8@, packed_b, n, m as int);
    }
}

/// Scales the integer product back: subtracts the zero point of each row times the sum of each
/// column and multiplies with the scales.
pub fn dequantize_per_row<T: Activation>(
    m: usize,
    n: usize,
    c_i32: &[i32],
    c_out: &mut [T],
    a_scales: &[T],
    b_scale: T,
    a_zero_points: &[i32],
    col_offsets: &[i32],
    flags: SimdFlags,
)
    requires
        m * n <= c_i32@.len(),
        m * n <= old(c_out)@.len(),
        a_scales@.len() == m,
        a_zero_points@.len() == m,
        n <= col_offsets@.len(),
    ensures
        final(c_out)@.len() == old(c_out)@.len(),
        forall|x: int|
            0 <= x < old(c_out)@.len() ==> #[trigger] final(c_out)@[x] == (if x < m * n {
                dequantized(
                    flags,
                    c_i32@[x],
                    a_zero_points@[x / (n as int)],
                    col_offsets@[x % (n as int)],
                    a_scales@[x / (n as int)],
                    b_scale,
                )
            } else {
                old(c_out)@[x]
            }),
{
    let ghost c0 = c_out@;
    assert(0 * n == 0) by (nonlinear_arith);
    for i in 0..m
        invariant
            m * n <= c_i32.len(),
            m * n <= c_out@.len(),
            a_scales@.len() == m,
            a_zero_points@.len() == m,
            n <= col_offsets@.len(),
            c_out@.len() == c0.len(),
            forall|x: int|
                0 <= x < c0.len() ==> #[trigger] c_out@[x] == (if x < i * n {
                    dequantized(
                        flags,
                        c_i32@[x],
                        a_zero_points@[x / (n as int)],
                        col_offsets@[x % (n as int)],
                        a_scales@[x / (n as int)],
                        b_scale,
                    )
                } else {
                    c0[x]
                }),
    {
        let output_scale = a_scales[i].times(b_scale);
        let effective_zp: i32 = flags.effective_zp(a_zero_points[i]);
        proof {
            assert(i * n + n <= m * n && 0 <= i * n) by (nonlinear_arith)
                requires
                    0 <= i < m,
                    0 <= n,
            ;
            assert((i + 1) * n == i * n + n) by (nonlinear_arith);
        }
        for j in 0..n
            invariant
                i < m,
                i * n + n <= m * n,
                m * n <= c_i32.len(),
                m * n <= c_out@.len(),
                a_scales@.len() == m,
                a_zero_points@.len() == m,
                n <= col_offsets@.len(),
                c_out@.len() == c0.len(),
                output_scale == a_scales@[i as int].spec_times(b_scale),
                effective_zp == wrap32(flags.spec_effective_zp(a_zero_points@[i as int] as int)),
                forall|x: int|
                    0 <= x < c0.len() ==> #[trigger] c_out@[x] == (if x < i * n + j {
                        dequantized(
                            flags,
                            c_i32@[x],
                            a_zero_points@[x / (n as int)],
                            col_offsets@[x % (n as int)],
                            a_scales@[x / (n as int)],
                            b_scale,
                        )
                    } else {
                        c0[x]
                    }),
        {
            let raw: i32 = c_i32[i * n + j];
            let offset: i32 = col_offsets[j];
            let correction: i32 = effective_zp.wrapping_mul(offset);
            let adjusted: i32 = raw.wrapping_sub(correction);
            proof {
                let zp = flags.spec_effective_zp(a_zero_points@[i as int] as int);
                lemma_div_mod_of(i as int, j as int, n as int);
                lemma_wrapping_ops(effective_zp, offset);
                lemma_wrap_mul(zp, offset as int);
                lemma_wrapping_ops(raw, correction);
                lemma_wrap_sub(zp * offset, raw as int);
                assert(adjusted == adjusted_sum(
                    flags,
                    raw,
                    a_zero_points@[i as int],
                    offset,
                ));
            }
            c_out[i * n + j] = T::from_i32(adjusted).times(output_scale);
        }
    }
}

/// Scales back the integer product in `scratch`.
fn finish<T: Activation>(
    m: usize,
    a: &[T],
    packed_b: &PackedBMatrixI8,
    b_scale: T,
    c_out: &mut [T],
    scratch: &I8GemmScratch<T>,
    flags: SimdFlags,
)
    requires
        packed_b.wf(),
        m * packed_b.spec_n() <= old(c_out)@.len(),
        scratch_filled(scratch, flags, a@, m as int, packed_b),
    ensures
        i8gemm_output(
            old(c_out)@,
            final(c_out)@,
            flags,
            a@,
            m as int,
            packed_b,
            b_scale,
        ),
{
    let n = packed_b.n();
    proof {
        packed_b.lemma_wf();
    }
    let ghost c0 = c_out@;
    dequantize_per_row(
        m,
        n,
        &scratch.c_i32,
        c_out,
        &scratch.a_scales,
        b_scale,
        &scratch.a_zero_points,
        packed_b.col_offsets(),
        flags,
    );
    proof {
        assert forall|x: int| 0 <= x < c0.len() && x < m * n implies #[trigger] c_out@[x]
            == i8gemm_entry(
            flags,
            a@,
            m as int,
            packed_b,
            b_scale,
            x / (n as int),
            x % (n as int),
        ) by {
            lemma_position(x, m as int, n as int);
        }
    }
}

/// Multiplies activations with packed weights: quantizes each row of the M×K matrix `a`,
/// multiplies in 32-bit integers and scales back into the M×N matrix `c_out`.
pub fn i8gemm_compute<T: Activation>(
    m: usize,
    a: &[T],
    packed_b: &PackedBMatrixI8,
    b_scale: T,
    c_out: &mut [T],
    flags: SimdFlags,
)
    requires
        packed_b.wf(),
        m * packed_b.spec_k() <= a@.len(),
        m * packed_b.spec_n() <= old(c_out)@.len(),
    ensures
        i8gemm_output(
            old(c_out)@,
            final(c_out)@,
            flags,
            a@,
            m as int,
            packed_b,
            b_scale,
        ),
{
    let mut scratch: I8GemmScratch<T> = I8GemmScratch::new();
    i8gemm_compute_with_scratch(m, a, packed_b, b_scale, c_out, &mut scratch, flags);
}

/// Like [`i8gemm_compute`], with buffers of the caller.
pub fn i8gemm_compute_with_scratch<T: Activation>(
    m: usize,
    a: &[T],
    packed_b: &PackedBMatrixI8,
    b_scale: T,
    c_out: &mut [T],
    scratch: &mut I8GemmScratch<T>,
    flags: SimdFlags,
)
    requires
        packed_b.wf(),
        m * packed_b.spec_k() <= a@.len(),
        m * packed_b.spec_n() <= old(c_out)@.len(),
    ensures
        i8gemm_output(
            old(c_out)@,
            final(c_out)@,
            flags,
            a@,
            m as int,
            packed_b,
            b_scale,
        ),
        scratch_filled(final(scratch), flags, a@, m as int, packed_b),
{
    let k = packed_b.k();
    quantize_a_per_row_into_no_offsets(
        a,
        m,
        k,
        &mut scratch.a_u8,
        &mut scratch.a_scales,
        &mut scratch.a_zero_points,
    );
    assert(c_out.len() == c_out@.len());
    accumulate(m, &scratch.a_u8, packed_b, &mut scratch.c_i32, flags);
    finish(m, a, packed_b, b_scale, c_out, scratch, flags);
}

/// A part of the output that one thread computes: a block of rows from `mb_start` on and the
/// column tiles `nb_start .. nb_end`.
#[derive(Clone, Copy)]
pub struct TileTask {
    pub mb_start: usize,
    pub nb_start: usize,
    pub nb_end: usize,
}

/// The number of column tiles that one task covers: tiles are shared out to `threads` threads
/// when a SIMD kernel handles all of them, and stay together otherwise.
pub open spec fn chunk_blocks(flags: SimdFlags, n: int, threads: int) -> int {
    let blocks = block_count(n, 8);
    let split = flags.spec_use_simd() && n % 8 == 0 && blocks > 1;
    let chunks = if !split {
        1
    } else if threads < blocks {
        threads
    } else {
        blocks
    };
    block_count(blocks, chunks)
}

/// The task for row block `r` and column chunk `s`.
pub open spec fn task_at(blocks: int, chunk: int, r: int, s: int) -> TileTask {
    TileTask {
        mb_start: (r * 120) as usize,
        nb_start: (s * chunk) as usize,
        nb_end: (if s * chunk + chunk < blocks {
            s * chunk + chunk
        } else {
            blocks
        }) as usize,
    }
}

/// Chooses how many column tiles one task covers.
fn choose_chunk(flags: SimdFlags, n: usize, num_n_blocks: usize, threads: usize) -> (r: usize)
    requires
        threads >= 1,
        num_n_blocks == block_count(n as int, 8),
    ensures
        r == chunk_blocks(flags, n as int, threads as int),
        r <= num_n_blocks,
        num_n_blocks > 0 ==> r > 0,
{
    let split_n_blocks = flags.use_simd() && n % NR == 0 && num_n_blocks > 1;
    let n_chunks: usize = if split_n_blocks {
        if threads < num_n_blocks {
            threads
        } else {
            num_n_blocks
        }
    } else {
        1
    };
    count_blocks(num_n_blocks, n_chunks)
}

/// Lists the tasks: row block by row block, and within one from the first column chunk on.
pub fn tile_tasks(m: usize, num_n_blocks: usize, chunk: usize) -> (tasks: Vec<TileTask>)
    requires
        chunk >= 1,
    ensures
        tasks@.len() == block_count(m as int, 120) * block_count(num_n_blocks as int, chunk as int),
        forall|t: int|
            0 <= t < tasks@.len() ==> #[trigger] tasks@[t] == task_at(
                num_n_blocks as int,
                chunk as int,
                t / block_count(num_n_blocks as int, chunk as int),
                t % block_count(num_n_blocks as int, chunk as int),
            ),
{
    let row_blocks = count_blocks(m, MCB);
    let per_row = count_blocks(num_n_blocks, chunk);
    let mut tasks: Vec<TileTask> = Vec::new();
    assert(0 * per_row == 0) by (nonlinear_arith);
    for r in 0..row_blocks
        invariant
            chunk >= 1,
            row_blocks == block_count(m as int, 120),
            (row_blocks > 0 ==> (row_blocks - 1) * 120 < m),
            per_row == block_count(num_n_blocks as int, chunk as int),
            (per_row > 0 ==> (per_row - 1) * chunk < num_n_blocks),
            tasks@.len() == r * per_row,
            forall|t: int|
                0 <= t < tasks@.len() ==> #[trigger] tasks@[t] == task_at(
                    num_n_blocks as int,
                    chunk as int,
                    t / (per_row as int),
                    t % (per_row as int),
                ),
    {
        for s in 0..per_row
            invariant
                chunk >= 1,
                r < row_blocks,
                (row_blocks > 0 ==> (row_blocks - 1) * 120 < m),
                (per_row > 0 ==> (per_row - 1) * chunk < num_n_blocks),
                tasks@.len() == r * per_row + s,
                forall|t: int|
                    0 <= t < tasks@.len() ==> #[trigger] tasks@[t] == task_at(
                        num_n_blocks as int,
                        chunk as int,
                        t / (per_row as int),
                        t % (per_row as int),
                    ),
        {
            proof {
                lemma_div_mod_of(r as int, s as int, per_row as int);
                assert(s * chunk <= (per_row - 1) * chunk && 0 <= s * chunk) by (nonlinear_arith)
                    requires
                        0 <= s <= per_row - 1,
                        chunk >= 1,
                ;
            }
            let nb_start: usize = s * chunk;
            let nb_end: usize = if chunk < num_n_blocks - nb_start {
                nb_start + chunk
            } else {
                num_n_blocks
            };
            tasks.push(TileTask { mb_start: r * MCB, nb_start, nb_end });
        }
        assert((r + 1) * per_row == r * per_row + per_row) by (nonlinear_arith);
    }
    tasks
}

/// The rows that a task covers.
pub open spec fn task_rows(m: int, task: TileTask) -> int {
    if m - task.mb_start < 120 {
        m - task.mb_start
    } else {
        120
    }
}

/// The columns that a task covers.
pub open spec fn task_cols(n: int, task: TileTask) -> int {
    col_end(task.nb_end as int, n) - task.nb_start * 8
}

/// A task lies within the output and covers at least one element.
pub open spec fn task_ok(m: int, n: int, task: TileTask) -> bool {
    &&& task.mb_start < m
    &&& task.nb_start < task.nb_end <= block_count(n, 8)
}

/// `tile` holds the products over `lo <= p < hi` for the rows and columns of a task.
spec fn tile_computed(
    tile: Seq<i32>,
    task: TileTask,
    m: int,
    flags: SimdFlags,
    a: Seq<u8>,
    b: &PackedBMatrixI8,
    lo: int,
    hi: int,
) -> bool {
    let v = OutputView {
        row0: task.mb_start,
        col0: (task.nb_start * 8) as usize,
        ld: task_cols(b.spec_n(), task) as usize,
    };
    &&& tile.len() == task_rows(m, task) * task_cols(b.spec_n(), task)
    &&& forall|x: int|
        0 <= x < tile.len() ==> #[trigger] tile[x] == wrap32(
            position_sum(flags, a, b, v, lo, hi, x),
        )
}

/// Computes the products of K block `kb` for one task.
fn compute_tile(
    task: TileTask,
    m: usize,
    kb: usize,
    kc: usize,
    a_u8: &[u8],
    packed_b: &PackedBMatrixI8,
    flags: SimdFlags,
) -> (tile: Vec<i32>)
    requires
        packed_b.wf(),
        task_ok(m as int, packed_b.spec_n(), task),
        kb < block_count(packed_b.spec_k(), 512),
        kc == block_len(packed_b.spec_k(), 512, kb as int),
        m * packed_b.spec_k() <= a_u8@.len(),
        m * packed_b.spec_n() <= usize::MAX,
    ensures
        tile_computed(
            tile@,
            task,
            m as int,
            flags,
            a_u8@,
            packed_b,
            kb * 512,
            kb * 512 + kc,
        ),
{
    let k = packed_b.k();
    let n = packed_b.n();
    let mc: usize = if m - task.mb_start < MCB {
        m - task.mb_start
    } else {
        MCB
    };
    let col0: usize = task.nb_start * NR;
    let width: usize = if task.nb_end - task.nb_start <= (n - col0) / NR {
        (task.nb_end - task.nb_start) * NR
    } else {
        n - col0
    };
    let view = OutputView { row0: task.mb_start, col0, ld: width };
    proof {
        assert(mc * width <= m * n) by (nonlinear_arith)
            requires
                0 <= mc <= m,
                0 <= width <= n,
        ;
        assert((task.mb_start + mc) * k <= m * k) by (nonlinear_arith)
            requires
                task.mb_start + mc <= m,
                0 <= k,
        ;
    }
    let mut tile: Vec<i32> = vec![0i32; mc * width];
    let ghost zeros = tile@;
    process_kb_block(
        task.mb_start,
        mc,
        kb,
        kc,
        a_u8,
        k,
        n,
        task.nb_start,
        task.nb_end,
        packed_b,
        &mut tile,
        view,
        flags,
    );
    proof {
        reveal(area_values);
        assert forall|x: int| 0 <= x < tile@.len() implies #[trigger] tile@[x] == wrap32(
            position_sum(flags, a_u8@, packed_b, view, kb * 512, kb * 512 + kc, x),
        ) by {
            lemma_position(x, mc as int, width as int);
            assert(zeros[x] == 0);
        }
    }
    tile
}

/// Adds a tile to the rows from `mb_start` on and the columns from `col0` on of the output.
fn merge_tile(
    c: &mut Vec<i32>,
    tile: &Vec<i32>,
    mb_start: usize,
    mc: usize,
    col0: usize,
    width: usize,
    n: usize,
)
    requires
        tile@.len() == mc * width,
        col0 + width <= n,
        (mb_start + mc) * n <= old(c)@.len(),
        0 < width,
    ensures
        final(c)@.len() == old(c)@.len(),
        forall|x: int|
            0 <= x < old(c)@.len() ==> #[trigger] final(c)@[x] == (if in_area(
                OutputView { row0: 0, col0: 0, ld: n },
                mb_start as int,
                mb_start + mc,
                col0 as int,
                col0 + width,
                x,
            ) {
                wrap32(
                    old(c)@[x] + tile@[(x / (n as int) - mb_start) * width + (x % (n as int)
                        - col0)],
                )
            } else {
                old(c)@[x]
            }),
{
    let ghost c0 = c@;
    let ghost v = OutputView { row0: 0, col0: 0, ld: n };
    for r in 0..mc
        invariant
            v == (OutputView { row0: 0, col0: 0, ld: n }),
            tile@.len() == mc * width,
            col0 + width <= n,
            (mb_start + mc) * n <= c@.len(),
            0 < width,
            c@.len() == c0.len(),
            forall|x: int|
                0 <= x < c0.len() ==> #[trigger] c@[x] == (if in_area(
                    v,
                    mb_start as int,
                    mb_start + r,
                    col0 as int,
                    col0 + width,
                    x,
                ) {
                    wrap32(
                        c0[x] + tile@[(x / (n as int) - mb_start) * width + (x % (n as int)
                            - col0)],
                    )
                } else {
                    c0[x]
                }),
    {
        proof {
            assert((mb_start + r) * n + n <= (mb_start + mc) * n && 0 <= (mb_start + r) * n)
                by (nonlinear_arith)
                requires
                    0 <= r < mc,
                    0 <= mb_start,
                    0 <= n,
            ;
            assert(r * width + width <= mc * width && 0 <= r * width) by (nonlinear_arith)
                requires
                    0 <= r < mc,
                    0 < width,
            ;
            assert(mb_start + r <= (mb_start + r) * n) by (nonlinear_arith)
                requires
                    n >= 1,
                    0 <= mb_start + r,
            ;
            assert(c.len() == c@.len());
            assert(tile.len() == tile@.len());
        }
        for j in 0..width
            invariant
                v == (OutputView { row0: 0, col0: 0, ld: n }),
                r < mc,
                mb_start + r <= usize::MAX,
                tile@.len() == mc * width,
                0 <= r * width,
                r * width + width <= tile.len(),
                col0 + width <= n,
                0 <= (mb_start + r) * n,
                (mb_start + r) * n + n <= c.len(),
                0 < width,
                c@.len() == c0.len(),
                forall|x: int|
                    0 <= x < c0.len() ==> #[trigger] c@[x] == (if in_area(
                        v,
                        mb_start as int,
                        mb_start + r,
                        col0 as int,
                        col0 + width,
                        x,
                    ) || in_area(
                        v,
                        mb_start + r,
                        mb_start + r + 1,
                        col0 as int,
                        col0 + j,
                        x,
                    ) {
                        wrap32(
                            c0[x] + tile@[(x / (n as int) - mb_start) * width + (x % (n as int)
                                - col0)],
                        )
                    } else {
                        c0[x]
                    }),
        {
            let at: usize = (mb_start + r) * n + (col0 + j);
            let t: i32 = tile[r * width + j];
            let v0: i32 = c[at];
            proof {
                lemma_div_mod_of(mb_start + r, col0 + j, n as int);
                lemma_wrapping_ops(v0, t);
                assert forall|x: int|
                    #![trigger c0[x]]
                    0 <= x < c0.len() && x / (n as int) == mb_start + r && x % (n as int) == col0
                        + j implies x == at by {
                    vstd::arithmetic::div_mod::lemma_fundamental_div_mod(x, n as int);
                    assert(n * (mb_start + r) == (mb_start + r) * n) by (nonlinear_arith);
                }
            }
            c.set(at, v0.wrapping_add(t));
        }
    }
}

/// Merging the tile of a task adds its products to the output.
proof fn lemma_merged(
    before: Seq<i32>,
    after: Seq<i32>,
    tile: Seq<i32>,
    task: TileTask,
    m: int,
    n: usize,
    flags: SimdFlags,
    a: Seq<u8>,
    b: &PackedBMatrixI8,
    lo: int,
    hi: int,
)
    requires
        b.wf(),
        n == b.spec_n(),
        task_ok(m, n as int, task),
        tile_computed(tile, task, m, flags, a, b, lo, hi),
        after.len() == before.len(),
        forall|x: int|
            0 <= x < before.len() ==> #[trigger] after[x] == (if in_area(
                OutputView { row0: 0, col0: 0, ld: n },
                task.mb_start as int,
                task.mb_start + task_rows(m, task),
                task.nb_start * 8,
                task.nb_start * 8 + task_cols(n as int, task),
                x,
            ) {
                wrap32(
                    before[x] + tile[(x / (n as int) - task.mb_start) * task_cols(n as int, task)
                        + (x % (n as int) - task.nb_start * 8)],
                )
            } else {
                before[x]
            }),
    ensures
        area_added(
            before,
            after,
            flags,
            a,
            b,
            OutputView { row0: 0, col0: 0, ld: n },
            task.mb_start as int,
            task.mb_start + task_rows(m, task),
            task.nb_start * 8,
            col_end(task.nb_end as int, n as int),
            lo,
            hi,
        ),
{
    reveal(area_values);
    let v = OutputView { row0: 0, col0: 0, ld: n };
    let w = task_cols(n as int, task);
    let local = OutputView {
        row0: task.mb_start,
        col0: (task.nb_start * 8) as usize,
        ld: w as usize,
    };
    assert forall|x: int| 0 <= x < before.len() && in_area(
        v,
        task.mb_start as int,
        task.mb_start + task_rows(m, task),
        task.nb_start * 8,
        task.nb_start * 8 + w,
        x,
    ) implies #[trigger] after[x] == wrap32(
        before[x] + position_sum(flags, a, b, v, lo, hi, x),
    ) by {
        let r = x / (n as int) - task.mb_start;
        let j = x % (n as int) - task.nb_start * 8;
        lemma_div_mod_of(r, j, w);
        assert(0 <= r * w + j < task_rows(m, task) * w) by (nonlinear_arith)
            requires
                0 <= r < task_rows(m, task),
                0 <= j < w,
        ;
        assert(tile[r * w + j] == wrap32(position_sum(flags, a, b, local, lo, hi, r * w + j)));
        lemma_wrap_add(position_sum(flags, a, b, v, lo, hi, x), before[x] as int);
    }
}

/// Adds the products of K block `kb` to all rows and columns of the output, one task per thread
/// at a time.
fn add_kb_block_par(
    m: usize,
    kb: usize,
    kc: usize,
    a_u8: &[u8],
    k: usize,
    n: usize,
    packed_b: &PackedBMatrixI8,
    c: &mut Vec<i32>,
    chunk: usize,
    flags: SimdFlags,
)
    requires
        packed_b.wf(),
        chunk >= 1,
        k == packed_b.spec_k(),
        n == packed_b.spec_n(),
        n > 0,
        kb < block_count(k as int, 512),
        kc == block_len(k as int, 512, kb as int),
        m * k <= a_u8@.len(),
        m * n == old(c)@.len(),
        m * n <= usize::MAX,
    ensures
        area_added(
            old(c)@,
            final(c)@,
            flags,
            a_u8@,
            packed_b,
            OutputView { row0: 0, col0: 0, ld: n },
            0,
            m as int,
            0,
            n as int,
            kb * 512,
            kb * 512 + kc,
        ),
{
    let num_n_blocks = packed_b.num_n_blocks();
    let tasks = tile_tasks(m, num_n_blocks, chunk);
    let row_blocks = count_blocks(m, MCB);
    let per_row = count_blocks(num_n_blocks, chunk);
    let ghost lo = kb * 512;
    let ghost hi = kb * 512 + kc;
    let ghost view = OutputView { row0: 0, col0: 0, ld: n };
    let f = |task: &TileTask| -> (tile: Vec<i32>)
        requires
            task_ok(m as int, packed_b.spec_n(), *task),
        ensures
            tile_computed(tile@, *task, m as int, flags, a_u8@, packed_b, lo, hi),
        { compute_tile(*task, m, kb, kc, a_u8, packed_b, flags) };
    proof {
        assert forall|t: int| 0 <= t < tasks@.len() implies task_ok(
            m as int,
            n as int,
            #[trigger] tasks@[t],
        ) by {
            lemma_task_ok(m as int, n as int, chunk as int, t);
        }
    }
    let tiles = par_map(&tasks, f);
    let ghost c0 = c@;
    proof {
        lemma_no_area(c0, flags, a_u8@, packed_b, view, 0, 0, 0, n as int, lo, hi);
    }
    for r in 0..row_blocks
        invariant
            packed_b.wf(),
            n == packed_b.spec_n(),
            n > 0,
            chunk >= 1,
            view == (OutputView { row0: 0, col0: 0, ld: n }),
            num_n_blocks == block_count(n as int, 8),
            row_blocks == block_count(m as int, 120),
            per_row == block_count(num_n_blocks as int, chunk as int),
            tasks@.len() == row_blocks * per_row,
            tiles@.len() == tasks@.len(),
            forall|t: int|
                0 <= t < tasks@.len() ==> #[trigger] tasks@[t] == task_at(
                    num_n_blocks as int,
                    chunk as int,
                    t / (per_row as int),
                    t % (per_row as int),
                ),
            forall|t: int|
                0 <= t < tiles@.len() ==> tile_computed(
                    (#[trigger] tiles@[t])@,
                    tasks@[t],
                    m as int,
                    flags,
                    a_u8@,
                    packed_b,
                    lo,
                    hi,
                ),
            m * n == c@.len(),
            m * n <= usize::MAX,
            area_added(
                c0,
                c@,
                flags,
                a_u8@,
                packed_b,
                view,
                0,
                if r * 120 < m {
                    r * 120
                } else {
                    m as int
                },
                0,
                n as int,
                lo,
                hi,
            ),
    {
        let ghost c1 = c@;
        assert(0 * chunk == 0) by (nonlinear_arith);
        proof {
            lemma_no_area(
                c1,
                flags,
                a_u8@,
                packed_b,
                view,
                r * 120,
                if r * 120 + 120 < m {
                    r * 120 + 120
                } else {
                    m as int
                },
                0,
                0,
                lo,
                hi,
            );
        }
        for s in 0..per_row
            invariant
                packed_b.wf(),
                n == packed_b.spec_n(),
                n > 0,
                chunk >= 1,
                r < row_blocks,
                r * 120 < m,
                view == (OutputView { row0: 0, col0: 0, ld: n }),
                num_n_blocks == block_count(n as int, 8),
                row_blocks == block_count(m as int, 120),
                per_row == block_count(num_n_blocks as int, chunk as int),
                tasks@.len() == row_blocks * per_row,
                tiles@.len() == tasks@.len(),
                forall|t: int|
                    0 <= t < tasks@.len() ==> #[trigger] tasks@[t] == task_at(
                        num_n_blocks as int,
                        chunk as int,
                        t / (per_row as int),
                        t % (per_row as int),
                    ),
                forall|t: int|
                    0 <= t < tiles@.len() ==> tile_computed(
                        (#[trigger] tiles@[t])@,
                        tasks@[t],
                        m as int,
                        flags,
                        a_u8@,
                        packed_b,
                        lo,
                        hi,
                    ),
                m * n == c@.len(),
                m * n <= usize::MAX,
                c1.len() == c@.len(),
                area_added(
                    c1,
                    c@,
                    flags,
                    a_u8@,
                    packed_b,
                    view,
                    r * 120,
                    if r * 120 + 120 < m {
                        r * 120 + 120
                    } else {
                        m as int
                    },
                    0,
                    col_end(s * chunk, n as int),
                    lo,
                    hi,
                ),
        {
            let ghost c2 = c@;
            proof {
                lemma_div_mod_of(r as int, s as int, per_row as int);
                assert(r * per_row + s < row_blocks * per_row && 0 <= r * per_row)
                    by (nonlinear_arith)
                    requires
                        0 <= r < row_blocks,
                        0 <= s < per_row,
                ;
                assert(tasks.len() == tasks@.len());
                lemma_task_ok(m as int, n as int, chunk as int, r * per_row + s);
            }
            let t: usize = r * per_row + s;
            let task = tasks[t];
            let mc: usize = if m - task.mb_start < MCB {
                m - task.mb_start
            } else {
                MCB
            };
            let col0: usize = task.nb_start * NR;
            let width: usize = if task.nb_end - task.nb_start <= (n - col0) / NR {
                (task.nb_end - task.nb_start) * NR
            } else {
                n - col0
            };
            proof {
                assert((task.mb_start + mc) * n <= m * n) by (nonlinear_arith)
                    requires
                        task.mb_start + mc <= m,
                        0 <= n,
                ;
                assert((s + 1) * chunk == s * chunk + chunk) by (nonlinear_arith);
                assert(tile_computed(
                    tiles@[t as int]@,
                    task,
                    m as int,
                    flags,
                    a_u8@,
                    packed_b,
                    lo,
                    hi,
                ));
            }
            merge_tile(c, &tiles[t], task.mb_start, mc, col0, width, n);
            proof {
                lemma_merged(
                    c2,
                    c@,
                    tiles@[t as int]@,
                    task,
                    m as int,
                    n,
                    flags,
                    a_u8@,
                    packed_b,
                    lo,
                    hi,
                );
                lemma_area_union(
                    c1,
                    c2,
                    c@,
                    flags,
                    a_u8@,
                    packed_b,
                    view,
                    r * 120,
                    task.mb_start + mc,
                    task.mb_start + mc,
                    0,
                    col0 as int,
                    col_end((s + 1) * chunk, n as int),
                    lo,
                    hi,
                );
            }
        }
        proof {
            lemma_chunks_cover(n as int, chunk as int);
            lemma_area_union(
                c0,
                c1,
                c@,
                flags,
                a_u8@,
                packed_b,
                view,
                0,
                r * 120,
                if r * 120 + 120 < m {
                    r * 120 + 120
                } else {
                    m as int
                },
                0,
                n as int,
                n as int,
                lo,
                hi,
            );
        }
    }
}

/// The chunks of column tiles reach to the last column.
proof fn lemma_chunks_cover(n: int, chunk: int)
    requires
        n > 0,
        chunk >= 1,
    ensures
        block_count(block_count(n, 8), chunk) * chunk >= block_count(n, 8),
        col_end(block_count(block_count(n, 8), chunk) * chunk, n) == n,
{
    let b = block_count(n, 8);
    vstd::arithmetic::div_mod::lemma_fundamental_div_mod(b, chunk);
    let q = b / chunk;
    assert(q * chunk == chunk * q) by (nonlinear_arith);
    assert((q + 1) * chunk == q * chunk + chunk) by (nonlinear_arith);
}

/// Every listed task covers at least one element of the output.
pub(crate) proof fn lemma_task_ok(m: int, n: int, chunk: int, t: int)
    requires
        0 <= m <= usize::MAX,
        0 < n <= usize::MAX,
        1 <= chunk <= usize::MAX,
        0 <= t < block_count(m, 120) * block_count(block_count(n, 8), chunk),
    ensures
        task_ok(
            m,
            n,
            task_at(
                block_count(n, 8),
                chunk,
                t / block_count(block_count(n, 8), chunk),
                t % block_count(block_count(n, 8), chunk),
            ),
        ),
        ({
            let per_row = block_count(block_count(n, 8), chunk);
            let task = task_at(block_count(n, 8), chunk, t / per_row, t % per_row);
            &&& task.mb_start == (t / per_row) * 120
            &&& task.nb_start == (t % per_row) * chunk
        }),
{
    let b = block_count(n, 8);
    let per_row = block_count(b, chunk);
    vstd::arithmetic::div_mod::lemma_fundamental_div_mod(b, chunk);
    let q = b / chunk;
    assert(0 <= q) by (nonlinear_arith)
        requires
            q == b / chunk,
            b >= 0,
            chunk >= 1,
    ;
    assert(q * chunk == chunk * q) by (nonlinear_arith);
    assert((q - 1) * chunk == q * chunk - chunk) by (nonlinear_arith);
    lemma_position(t, block_count(m, 120), per_row);
    let s = t % per_row;
    assert(0 <= s * chunk <= (per_row - 1) * chunk) by (nonlinear_arith)
        requires
            0 <= s <= per_row - 1,
            chunk >= 1,
    ;
}

/// Computes the integer product with the K blocks in turn and the tasks of each in parallel.
fn accumulate_par(
    m: usize,
    a_u8: &[u8],
    packed_b: &PackedBMatrixI8,
    c: &mut Vec<i32>,
    flags: SimdFlags,
    threads: usize,
)
    requires
        packed_b.wf(),
        threads >= 1,
        m * packed_b.spec_k() <= a_u8@.len(),
        m * packed_b.spec_n() <= usize::MAX,
    ensures
        final(c)@ == raw_sums(flags, a_u8@, packed_b, m as int),
{
    let k = packed_b.k();
    let n = packed_b.n();
    c.clear();
    c.resize(m * n, 0);
    let ghost c0 = c@;
    let ghost view = OutputView { row0: 0, col0: 0, ld: n };
    if m == 0 || n == 0 {
        proof {
            assert(m * n == 0) by (nonlinear_arith)
                requires
                    m == 0 || n == 0,
            ;
            assert(c@ =~= raw_sums(flags, a_u8@, packed_b, m as int));
        }
        return ;
    }
    let num_k_blocks = packed_b.num_k_blocks();
    let num_n_blocks = packed_b.num_n_blocks();
    let chunk = choose_chunk(flags, n, num_n_blocks, threads);
    proof {
        lemma_no_range(c0, flags, a_u8@, packed_b, view, 0, m as int, n as int);
    }
    for kb in 0..num_k_blocks
        invariant
            packed_b.wf(),
            k == packed_b.spec_k(),
            n == packed_b.spec_n(),
            n > 0,
            chunk >= 1,
            num_k_blocks == block_count(k as int, 512),
            view == (OutputView { row0: 0, col0: 0, ld: n }),
            m * k <= a_u8@.len(),
            m * n <= usize::MAX,
            m * n == c@.len(),
            area_added(
                c0,
                c@,
                flags,
                a_u8@,
                packed_b,
                view,
                0,
                m as int,
                0,
                n as int,
                0,
                if kb * 512 < k {
                    kb * 512
                } else {
                    k as int
                },
            ),
    {
        let ghost c1 = c@;
        let k_start: usize = kb * KCB;
        let kc: usize = if k - k_start < KCB {
            k - k_start
        } else {
            KCB
        };
        add_kb_block_par(m, kb, kc, a_u8, k, n, packed_b, c, chunk, flags);
        proof {
            lemma_area_ranges(
                c0,
                c1,
                c@,
                flags,
                a_u8@,
                packed_b,
                view,
                0,
                m as int,
                0,
                n as int,
                0,
                kb * 512,
                kb * 512 + kc,
            );
        }
    }
    proof {
        lemma_whole_area(c0, c@, flags, a_u8@, packed_b, n, m as int);
    }
}

/// Like [`i8gemm_compute`], with the work shared out to the threads of the rayon pool.
pub fn i8gemm_compute_par<T: Activation>(
    m: usize,
    a: &[T],
    packed_b: &PackedBMatrixI8,
    b_scale: T,
    c_out: &mut [T],
    flags: SimdFlags,
)
    requires
        packed_b.wf(),
        m * packed_b.spec_k() <= a@.len(),
        m * packed_b.spec_n() <= old(c_out)@.len(),
    ensures
        i8gemm_output(old(c_out)@, final(c_out)@, flags, a@, m as int, packed_b, b_scale),
{
    let mut scratch: I8GemmScratch<T> = I8GemmScratch::new();
    i8gemm_compute_par_with_scratch(m, a, packed_b, b_scale, c_out, &mut scratch, flags);
}

/// Like [`i8gemm_compute_par`], with buffers of the caller.
pub fn i8gemm_compute_par_with_scratch<T: Activation>(
    m: usize,
    a: &[T],
    packed_b: &PackedBMatrixI8,
    b_scale: T,
    c_out: &mut [T],
    scratch: &mut I8GemmScratch<T>,
    flags: SimdFlags,
)
    requires
        packed_b.wf(),
        m * packed_b.spec_k() <= a@.len(),
        m * packed_b.spec_n() <= old(c_out)@.len(),
    ensures
        i8gemm_output(old(c_out)@, final(c_out)@, flags, a@, m as int, packed_b, b_scale),
        scratch_filled(final(scratch), flags, a@, m as int, packed_b),
{
    let threads = current_num_threads();
    i8gemm_compute_par_on(m, a, packed_b, b_scale, c_out, scratch, flags, threads);
}

/// Like [`i8gemm_compute_par_with_scratch`], with the work cut for the given number of threads.
///
/// The result is the same for every number of threads.
pub fn i8gemm_compute_par_on<T: Activation>(
    m: usize,
    a: &[T],
    packed_b: &PackedBMatrixI8,
    b_scale: T,
    c_out: &mut [T],
    scratch: &mut I8GemmScratch<T>,
    flags: SimdFlags,
    threads: usize,
)
    requires
        packed_b.wf(),
        threads >= 1,
        m * packed_b.spec_k() <= a@.len(),
        m * packed_b.spec_n() <= old(c_out)@.len(),
    ensures
        i8gemm_output(old(c_out)@, final(c_out)@, flags, a@, m as int, packed_b, b_scale),
        scratch_filled(final(scratch), flags, a@, m as int, packed_b),
{
    let k = packed_b.k();
    quantize_a_per_row_into_no_offsets(
        a,
        m,
        k,
        &mut scratch.a_u8,
        &mut scratch.a_scales,
        &mut scratch.a_zero_points,
    );
    assert(c_out.len() == c_out@.len());
    accumulate_par(m, &scratch.a_u8, packed_b, &mut scratch.c_i32, flags, threads);
    finish(m, a, packed_b, b_scale, c_out, scratch, flags);
}

} // verus!
