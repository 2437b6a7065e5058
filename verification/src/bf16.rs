//! Multiplication with a matrix packed in the bfloat16 format.
//!
//! Elements are stored as the upper half of their 32-bit representation, in the same blocked
//! layout as [`PackedMatrix`](crate::pack::PackedMatrix). Where the machine can widen elements
//! while it multiplies, the kernels read the stored halves directly; elsewhere each block of rows
//! is widened first.

use crate::blocks::block_count;
use crate::kernels::{strip_index, Panel, PlainPanel};
use crate::layout::{
    is_padding, law_addr_injective, lemma_addr_bound, lemma_packed_size, packed_addr, packed_size,
    padded_with, BlockLayout, BLOCK_COL_SIZE,
};
use crate::pack::{filled, lemma_source_index, source_index};
use crate::partition::{collect_row_groups, groups_tile, groups_view, law_row_groups_tile};
use crate::product::{
    block_beta, blocks_done, gemm_output, k_blocks, lemma_rows_output, lemma_rows_step,
    lemma_strip_holds, rows_at, rows_updated, strip_holds,
};
use crate::rows::{count_k_blocks, k_block_range, run_groups, run_groups_par};
use crate::scalar::Scalar;
use vstd::prelude::*;

verus! {

/// The upper half of a 32-bit representation.
pub open spec fn truncated(bits: u32) -> u16 {
    (bits / 65536) as u16
}

/// The 32-bit representation with upper half `x` and lower half zero.
pub open spec fn widened(x: u16) -> u32 {
    (x * 65536) as u32
}

/// Converts an element to bfloat16 by truncation.
pub fn f32_to_bf16<T: Scalar>(x: T) -> (r: u16)
    ensures
        r == truncated(x.spec_to_bits()),
{
    let bits: u32 = x.to_bits();
    assert(bits >> 16 == bits / 65536) by (bit_vector);
    (bits >> 16) as u16
}

/// Converts a bfloat16 to an element by filling the lower half with zeros.
pub fn bf16_to_f32<T: Scalar>(x: u16) -> (r: T)
    ensures
        r == T::spec_from_bits(widened(x)),
        r.spec_to_bits() == widened(x),
{
    assert((x as u32) << 16 == x * 65536) by (bit_vector);
    T::from_bits((x as u32) << 16)
}

/// A K×N matrix packed in bfloat16, in the blocked layout.
pub struct PackedMatrixBf16 {
    layout: BlockLayout,
    data: Vec<u16>,
}

impl PackedMatrixBf16 {
    /// Number of rows.
    pub closed spec fn spec_k(&self) -> int {
        self.layout.spec_nrow()
    }

    /// Number of columns.
    pub closed spec fn spec_n(&self) -> int {
        self.layout.spec_ncol()
    }

    /// The stored halves in the blocked layout.
    pub closed spec fn elements(&self) -> Seq<u16> {
        self.data@
    }

    /// The stored half in row `p` and column `j`.
    pub open spec fn half(&self, p: int, j: int) -> u16 {
        self.elements()[packed_addr(self.spec_k(), self.spec_n(), p, j)]
    }

    /// The matrix as a function of row and column.
    pub open spec fn matrix<T: Scalar>(&self) -> spec_fn(int, int) -> T {
        |p: int, j: int| T::spec_from_bits(widened(self.half(p, j)))
    }

    /// The storage belongs to the dimensions, and its size in bytes is representable.
    pub closed spec fn wf(&self) -> bool {
        &&& self.layout.wf()
        &&& self.data@.len() == packed_size(self.spec_k(), self.spec_n())
        &&& 2 * packed_size(self.spec_k(), self.spec_n()) <= usize::MAX
    }

    /// What `wf` says.
    pub proof fn lemma_wf(&self)
        requires
            self.wf(),
        ensures
            0 <= self.spec_k() <= usize::MAX,
            0 <= self.spec_n() <= usize::MAX,
            2 * packed_size(self.spec_k(), self.spec_n()) <= usize::MAX,
            self.elements().len() == packed_size(self.spec_k(), self.spec_n()),
    {
        self.layout.lemma_wf();
    }

    /// Packs a K×N row-major matrix.
    pub fn new<T: Scalar>(k: usize, n: usize, src: &[T]) -> (r: PackedMatrixBf16)
        requires
            src@.len() == k * n,
            2 * packed_size(k as int, n as int) <= usize::MAX,
        ensures
            r.wf(),
            r.spec_k() == k,
            r.spec_n() == n,
            forall|p: int, j: int|
                0 <= p < k && 0 <= j < n ==> #[trigger] r.half(p, j) == truncated(
                    src@[p * n + j].spec_to_bits(),
                ),
            r.elements().len() == packed_size(k as int, n as int),
            padded_with(r.elements(), k as int, n as int, 0),
    {
        let mut m = Self::allocate(k, n);
        m.pack_from_src(false, src);
        m
    }

    /// Packs a K×N matrix stored in column-major order.
    pub fn from_transposed<T: Scalar>(k: usize, n: usize, src: &[T]) -> (r: PackedMatrixBf16)
        requires
            src@.len() == k * n,
            2 * packed_size(k as int, n as int) <= usize::MAX,
        ensures
            r.wf(),
            r.spec_k() == k,
            r.spec_n() == n,
            forall|p: int, j: int|
                0 <= p < k && 0 <= j < n ==> #[trigger] r.half(p, j) == truncated(
                    src@[p + k * j].spec_to_bits(),
                ),
            r.elements().len() == packed_size(k as int, n as int),
            padded_with(r.elements(), k as int, n as int, 0),
    {
        let mut m = Self::allocate(k, n);
        m.pack_from_src(true, src);
        m
    }

    /// Number of rows.
    pub fn k(&self) -> (r: usize)
        ensures
            r == self.spec_k(),
    {
        self.layout.nrow()
    }

    /// Number of columns.
    pub fn n(&self) -> (r: usize)
        ensures
            r == self.spec_n(),
    {
        self.layout.ncol()
    }

    /// Number of rows in one block of rows.
    pub fn block_row_size(&self) -> (r: usize)
        requires
            self.wf(),
        ensures
            r == 512,
    {
        self.layout.brow()
    }

    /// Memory used by the stored halves, in bytes.
    pub fn size_bytes(&self) -> (r: usize)
        requires
            self.wf(),
        ensures
            r == 2 * packed_size(self.spec_k(), self.spec_n()),
    {
        self.data.len() * 2
    }

    /// A matrix of zeros.
    fn allocate(nrow: usize, ncol: usize) -> (r: PackedMatrixBf16)
        requires
            2 * packed_size(nrow as int, ncol as int) <= usize::MAX,
        ensures
            r.wf(),
            r.spec_k() == nrow,
            r.spec_n() == ncol,
            r.elements().len() == packed_size(nrow as int, ncol as int),
            forall|x: int| 0 <= x < r.elements().len() ==> #[trigger] r.elements()[x] == 0,
    {
        proof {
            lemma_packed_size(nrow as int, ncol as int);
        }
        let (layout, size) = BlockLayout::allocate(nrow, ncol);
        PackedMatrixBf16 { layout, data: filled(size, 0u16) }
    }

    /// Position of element `(r, c)` in the blocked layout.
    pub fn addr(&self, r: usize, c: usize) -> (x: usize)
        requires
            self.wf(),
            r < self.spec_k(),
            c < self.spec_n(),
        ensures
            x == packed_addr(self.spec_k(), self.spec_n(), r as int, c as int),
            x < packed_size(self.spec_k(), self.spec_n()),
    {
        self.layout.addr(r, c)
    }

    /// Number of blocks of columns.
    fn nbcol(&self) -> (r: usize)
        requires
            self.wf(),
        ensures
            r == block_count(self.spec_n(), 16),
    {
        self.layout.nbcol()
    }

    /// The stored halves in the blocked layout.
    pub fn data(&self) -> (r: &[u16])
        ensures
            r@ == self.elements(),
    {
        self.data.as_slice()
    }

    /// Converts and stores all elements of `src`, in row-major order or column-major order where
    /// `transposed`.
    fn pack_from_src<T: Scalar>(&mut self, transposed: bool, src: &[T])
        requires
            old(self).wf(),
            src@.len() == old(self).spec_k() * old(self).spec_n(),
        ensures
            final(self).wf(),
            final(self).spec_k() == old(self).spec_k(),
            final(self).spec_n() == old(self).spec_n(),
            forall|p: int, j: int|
                0 <= p < old(self).spec_k() && 0 <= j < old(self).spec_n()
                    ==> #[trigger] final(self).half(p, j) == truncated(
                    src@[source_index(
                        old(self).spec_k(),
                        old(self).spec_n(),
                        transposed,
                        p,
                        j,
                    )].spec_to_bits(),
                ),
            final(self).elements().len() == old(self).elements().len(),
            forall|x: int|
                0 <= x < old(self).elements().len() && is_padding(
                    old(self).spec_k(),
                    old(self).spec_n(),
                    x,
                ) ==> #[trigger] final(self).elements()[x] == old(self).elements()[x],
    {
        let nrow = self.k();
        let ncol = self.n();
        let ghost k = nrow as int;
        let ghost n = ncol as int;
        let ghost start = self.elements();
        for i in 0..nrow
            invariant
                self.wf(),
                self.spec_k() == k,
                self.spec_n() == n,
                k == nrow,
                n == ncol,
                src@.len() == nrow * ncol,
                self.elements().len() == start.len(),
                forall|x: int|
                    0 <= x < start.len() && is_padding(k, n, x) ==> #[trigger] self.elements()[x]
                        == start[x],
                forall|p: int, j: int|
                    0 <= p < i && 0 <= j < n ==> #[trigger] self.half(p, j) == truncated(
                        src@[source_index(k, n, transposed, p, j)].spec_to_bits(),
                    ),
        {
            for j in 0..ncol
                invariant
                    self.wf(),
                    self.spec_k() == k,
                    self.spec_n() == n,
                    k == nrow,
                    n == ncol,
                    i < nrow,
                    src@.len() == nrow * ncol,
                    self.elements().len() == start.len(),
                    forall|x: int|
                        0 <= x < start.len() && is_padding(k, n, x)
                            ==> #[trigger] self.elements()[x] == start[x],
                    forall|p: int, jj: int|
                        0 <= p < nrow && 0 <= jj < n && (p < i || (p == i && jj < j))
                            ==> #[trigger] self.half(p, jj) == truncated(
                            src@[source_index(k, n, transposed, p, jj)].spec_to_bits(),
                        ),
            {
                proof {
                    lemma_source_index(k, n, transposed, i as int, j as int);
                    lemma_source_index(k, n, false, i as int, j as int);
                    assert(src.len() == src@.len());
                }
                let src_val = if transposed {
                    src[i + nrow * j]
                } else {
                    src[i * ncol + j]
                };
                let idx = self.addr(i, j);
                let v = f32_to_bf16(src_val);
                let ghost before = *self;
                self.data.set(idx, v);
                proof {
                    assert forall|x: int| 0 <= x < start.len() && is_padding(k, n, x) implies
                        #[trigger] self.elements()[x] == start[x] by {
                        assert(packed_addr(k, n, i as int, j as int) != x);
                        assert(before.elements()[x] == start[x]);
                    }
                    assert forall|p: int, jj: int|
                        0 <= p < nrow && 0 <= jj < n && (p < i || (p == i && jj < j + 1)) implies
                        #[trigger] self.half(p, jj) == truncated(
                        src@[source_index(k, n, transposed, p, jj)].spec_to_bits(),
                    ) by {
                        lemma_addr_bound(k, n, p, jj);
                        if packed_addr(k, n, p, jj) == idx {
                            law_addr_injective(k, n, p, jj, i as int, j as int);
                        } else {
                            assert(before.half(p, jj) == self.half(p, jj));
                        }
                    }
                }
            }
        }
    }
}

/// Elements stored as bfloat16, widened where they are read.
pub struct Bf16Panel<'a> {
    pub data: &'a [u16],
}

impl<'a, T: Scalar> Panel<T> for Bf16Panel<'a> {
    open spec fn spec_size(&self) -> int {
        self.data@.len() as int
    }

    open spec fn spec_at(&self, x: int) -> T {
        T::spec_from_bits(widened(self.data@[x]))
    }

    fn at(&self, x: usize) -> T {
        bf16_to_f32(self.data[x])
    }
}

/// The `len` elements from position `start` on, widened.
fn widen_strip<T: Scalar>(data: &[u16], start: usize, len: usize) -> (r: Vec<T>)
    requires
        start + len <= data@.len(),
    ensures
        r@.len() == len,
        forall|x: int|
            0 <= x < len ==> #[trigger] r@[x] == T::spec_from_bits(widened(data@[start + x])),
{
    let mut r: Vec<T> = Vec::with_capacity(len);
    for x in 0..len
        invariant
            start + len <= data.len(),
            r@.len() == x,
            forall|y: int|
                0 <= y < x ==> #[trigger] r@[y] == T::spec_from_bits(widened(data@[start + y])),
    {
        r.push(bf16_to_f32(data[start + x]));
    }
    r
}

/// A widened strip holds the same block as the halves that it was made from.
proof fn lemma_widened_strip<'a, 'b, T: Scalar>(
    panel: Bf16Panel<'a>,
    strip: PlainPanel<'b, T>,
    b_off: int,
    kb: int,
    b: spec_fn(int, int) -> T,
    n: int,
    q: int,
)
    requires
        0 <= kb,
        strip_holds(panel, b_off, kb, b, n, q),
        strip.data@.len() == block_count(n, 16) * (kb * 16),
        forall|x: int|
            0 <= x < strip.data@.len() ==> #[trigger] strip.data@[x] == T::spec_from_bits(
                widened(panel.data@[b_off + x]),
            ),
    ensures
        strip_holds(strip, 0, kb, b, n, q),
{
    assert forall|p: int, j: int| 0 <= p < kb && 0 <= j < n implies strip.spec_at(
        #[trigger] strip_index(0, kb, p, j),
    ) == b(q * 512 + p, j) by {
        let x = strip_index(0, kb, p, j);
        assert(0 <= (j / 16) * (kb * 16) && (j / 16) * (kb * 16) + p * 16 + j % 16 < block_count(
            n,
            16,
        ) * (kb * 16)) by (nonlinear_arith)
            requires
                0 <= j / 16,
                j / 16 + 1 <= block_count(n, 16),
                0 <= p < kb,
                0 <= j % 16 < 16,
        ;
        assert(strip.data@[x] == T::spec_from_bits(widened(panel.data@[b_off + x])));
        assert(b_off + x == strip_index(b_off, kb, p, j));
        let half_panel: T = panel.spec_at(strip_index(b_off, kb, p, j));
        assert(half_panel == b(q * 512 + p, j));
    }
}

/// Applies block `q` of a packed matrix to all rows of the output, on one thread or on the threads
/// of the pool where `parallel`. Where `native`, kernels read the stored halves; otherwise the
/// block is widened first.
fn apply_block<T: Scalar>(
    groups: &Vec<(usize, usize)>,
    q: usize,
    m: usize,
    beta: T,
    a: &[T],
    packed_b: &PackedMatrixBf16,
    c: &mut [T],
    native: bool,
    parallel: bool,
)
    requires
        packed_b.wf(),
        groups_tile(groups_view(groups@), 0, m as int),
        q < k_blocks(packed_b.spec_k()),
        a@.len() == m * packed_b.spec_k(),
        old(c)@.len() == m * packed_b.spec_n(),
    ensures
        rows_updated(
            old(c)@,
            final(c)@,
            0,
            m as int,
            block_beta(beta, q as int),
            a@,
            packed_b.spec_k(),
            packed_b.matrix(),
            packed_b.spec_n(),
            q as int,
        ),
{
    let k = packed_b.k();
    let n = packed_b.n();
    let ghost b = packed_b.matrix::<T>();
    let (k_ind, kb) = k_block_range(k, q);
    let beta_ = if q == 0 {
        beta
    } else {
        T::one()
    };
    let b_off: usize = if k_ind < k && n > 0 {
        packed_b.addr(k_ind, 0)
    } else {
        0
    };
    let panel = Bf16Panel { data: packed_b.data() };
    proof {
        packed_b.lemma_wf();
        lemma_strip_holds(panel, k as int, n as int, b, q as int);
    }
    if native {
        if parallel {
            run_groups_par(
                groups,
                Ghost(0),
                Ghost(m as int),
                Ghost(q as int),
                k_ind,
                kb,
                m,
                beta_,
                a,
                k,
                n,
                &panel,
                b_off,
                c,
                Ghost(b),
            );
        } else {
            run_groups(
                groups,
                Ghost(0),
                Ghost(m as int),
                Ghost(q as int),
                k_ind,
                kb,
                m,
                beta_,
                a,
                k,
                n,
                &panel,
                b_off,
                c,
                Ghost(b),
            );
        }
    } else {
        let nbcol = packed_b.nbcol();
        assert(kb * 16 * nbcol == nbcol * (kb * 16)) by (nonlinear_arith);
        let strip = widen_strip(packed_b.data(), b_off, kb * BLOCK_COL_SIZE * nbcol);
        let strip_panel = PlainPanel { data: strip.as_slice() };
        proof {
            lemma_widened_strip(
                panel,
                strip_panel,
                b_off as int,
                kb as int,
                b,
                n as int,
                q as int,
            );
        }
        if parallel {
            run_groups_par(
                groups,
                Ghost(0),
                Ghost(m as int),
                Ghost(q as int),
                k_ind,
                kb,
                m,
                beta_,
                a,
                k,
                n,
                &strip_panel,
                0,
                c,
                Ghost(b),
            );
        } else {
            run_groups(
                groups,
                Ghost(0),
                Ghost(m as int),
                Ghost(q as int),
                k_ind,
                kb,
                m,
                beta_,
                a,
                k,
                n,
                &strip_panel,
                0,
                c,
                Ghost(b),
            );
        }
    }
}

/// Applies all blocks of a packed matrix to all rows of the output.
fn compute<T: Scalar>(
    m: usize,
    a: &[T],
    packed_b: &PackedMatrixBf16,
    beta: T,
    c: &mut [T],
    native: bool,
    parallel: bool,
)
    requires
        packed_b.wf(),
        a@.len() == m * packed_b.spec_k(),
        old(c)@.len() == m * packed_b.spec_n(),
    ensures
        gemm_output(
            old(c)@,
            final(c)@,
            a@,
            m as int,
            packed_b.spec_k(),
            packed_b.matrix(),
            packed_b.spec_n(),
            beta,
        ),
{
    let nblocks = count_k_blocks(packed_b.k());
    let tasks = collect_row_groups(m);
    let ghost b = packed_b.matrix::<T>();
    let ghost c0 = c@;
    let ghost k = packed_b.spec_k();
    let ghost n = packed_b.spec_n();
    proof {
        packed_b.lemma_wf();
        law_row_groups_tile(0, m as int);
    }
    for q in 0..nblocks
        invariant
            packed_b.wf(),
            k == packed_b.spec_k(),
            n == packed_b.spec_n(),
            b == packed_b.matrix::<T>(),
            nblocks == k_blocks(k),
            groups_tile(groups_view(tasks@), 0, m as int),
            a@.len() == m * k,
            c@.len() == m * n,
            rows_at(c0, c@, a@, k, b, n, beta, blocks_done(0, m as int, nblocks as int, q as int)),
    {
        let ghost c1 = c@;
        apply_block(&tasks, q, m, beta, a, packed_b, c, native, parallel);
        proof {
            lemma_rows_step(
                c0,
                c1,
                c@,
                a@,
                k,
                b,
                n,
                beta,
                blocks_done(0, m as int, nblocks as int, q as int),
                blocks_done(0, m as int, nblocks as int, q + 1),
                0,
                m as int,
                q as int,
            );
        }
    }
    proof {
        lemma_rows_output(
            c0,
            c@,
            a@,
            m as int,
            k,
            b,
            n,
            beta,
            blocks_done(0, m as int, nblocks as int, nblocks as int),
        );
    }
}

/// Computes `c = beta * c + a * b` on one thread.
pub fn compute_st<T: Scalar>(
    m: usize,
    a: &[T],
    packed_b: &PackedMatrixBf16,
    beta: T,
    c: &mut [T],
    have_bf16_kernels: bool,
)
    requires
        packed_b.wf(),
        a@.len() == m * packed_b.spec_k(),
        old(c)@.len() == m * packed_b.spec_n(),
    ensures
        gemm_output(
            old(c)@,
            final(c)@,
            a@,
            m as int,
            packed_b.spec_k(),
            packed_b.matrix(),
            packed_b.spec_n(),
            beta,
        ),
{
    compute(m, a, packed_b, beta, c, have_bf16_kernels, false);
}

/// Computes `c = beta * c + a * b` on the threads of the pool.
pub fn compute_par<T: Scalar>(
    m: usize,
    a: &[T],
    packed_b: &PackedMatrixBf16,
    beta: T,
    c: &mut [T],
    have_bf16_kernels: bool,
)
    requires
        packed_b.wf(),
        a@.len() == m * packed_b.spec_k(),
        old(c)@.len() == m * packed_b.spec_n(),
    ensures
        gemm_output(
            old(c)@,
            final(c)@,
            a@,
            m as int,
            packed_b.spec_k(),
            packed_b.matrix(),
            packed_b.spec_n(),
            beta,
        ),
{
    compute(m, a, packed_b, beta, c, have_bf16_kernels, true);
}

/// Computes `c = beta * c + a * b`.
///
/// `have_bf16_kernels` says whether the machine can widen stored halves while it multiplies; the
/// result is the same either way.
pub fn sgemm_bf16<T: Scalar>(
    m: usize,
    a: &[T],
    packed_b: &PackedMatrixBf16,
    beta: T,
    c: &mut [T],
    have_bf16_kernels: bool,
)
    requires
        packed_b.wf(),
        a@.len() == m * packed_b.spec_k(),
        old(c)@.len() == m * packed_b.spec_n(),
    ensures
        gemm_output(
            old(c)@,
            final(c)@,
            a@,
            m as int,
            packed_b.spec_k(),
            packed_b.matrix(),
            packed_b.spec_n(),
            beta,
        ),
{
    compute_par(m, a, packed_b, beta, c, have_bf16_kernels);
}

/// Computes `c = a * b`, overwriting `c`.
pub fn sgemm_bf16_simple<T: Scalar>(
    m: usize,
    a: &[T],
    packed_b: &PackedMatrixBf16,
    c: &mut [T],
    have_bf16_kernels: bool,
)
    requires
        packed_b.wf(),
        a@.len() == m * packed_b.spec_k(),
        old(c)@.len() == m * packed_b.spec_n(),
    ensures
        gemm_output(
            old(c)@,
            final(c)@,
            a@,
            m as int,
            packed_b.spec_k(),
            packed_b.matrix(),
            packed_b.spec_n(),
            T::spec_zero(),
        ),
        T::spec_zero().spec_is_zero(),
{
    sgemm_bf16(m, a, packed_b, T::zero(), c, have_bf16_kernels);
}

} // verus!
