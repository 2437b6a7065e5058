//! The blocked layout of a packed K×N matrix: blocks of rows, each cut into blocks of columns
//! that are stored one after the other, row by row.

use crate::arith::lemma_div_mod_of;
use crate::blocks::{block_count, block_len, count_blocks};
use vstd::prelude::*;

verus! {

/// Number of rows in one block of rows.
pub const DEFAULT_BROW: usize = 512;

/// Number of columns in one block of columns.
pub const BLOCK_COL_SIZE: usize = 16;

/// Dimensions of a packed matrix.
#[derive(Clone, Copy)]
pub struct BlockLayout {
    nrow: usize,
    ncol: usize,
    brow: usize,
    last_brow: usize,
    bcol: usize,
    nbrow: usize,
    nbcol: usize,
}

/// Number of elements that a packed K×N matrix takes: both dimensions are rounded up to whole
/// blocks.
pub open spec fn packed_size(k: int, n: int) -> int {
    512 * block_count(k, 512) * 16 * block_count(n, 16)
}

/// Position of element `(r, c)` in a packed K×N matrix.
pub open spec fn packed_addr(k: int, n: int, r: int, c: int) -> int {
    (r / 512) * (block_count(n, 16) * 8192) + (c / 16) * (block_len(k, 512, r / 512) * 16) + (r
        % 512) * 16 + c % 16
}

/// Whether position `x` of a packed K×N matrix belongs to no element.
pub open spec fn is_padding(k: int, n: int, x: int) -> bool {
    forall|p: int, j: int| 0 <= p < k && 0 <= j < n ==> #[trigger] packed_addr(k, n, p, j) != x
}

/// Every position of a packed K×N matrix that belongs to no element holds `fill`.
pub open spec fn padded_with<E>(elements: Seq<E>, k: int, n: int, fill: E) -> bool {
    forall|x: int|
        0 <= x < elements.len() && is_padding(k, n, x) ==> #[trigger] elements[x] == fill
}

/// A packed element lies after the start of its block of rows and before the next.
proof fn lemma_addr_parts(k: int, n: int, r: int, c: int)
    requires
        0 <= r < k,
        0 <= c < n,
    ensures
        0 <= r / 512 < block_count(k, 512),
        0 <= c / 16 < block_count(n, 16),
        0 <= r % 512 < block_len(k, 512, r / 512) <= 512,
        0 <= (r % 512) * 16 + c % 16 < block_len(k, 512, r / 512) * 16,
        0 <= (c / 16) * (block_len(k, 512, r / 512) * 16) + (r % 512) * 16 + c % 16 < block_count(
            n,
            16,
        ) * (block_len(k, 512, r / 512) * 16) <= block_count(n, 16) * 8192,
{
    let rows = block_len(k, 512, r / 512);
    let cb = c / 16;
    let nb = block_count(n, 16);
    let rest = (r % 512) * 16 + c % 16;
    assert(0 <= cb * (rows * 16) && cb * (rows * 16) + rest < nb * (rows * 16)) by (nonlinear_arith)
        requires
            0 <= cb < nb,
            0 <= rest < rows * 16,
    ;
    assert(nb * (rows * 16) <= nb * 8192) by (nonlinear_arith)
        requires
            0 <= nb,
            rows <= 512,
    ;
}

/// Every element lies within the packed matrix.
pub(crate) proof fn lemma_addr_bound(k: int, n: int, r: int, c: int)
    requires
        0 <= r < k,
        0 <= c < n,
    ensures
        0 <= packed_addr(k, n, r, c) < packed_size(k, n),
        0 <= (r / 512) * (block_count(n, 16) * 8192),
{
    lemma_addr_parts(k, n, r, c);
    let b = block_count(n, 16) * 8192;
    let q = r / 512;
    let nq = block_count(k, 512);
    let off = packed_addr(k, n, r, c) - q * b;
    assert(0 <= q * b && q * b + off < nq * b) by (nonlinear_arith)
        requires
            0 <= q < nq,
            0 <= off < b,
    ;
    assert(nq * b == packed_size(k, n)) by (nonlinear_arith)
        requires
            b == block_count(n, 16) * 8192,
            nq == block_count(k, 512),
            packed_size(k, n) == 512 * block_count(k, 512) * 16 * block_count(n, 16),
    ;
}

/// Different elements of a matrix have different positions in its packed form.
pub proof fn law_addr_injective(k: int, n: int, r1: int, c1: int, r2: int, c2: int)
    requires
        0 <= r1 < k,
        0 <= c1 < n,
        0 <= r2 < k,
        0 <= c2 < n,
        packed_addr(k, n, r1, c1) == packed_addr(k, n, r2, c2),
    ensures
        r1 == r2,
        c1 == c2,
{
    lemma_addr_parts(k, n, r1, c1);
    lemma_addr_parts(k, n, r2, c2);
    let b = block_count(n, 16) * 8192;
    let rows1 = block_len(k, 512, r1 / 512);
    let rows2 = block_len(k, 512, r2 / 512);
    let rest1 = (r1 % 512) * 16 + c1 % 16;
    let rest2 = (r2 % 512) * 16 + c2 % 16;
    let off1 = (c1 / 16) * (rows1 * 16) + rest1;
    let off2 = (c2 / 16) * (rows2 * 16) + rest2;
    lemma_div_mod_of(r1 / 512, off1, b);
    lemma_div_mod_of(r2 / 512, off2, b);
    assert(r1 / 512 == r2 / 512);
    lemma_div_mod_of(c1 / 16, rest1, rows1 * 16);
    lemma_div_mod_of(c2 / 16, rest2, rows1 * 16);
}

/// The blocks of columns of one block of rows follow each other: element `(q * 512 + r, c)` lies
/// at a fixed distance from element `(q * 512, 0)`.
pub(crate) proof fn lemma_addr_strip(k: int, n: int, q: int, r: int, c: int)
    requires
        0 <= q < block_count(k, 512),
        0 <= r < block_len(k, 512, q),
        0 <= c < n,
    ensures
        q * 512 + r < k,
        packed_addr(k, n, q * 512, 0) == q * (block_count(n, 16) * 8192),
        packed_addr(k, n, q * 512 + r, c) == packed_addr(k, n, q * 512, 0) + (c / 16) * (block_len(
            k,
            512,
            q,
        ) * 16) + r * 16 + c % 16,
{
    assert((q * 512 + r) / 512 == q);
    assert((q * 512 + r) % 512 == r);
    assert((q * 512) / 512 == q);
    assert((q * 512) % 512 == 0);
    assert(0 * (block_len(k, 512, q) * 16) == 0) by (nonlinear_arith);
}

/// The blocks of columns of one block of rows lie within the packed matrix.
pub(crate) proof fn lemma_strip_bound(k: int, n: int, q: int)
    requires
        0 <= q < block_count(k, 512),
        0 <= n,
    ensures
        0 <= q * (block_count(n, 16) * 8192),
        q * (block_count(n, 16) * 8192) + block_count(n, 16) * (block_len(k, 512, q) * 16)
            <= packed_size(k, n),
{
    let nb = block_count(n, 16);
    let nq = block_count(k, 512);
    let rows = block_len(k, 512, q);
    assert(rows <= 512);
    assert(nb * (rows * 16) <= nb * 8192) by (nonlinear_arith)
        requires
            0 <= nb,
            rows <= 512,
    ;
    let b = nb * 8192;
    assert(0 <= q * b && q * b + b <= nq * b) by (nonlinear_arith)
        requires
            0 <= q < nq,
            0 <= b,
    ;
    assert(nq * b == packed_size(k, n)) by (nonlinear_arith)
        requires
            b == nb * 8192,
            packed_size(k, n) == 512 * nq * 16 * nb,
    ;
}

/// A packed matrix has a size.
pub(crate) proof fn lemma_packed_size(k: int, n: int)
    requires
        0 <= k,
        0 <= n,
    ensures
        0 <= packed_size(k, n),
{
    assert(0 <= 512 * block_count(k, 512) * 16 * block_count(n, 16)) by (nonlinear_arith)
        requires
            0 <= block_count(k, 512),
            0 <= block_count(n, 16),
    ;
}

impl BlockLayout {
    /// Number of rows of the matrix.
    pub closed spec fn spec_nrow(self) -> int {
        self.nrow as int
    }

    /// Number of columns of the matrix.
    pub closed spec fn spec_ncol(self) -> int {
        self.ncol as int
    }

    /// The block counts and sizes belong to the dimensions, and the packed matrix is addressable.
    pub closed spec fn wf(self) -> bool {
        &&& self.brow == 512
        &&& self.bcol == 16
        &&& self.nbrow == block_count(self.nrow as int, 512)
        &&& self.nbcol == block_count(self.ncol as int, 16)
        &&& self.last_brow == (if self.nrow % 512 == 0 {
            512
        } else {
            self.nrow % 512
        })
        &&& packed_size(self.nrow as int, self.ncol as int) <= usize::MAX
    }

    /// What `wf` says of the dimensions.
    pub proof fn lemma_wf(self)
        requires
            self.wf(),
        ensures
            0 <= self.spec_nrow() <= usize::MAX,
            0 <= self.spec_ncol() <= usize::MAX,
            packed_size(self.spec_nrow(), self.spec_ncol()) <= usize::MAX,
    {
    }

    /// The layout of a matrix with `nrow` rows and `ncol` columns, and its packed size.
    pub fn allocate(nrow: usize, ncol: usize) -> (r: (BlockLayout, usize))
        requires
            packed_size(nrow as int, ncol as int) <= usize::MAX,
        ensures
            r.0.wf(),
            r.0.spec_nrow() == nrow,
            r.0.spec_ncol() == ncol,
            r.1 == packed_size(nrow as int, ncol as int),
    {
        let brow = DEFAULT_BROW;
        let bcol = BLOCK_COL_SIZE;
        let nbrow = count_blocks(nrow, brow);
        let last_brow = if nrow % brow == 0 {
            brow
        } else {
            nrow % brow
        };
        let nbcol = count_blocks(ncol, bcol);
        let layout = BlockLayout { nrow, ncol, brow, last_brow, bcol, nbrow, nbcol };
        if nbcol == 0 {
            assert(packed_size(nrow as int, ncol as int) == 0) by (nonlinear_arith)
                requires
                    packed_size(nrow as int, ncol as int) == 512 * nbrow * 16 * nbcol,
                    nbcol == 0,
            ;
            return (layout, 0);
        }
        proof {
            assert(512 * nbrow * 16 <= 512 * nbrow * 16 * nbcol && 0 <= nbrow) by (nonlinear_arith)
                requires
                    nbcol >= 1,
                    nbrow >= 0,
            ;
        }
        (layout, brow * nbrow * bcol * nbcol)
    }

    /// Position of element `(r, c)` in the packed matrix.
    pub fn addr(&self, r: usize, c: usize) -> (x: usize)
        requires
            self.wf(),
            r < self.spec_nrow(),
            c < self.spec_ncol(),
        ensures
            x == packed_addr(self.spec_nrow(), self.spec_ncol(), r as int, c as int),
            x < packed_size(self.spec_nrow(), self.spec_ncol()),
    {
        proof {
            lemma_addr_parts(self.nrow as int, self.ncol as int, r as int, c as int);
            lemma_addr_bound(self.nrow as int, self.ncol as int, r as int, c as int);
        }
        let block_row_id: usize = r / self.brow;
        let block_col_id: usize = c / self.bcol;
        let rows_in_block: usize = if block_row_id != self.nbrow - 1 {
            self.brow
        } else {
            self.last_brow
        };
        proof {
            let q = block_row_id as int;
            let nb = self.nbcol as int;
            assert(rows_in_block == block_len(self.nrow as int, 512, q));
            assert(q * (nb * 8192) == q * nb * 512 * 16) by (nonlinear_arith);
            assert(q * nb <= q * nb * 512 && q * nb * 512 <= q * nb * 512 * 16 && 0 <= q * nb)
                by (nonlinear_arith)
                requires
                    0 <= q,
                    0 <= nb,
            ;
            let cb = block_col_id as int;
            let rows = rows_in_block as int;
            assert(cb * (rows * 16) == cb * rows * 16) by (nonlinear_arith);
            assert(0 <= cb * rows <= cb * rows * 16) by (nonlinear_arith)
                requires
                    0 <= cb,
                    0 <= rows,
            ;
        }
        let brow_offset: usize = block_row_id * self.nbcol * self.brow * self.bcol;
        let bcol_offset: usize = block_col_id * rows_in_block * self.bcol;
        let block_offset: usize = brow_offset + bcol_offset;
        let inblock_offset: usize = (r % self.brow) * self.bcol + (c % self.bcol);
        block_offset + inblock_offset
    }

    /// Number of rows of the matrix.
    pub fn nrow(&self) -> (r: usize)
        ensures
            r == self.spec_nrow(),
    {
        self.nrow
    }

    /// Number of columns of the matrix.
    pub fn ncol(&self) -> (r: usize)
        ensures
            r == self.spec_ncol(),
    {
        self.ncol
    }

    /// Number of rows in one block of rows.
    pub fn brow(&self) -> (r: usize)
        requires
            self.wf(),
        ensures
            r == 512,
    {
        self.brow
    }

    /// Number of blocks of columns.
    pub fn nbcol(&self) -> (r: usize)
        requires
            self.wf(),
        ensures
            r == block_count(self.spec_ncol(), 16),
    {
        self.nbcol
    }
}

} // verus!
