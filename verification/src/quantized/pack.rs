//! Packing of the weight matrix into row-interleaved tiles.

use crate::arith::{lemma_sum_eq, lemma_wrap_add, lemma_wrapping_ops, sum_range, wrap32};
use crate::blocks::{block_count, block_len, count_blocks};
use crate::quantized::tile::{tile_index, KCB, NR, ROW_INTERLEAVE};
use vstd::prelude::*;

verus! {

/// `x` rounded up to a multiple of `ROW_INTERLEAVE`.
pub open spec fn interleaved(x: int) -> int {
    (x + 3) / 4 * 4
}

/// A K×N matrix of signed 8-bit weights, packed into tiles of up to `KCB` rows and `NR` columns.
pub struct PackedBMatrixI8 {
    k: usize,
    n: usize,
    tiles: Vec<Vec<i8>>,
    col_offsets: Vec<i32>,
}

impl PackedBMatrixI8 {
    /// Number of rows.
    pub closed spec fn spec_k(&self) -> int {
        self.k as int
    }

    /// Number of columns.
    pub closed spec fn spec_n(&self) -> int {
        self.n as int
    }

    /// Tile `nb` of K block `kb`.
    pub closed spec fn spec_tile(&self, kb: int, nb: int) -> Seq<i8> {
        self.tiles@[kb * block_count(self.n as int, 8) + nb]@
    }

    /// The weight in row `p` and column `j`.
    pub open spec fn weight(&self, p: int, j: int) -> i8 {
        self.spec_tile(p / 512, j / 8)[tile_index(p % 512, j % 8)]
    }

    /// The sum of column `j`.
    pub open spec fn column_sum(&self, j: int) -> int {
        sum_range(|p: int| self.weight(p, j) as int, 0, self.spec_k())
    }

    /// The sums of all columns, each in 32-bit arithmetic.
    pub closed spec fn spec_col_offsets(&self) -> Seq<i32> {
        self.col_offsets@
    }

    /// There is one tile per K block and column block, each as long as its block, and one sum per
    /// column.
    pub closed spec fn wf(&self) -> bool {
        let nnb = block_count(self.n as int, 8);
        &&& self.tiles@.len() == block_count(self.k as int, 512) * nnb
        &&& forall|t: int|
            0 <= t < self.tiles@.len() ==> (#[trigger] self.tiles@[t])@.len() == interleaved(
                block_len(self.k as int, 512, t / nnb),
            ) * 8
        &&& self.col_offsets@.len() == self.n
        &&& forall|j: int|
            0 <= j < self.n ==> #[trigger] self.col_offsets@[j] == wrap32(self.column_sum(j))
    }

    /// What `wf` says, in terms of the matrix.
    pub proof fn lemma_wf(&self)
        requires
            self.wf(),
        ensures
            0 <= self.spec_k() <= usize::MAX,
            0 <= self.spec_n() <= usize::MAX,
            self.spec_col_offsets().len() == self.spec_n(),
            forall|j: int|
                0 <= j < self.spec_n() ==> #[trigger] self.spec_col_offsets()[j] == wrap32(
                    self.column_sum(j),
                ),
            forall|kb: int, nb: int|
                0 <= kb < block_count(self.spec_k(), 512) && 0 <= nb < block_count(self.spec_n(), 8)
                    ==> (#[trigger] self.spec_tile(kb, nb)).len() == interleaved(
                    block_len(self.spec_k(), 512, kb),
                ) * 8,
    {
        assert forall|kb: int, nb: int|
            0 <= kb < block_count(self.spec_k(), 512) && 0 <= nb < block_count(
                self.spec_n(),
                8,
            ) implies (#[trigger] self.spec_tile(kb, nb)).len() == interleaved(
            block_len(self.spec_k(), 512, kb),
        ) * 8 by {
            self.lemma_tile_position(kb, nb);
        }
    }

    proof fn lemma_tile_position(&self, kb: int, nb: int)
        requires
            self.wf(),
            0 <= kb < block_count(self.k as int, 512),
            0 <= nb < block_count(self.n as int, 8),
        ensures
            0 <= kb * block_count(self.n as int, 8) + nb < self.tiles@.len(),
            (kb * block_count(self.n as int, 8) + nb) / block_count(self.n as int, 8) == kb,
    {
        let nnb = block_count(self.n as int, 8);
        let nkb = block_count(self.k as int, 512);
        crate::arith::lemma_div_mod_of(kb, nb, nnb);
        assert(kb * nnb + nb < nkb * nnb && kb * nnb >= 0) by (nonlinear_arith)
            requires
                0 <= kb < nkb,
                0 <= nb < nnb,
        ;
    }

    /// Number of rows.
    pub fn k(&self) -> (r: usize)
        ensures
            r == self.spec_k(),
    {
        self.k
    }

    /// Number of columns.
    pub fn n(&self) -> (r: usize)
        ensures
            r == self.spec_n(),
    {
        self.n
    }

    /// Number of K blocks.
    pub fn num_k_blocks(&self) -> (r: usize)
        ensures
            r == block_count(self.spec_k(), 512),
    {
        count_blocks(self.k, KCB)
    }

    /// Number of column blocks.
    pub fn num_n_blocks(&self) -> (r: usize)
        ensures
            r == block_count(self.spec_n(), 8),
    {
        count_blocks(self.n, NR)
    }

    /// Tile `nb` of K block `kb`.
    pub fn tile(&self, kb: usize, nb: usize) -> (r: &[i8])
        requires
            self.wf(),
            kb < block_count(self.spec_k(), 512),
            nb < block_count(self.spec_n(), 8),
        ensures
            r@ == self.spec_tile(kb as int, nb as int),
            r@.len() == interleaved(block_len(self.spec_k(), 512, kb as int)) * 8,
    {
        let nnb = self.num_n_blocks();
        proof {
            self.lemma_tile_position(kb as int, nb as int);
            assert(kb * nnb >= 0) by (nonlinear_arith)
                requires
                    kb >= 0,
                    nnb >= 0,
            ;
        }
        let tiles = &self.tiles;
        assert(kb * nnb + nb < tiles.len());
        tiles[kb * nnb + nb].as_slice()
    }

    /// The sums of all columns, in 32-bit arithmetic.
    pub fn col_offsets(&self) -> (r: &[i32])
        ensures
            r@ == self.spec_col_offsets(),
    {
        self.col_offsets.as_slice()
    }

    /// Packs a K×N row-major matrix of weights.
    pub fn new(k: usize, n: usize, data: &[i8]) -> (r: PackedBMatrixI8)
        requires
            data@.len() == k * n,
        ensures
            r.wf(),
            r.spec_k() == k,
            r.spec_n() == n,
            forall|p: int, j: int|
                0 <= p < k && 0 <= j < n ==> #[trigger] r.weight(p, j) == data@[p * n + j],
            forall|kb: int, nb: int, p: int, j: int|
                0 <= kb < block_count(k as int, 512) && 0 <= nb < block_count(n as int, 8) && 0 <= p
                    < interleaved(block_len(k as int, 512, kb)) && 0 <= j < 8 && (kb * 512 + p >= k
                    || nb * 8 + j >= n) ==> #[trigger] r.spec_tile(kb, nb)[tile_index(p, j)] == 0,
    {
        let nkb = count_blocks(k, KCB);
        let nnb = count_blocks(n, NR);
        let mut tiles: Vec<Vec<i8>> = Vec::new();
        assert(0 * nnb == 0) by (nonlinear_arith);
        for kb in 0..nkb
            invariant
                data@.len() == k * n,
                nkb == block_count(k as int, 512),
                nnb == block_count(n as int, 8),
                tiles@.len() == kb * nnb,
                forall|t: int|
                    0 <= t < tiles@.len() ==> tile_packed(
                        (#[trigger] tiles@[t])@,
                        data@,
                        k as int,
                        n as int,
                        t / (nnb as int),
                        t % (nnb as int),
                    ),
        {
            for nb in 0..nnb
                invariant
                    data@.len() == k * n,
                    kb < nkb,
                    nkb == block_count(k as int, 512),
                    nnb == block_count(n as int, 8),
                    tiles@.len() == kb * nnb + nb,
                    forall|t: int|
                        0 <= t < tiles@.len() ==> tile_packed(
                            (#[trigger] tiles@[t])@,
                            data@,
                            k as int,
                            n as int,
                            t / (nnb as int),
                            t % (nnb as int),
                        ),
            {
                proof {
                    crate::arith::lemma_div_mod_of(kb as int, nb as int, nnb as int);
                }
                let tile = pack_tile(k, n, data, kb, nb);
                tiles.push(tile);
            }
            assert((kb + 1) * nnb == kb * nnb + nnb) by (nonlinear_arith);
        }
        let mut col_offsets: Vec<i32> = Vec::new();
        for j in 0..n
            invariant
                data@.len() == k * n,
                col_offsets@.len() == j,
                forall|i: int|
                    0 <= i < j ==> #[trigger] col_offsets@[i] == wrap32(
                        sum_range(|p: int| data@[p * n + i] as int, 0, k as int),
                    ),
        {
            let s = column_sum32(k, n, data, j);
            col_offsets.push(s);
        }
        let r = PackedBMatrixI8 { k, n, tiles, col_offsets };
        proof {
            assert forall|p: int, j: int| 0 <= p < k && 0 <= j < n implies #[trigger] r.weight(p, j)
                == data@[p * n + j] by {
                let kb = p / 512;
                let nb = j / 8;
                crate::arith::lemma_div_mod_of(kb, nb, nnb as int);
                assert(0 <= kb * nnb + nb < nkb * nnb) by (nonlinear_arith)
                    requires
                        0 <= kb < nkb,
                        0 <= nb < nnb,
                ;
                let t = tiles@[kb * nnb + nb]@;
                let idx = tile_index(p % 512, j % 8);
                assert(idx / 32 * 4 + idx % 4 == p % 512);
                assert(idx % 32 / 4 == j % 8);
                assert(kb * 512 + p % 512 == p);
                assert(nb * 8 + j % 8 == j);
                assert(tile_packed(t, data@, k as int, n as int, kb, nb));
                assert(t[idx] == data@[p * n + j]);
            }
            assert forall|kb: int, nb: int, p: int, j: int|
                0 <= kb < block_count(k as int, 512) && 0 <= nb < block_count(n as int, 8) && 0 <= p
                    < interleaved(block_len(k as int, 512, kb)) && 0 <= j < 8 && (kb * 512 + p >= k
                    || nb * 8 + j >= n) implies #[trigger] r.spec_tile(kb, nb)[tile_index(p, j)]
                == 0 by {
                crate::arith::lemma_div_mod_of(kb, nb, nnb as int);
                assert(0 <= kb * nnb + nb < nkb * nnb) by (nonlinear_arith)
                    requires
                        0 <= kb < nkb,
                        0 <= nb < nnb,
                ;
                let t = tiles@[kb * nnb + nb]@;
                let idx = tile_index(p, j);
                assert(tile_packed(t, data@, k as int, n as int, kb, nb));
                assert(idx / 32 * 4 + idx % 4 == p);
                assert(idx % 32 / 4 == j);
                assert(t[idx] == tile_value(data@, k as int, n as int, kb, nb, p, j));
            }
            assert forall|j: int| 0 <= j < n implies #[trigger] col_offsets@[j] == wrap32(
                r.column_sum(j),
            ) by {
                lemma_sum_eq(
                    |p: int| data@[p * n + j] as int,
                    |p: int| r.weight(p, j) as int,
                    0,
                    k as int,
                );
            }
        }
        r
    }
}

/// `tile` holds the elements of K block `kb` and column block `nb` of the K×N row-major matrix
/// `data`, and zeros elsewhere.
spec fn tile_packed(tile: Seq<i8>, data: Seq<i8>, k: int, n: int, kb: int, nb: int) -> bool {
    &&& tile.len() == interleaved(block_len(k, 512, kb)) * 8
    &&& forall|x: int|
        0 <= x < tile.len() ==> #[trigger] tile[x] == tile_value(
            data,
            k,
            n,
            kb,
            nb,
            x / 32 * 4 + x % 4,
            x % 32 / 4,
        )
}

/// Element `p` of column `j` of tile `nb` of K block `kb`, zero beyond the matrix.
spec fn tile_value(data: Seq<i8>, k: int, n: int, kb: int, nb: int, p: int, j: int) -> i8 {
    if p < block_len(k, 512, kb) && j < block_len(n, 8, nb) {
        data[(kb * 512 + p) * n + (nb * 8 + j)]
    } else {
        0
    }
}

/// Packs tile `nb` of K block `kb`.
fn pack_tile(k: usize, n: usize, data: &[i8], kb: usize, nb: usize) -> (r: Vec<i8>)
    requires
        data@.len() == k * n,
        kb < block_count(k as int, 512),
        nb < block_count(n as int, 8),
    ensures
        tile_packed(r@, data@, k as int, n as int, kb as int, nb as int),
{
    let k_start: usize = kb * KCB;
    let n_start: usize = nb * NR;
    let kc: usize = if k - k_start < KCB {
        k - k_start
    } else {
        KCB
    };
    let nc: usize = if n - n_start < NR {
        n - n_start
    } else {
        NR
    };
    let rows: usize = (kc + ROW_INTERLEAVE - 1) / ROW_INTERLEAVE * ROW_INTERLEAVE;
    let mut tile: Vec<i8> = vec![0i8; rows * NR];
    for p in 0..kc
        invariant
            data@.len() == k * n,
            k_start == kb * 512,
            n_start == nb * 8,
            kc == block_len(k as int, 512, kb as int),
            nc == block_len(n as int, 8, nb as int),
            k_start + kc <= k,
            n_start + nc <= n,
            kc <= 512,
            nc <= 8,
            tile@.len() == interleaved(kc as int) * 8,
            forall|x: int|
                0 <= x < tile@.len() ==> #[trigger] tile@[x] == (if x / 32 * 4 + x % 4 < p {
                    tile_value(
                        data@,
                        k as int,
                        n as int,
                        kb as int,
                        nb as int,
                        x / 32 * 4 + x % 4,
                        x % 32 / 4,
                    )
                } else {
                    0
                }),
    {
        for j in 0..nc
            invariant
                data@.len() == k * n,
                k_start == kb * 512,
                n_start == nb * 8,
                kc == block_len(k as int, 512, kb as int),
                nc == block_len(n as int, 8, nb as int),
                k_start + kc <= k,
                n_start + nc <= n,
                p < kc,
                kc <= 512,
                nc <= 8,
                tile@.len() == interleaved(kc as int) * 8,
                forall|x: int|
                    0 <= x < tile@.len() ==> #[trigger] tile@[x] == (if x / 32 * 4 + x % 4 < p || (x
                        / 32 * 4 + x % 4 == p && x % 32 / 4 < j) {
                        tile_value(
                            data@,
                            k as int,
                            n as int,
                            kb as int,
                            nb as int,
                            x / 32 * 4 + x % 4,
                            x % 32 / 4,
                        )
                    } else {
                        0
                    }),
        {
            let src_row: usize = k_start + p;
            let src_col: usize = n_start + j;
            proof {
                assert(src_row * n + src_col < k * n && src_row * n >= 0) by (nonlinear_arith)
                    requires
                        0 <= src_row < k,
                        0 <= src_col < n,
                ;
                assert(data.len() == k * n);
            }
            let x: usize = p / ROW_INTERLEAVE * (NR * ROW_INTERLEAVE) + j * ROW_INTERLEAVE + p
                % ROW_INTERLEAVE;
            tile.set(x, data[src_row * n + src_col]);
        }
    }
    tile
}

/// The sum of column `j`, in 32-bit arithmetic.
fn column_sum32(k: usize, n: usize, data: &[i8], j: usize) -> (r: i32)
    requires
        data@.len() == k * n,
        j < n,
    ensures
        r == wrap32(sum_range(|p: int| data@[p * n + j] as int, 0, k as int)),
{
    let ghost f = |p: int| data@[p * n + j] as int;
    let mut s: i32 = 0;
    for p in 0..k
        invariant
            data@.len() == k * n,
            j < n,
            f == (|p: int| data@[p * n + j] as int),
            s == wrap32(sum_range(f, 0, p as int)),
    {
        proof {
            assert(p * n + j < k * n && p * n >= 0) by (nonlinear_arith)
                requires
                    0 <= p < k,
                    0 <= j < n,
            ;
            assert(data.len() == k * n);
        }
        let v: i32 = data[p * n + j] as i32;
        proof {
            lemma_wrapping_ops(s, v);
            lemma_wrap_add(sum_range(f, 0, p as int), v as int);
        }
        s = s.wrapping_add(v);
    }
    s
}

} // verus!
