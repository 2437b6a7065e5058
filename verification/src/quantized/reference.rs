//! Reference kernels: plain loops over a row-major activation matrix and a packed weight tile.

use crate::arith::{lemma_wrap_add, lemma_wrap_small, lemma_wrapping_ops, wrap32};
use crate::quantized::tile::{
    block_added, block_terms, dot_signed, dot_unsigned, row_term, tile_index, NR, ROW_INTERLEAVE,
};
use vstd::prelude::*;

verus! {

/// The product that a reference kernel forms: with activations read as signed or unsigned bytes.
pub open spec fn ref_dot(
    signed: bool,
    a: Seq<u8>,
    a0: int,
    b: Seq<i8>,
    j: int,
    kc: int,
) -> int {
    if signed {
        dot_signed(a, a0, b, j, kc)
    } else {
        dot_unsigned(a, a0, b, j, kc)
    }
}

/// A block of `rows` rows and `cols` columns with row stride `ld` lies within `len` elements.
pub open spec fn block_fits(rows: int, cols: int, ld: int, len: int) -> bool {
    rows > 0 && cols > 0 ==> (rows - 1) * ld + cols <= len
}

/// Every element that a kernel reads of a tile lies within `len` elements.
pub open spec fn tile_fits(kc: int, nc: int, len: int) -> bool {
    kc > 0 && nc > 0 ==> tile_index(kc - 1, nc - 1) < len
}

/// The value of activation byte `x`: flipping the top bit and reading the byte as signed lowers
/// it by 128.
fn activation(signed: bool, x: u8) -> (r: i32)
    ensures
        r == (if signed {
            x - 128
        } else {
            x as int
        }),
{
    if signed {
        proof {
            assert((x ^ 0x80u8) as i8 == x - 128) by (bit_vector);
        }
        (x ^ 0x80) as i8 as i32
    } else {
        x as i32
    }
}

/// The term that element `p` adds to the product for row start `a0` and column `j`.
spec fn ref_term(signed: bool, a: Seq<u8>, a0: int, b: Seq<i8>, j: int, p: int) -> int {
    if signed {
        (a[a0 + p] - 128) * b[tile_index(p, j)]
    } else {
        a[a0 + p] * b[tile_index(p, j)]
    }
}

/// A product grows term by term.
proof fn lemma_ref_dot_step(signed: bool, a: Seq<u8>, a0: int, b: Seq<i8>, j: int, p: int)
    requires
        p >= 0,
    ensures
        ref_dot(signed, a, a0, b, j, 0) == 0,
        ref_dot(signed, a, a0, b, j, p + 1) == ref_dot(signed, a, a0, b, j, p) + ref_term(
            signed,
            a,
            a0,
            b,
            j,
            p,
        ),
{
}

/// Adds the products of activations, read as signed or unsigned bytes, to the output.
fn add_ref_tile(
    signed: bool,
    mc: usize,
    a: &[u8],
    lda: usize,
    b: &[i8],
    c: &mut [i32],
    ldc: usize,
    kc: usize,
    nc: usize,
)
    requires
        block_fits(mc as int, kc as int, lda as int, a@.len() as int),
        tile_fits(kc as int, nc as int, b@.len() as int),
        kc > 0 ==> block_fits(mc as int, nc as int, ldc as int, old(c)@.len() as int),
    ensures
        block_added(
            old(c)@,
            final(c)@,
            |i: int, j: int| ref_dot(signed, a@, i * lda, b@, j, kc as int),
            mc as int,
            nc as int,
            ldc as int,
        ),
{
    let ghost c0 = c@;
    let ghost acc = |i: int, j: int| ref_dot(signed, a@, i * lda, b@, j, kc as int);
    proof {
        assert forall|x: int| 0 <= x < c0.len() implies #[trigger] c@[x] == wrap32(
            c0[x] + block_terms(acc, 0, nc as int, ldc as int, x),
        ) by {
            lemma_wrap_small(c0[x] as int);
        }
    }
    for i in 0..mc
        invariant
            block_fits(mc as int, kc as int, lda as int, a@.len() as int),
            tile_fits(kc as int, nc as int, b@.len() as int),
            kc > 0 ==> block_fits(mc as int, nc as int, ldc as int, c0.len() as int),
            acc == (|i: int, j: int| ref_dot(signed, a@, i * lda, b@, j, kc as int)),
            block_added(c0, c@, acc, i as int, nc as int, ldc as int),
    {
        let ghost c1 = c@;
        proof {
            assert forall|x: int| 0 <= x < c0.len() implies #[trigger] c@[x] == (if i * ldc <= x < i
                * ldc + nc {
                wrap32(c1[x] + ref_dot(signed, a@, i * lda, b@, x - i * ldc, 0))
            } else {
                c1[x]
            }) by {
                lemma_ref_dot_step(signed, a@, i * lda, b@, x - i * ldc, 0);
                lemma_wrap_small(c1[x] as int);
            }
            assert(i * lda <= (mc - 1) * lda) by (nonlinear_arith)
                requires
                    i <= mc - 1,
            ;
            assert(i * ldc <= (mc - 1) * ldc) by (nonlinear_arith)
                requires
                    i <= mc - 1,
            ;
        }
        for k_idx in 0..kc
            invariant
                i < mc,
                kc > 0 ==> i * lda + kc <= a.len(),
                tile_fits(kc as int, nc as int, b@.len() as int),
                kc > 0 && nc > 0 ==> i * ldc + nc <= c.len(),
                c1.len() == c0.len(),
                c@.len() == c0.len(),
                forall|x: int|
                    0 <= x < c0.len() ==> #[trigger] c@[x] == (if i * ldc <= x < i * ldc + nc {
                        wrap32(c1[x] + ref_dot(signed, a@, i * lda, b@, x - i * ldc, k_idx as int))
                    } else {
                        c1[x]
                    }),
        {
            let g: usize = k_idx / ROW_INTERLEAVE;
            let ri: usize = k_idx % ROW_INTERLEAVE;
            let a_val: i32 = activation(signed, a[i * lda + k_idx]);
            for j in 0..nc
                invariant
                    i < mc,
                    k_idx < kc,
                    g == k_idx / 4,
                    ri == k_idx % 4,
                    a_val == (if signed {
                        a@[i * lda + k_idx] - 128
                    } else {
                        a@[i * lda + k_idx] as int
                    }),
                    tile_fits(kc as int, nc as int, b.len() as int),
                    nc > 0 ==> i * ldc + nc <= c.len(),
                    c1.len() == c0.len(),
                    c@.len() == c0.len(),
                    forall|x: int|
                        0 <= x < c0.len() ==> #[trigger] c@[x] == (if i * ldc <= x < i * ldc + j {
                            wrap32(
                                c1[x] + ref_dot(
                                    signed,
                                    a@,
                                    i * lda,
                                    b@,
                                    x - i * ldc,
                                    k_idx + 1,
                                ),
                            )
                        } else if i * ldc <= x < i * ldc + nc {
                            wrap32(
                                c1[x] + ref_dot(
                                    signed,
                                    a@,
                                    i * lda,
                                    b@,
                                    x - i * ldc,
                                    k_idx as int,
                                ),
                            )
                        } else {
                            c1[x]
                        }),
            {
                assert(tile_index(k_idx as int, j as int) <= tile_index(kc - 1, nc - 1));
                let b_val: i32 = b[g * NR * ROW_INTERLEAVE + j * ROW_INTERLEAVE + ri] as i32;
                let x: usize = i * ldc + j;
                let ghost d = ref_dot(signed, a@, i * lda, b@, j as int, k_idx as int);
                let t: i32 = a_val.wrapping_mul(b_val);
                proof {
                    lemma_ref_dot_step(signed, a@, i * lda, b@, j as int, k_idx as int);
                    assert(-32640 <= a_val * b_val <= 32640) by (nonlinear_arith)
                        requires
                            -128 <= a_val <= 255,
                            -128 <= b_val <= 127,
                    ;
                    lemma_wrapping_ops(a_val, b_val);
                    lemma_wrap_small(a_val * b_val);
                    assert(c@[x as int] == wrap32(c1[x as int] + d));
                    lemma_wrapping_ops(c@[x as int], t);
                    lemma_wrap_add(c1[x as int] + d, t as int);
                }
                let v: i32 = c[x].wrapping_add(t);
                c[x] = v;
            }
        }
        proof {
            assert forall|x: int| 0 <= x < c0.len() implies #[trigger] c@[x] == wrap32(
                c0[x] + block_terms(acc, i + 1, nc as int, ldc as int, x),
            ) by {
                let t = block_terms(acc, i as int, nc as int, ldc as int, x);
                assert(c1[x] == wrap32(c0[x] + t));
                lemma_wrap_add(c0[x] + t, row_term(acc, nc as int, ldc as int, x, i as int));
                lemma_wrap_small(c1[x] as int);
            }
        }
    }
}

/// Adds the product of unsigned activations and signed weights to the output.
///
/// Row `i` of the activations starts at `i * lda`, row `i` of the output at `i * ldc`; the tile
/// holds `kc` elements of each of `nc` columns.
pub fn ref_u8i8_kernel(
    mc: usize,
    a: &[u8],
    lda: usize,
    b: &[i8],
    c: &mut [i32],
    ldc: usize,
    kc: usize,
    nc: usize,
)
    requires
        block_fits(mc as int, kc as int, lda as int, a@.len() as int),
        tile_fits(kc as int, nc as int, b@.len() as int),
        kc > 0 ==> block_fits(mc as int, nc as int, ldc as int, old(c)@.len() as int),
    ensures
        block_added(
            old(c)@,
            final(c)@,
            |i: int, j: int| dot_unsigned(a@, i * lda, b@, j, kc as int),
            mc as int,
            nc as int,
            ldc as int,
        ),
{
    add_ref_tile(false, mc, a, lda, b, c, ldc, kc, nc);
    assert((|i: int, j: int| ref_dot(false, a@, i * lda, b@, j, kc as int)) =~= (|i: int, j: int|
        dot_unsigned(a@, i * lda, b@, j, kc as int)));
}

/// Adds the product of activations lowered by 128 and signed weights to the output.
///
/// The layout is that of [`ref_u8i8_kernel`].
pub fn ref_i8i8_kernel(
    mc: usize,
    a: &[u8],
    lda: usize,
    b: &[i8],
    c: &mut [i32],
    ldc: usize,
    kc: usize,
    nc: usize,
)
    requires
        block_fits(mc as int, kc as int, lda as int, a@.len() as int),
        tile_fits(kc as int, nc as int, b@.len() as int),
        kc > 0 ==> block_fits(mc as int, nc as int, ldc as int, old(c)@.len() as int),
    ensures
        block_added(
            old(c)@,
            final(c)@,
            |i: int, j: int| dot_signed(a@, i * lda, b@, j, kc as int),
            mc as int,
            nc as int,
            ldc as int,
        ),
{
    add_ref_tile(true, mc, a, lda, b, c, ldc, kc, nc);
    assert((|i: int, j: int| ref_dot(true, a@, i * lda, b@, j, kc as int)) =~= (|i: int, j: int|
        dot_signed(a@, i * lda, b@, j, kc as int)));
}

} // verus!
