//! The kernel for 256-bit registers, and the packing of activation tiles.

use crate::quantized::tile::{add_simd_tile, block_added, dot_unsigned, KCB, NR};
use vstd::prelude::*;

verus! {

/// Adds the products of 12 packed activation rows and one weight tile to the output.
///
/// The activations have a row stride of `KCB` bytes, the tile is row-interleaved, and row `i` of
/// the output starts at `i * ldc`. Products are exact and added in wrapping 32-bit arithmetic.
pub fn avx2_i8_kernel_12(
    buffer_a: &[u8],
    buffer_b: &[i8],
    buffer_c: &mut [i32],
    kc: usize,
    ldc: usize,
)
    requires
        kc > 0,
        kc % 4 == 0,
        11 * KCB + kc <= buffer_a@.len(),
        kc * NR <= buffer_b@.len(),
        11 * ldc + NR <= old(buffer_c)@.len(),
    ensures
        block_added(
            old(buffer_c)@,
            final(buffer_c)@,
            |i: int, j: int| dot_unsigned(buffer_a@, i * KCB, buffer_b@, j, kc as int),
            12,
            NR as int,
            ldc as int,
        ),
{
    dispatch_i8_kernel(12, buffer_a, buffer_b, buffer_c, kc, ldc);
}

/// Adds the products of `mc` packed activation rows and one weight tile to the output, as
/// [`avx2_i8_kernel_12`] does for 12 rows.
pub fn dispatch_i8_kernel(
    mc: usize,
    buffer_a: &[u8],
    buffer_b: &[i8],
    buffer_c: &mut [i32],
    kc: usize,
    ldc: usize,
)
    requires
        1 <= mc <= 12,
        kc > 0,
        kc % 4 == 0,
        (mc - 1) * KCB + kc <= buffer_a@.len(),
        kc * NR <= buffer_b@.len(),
        (mc - 1) * ldc + NR <= old(buffer_c)@.len(),
    ensures
        block_added(
            old(buffer_c)@,
            final(buffer_c)@,
            |i: int, j: int| dot_unsigned(buffer_a@, i * KCB, buffer_b@, j, kc as int),
            mc as int,
            NR as int,
            ldc as int,
        ),
{
    add_simd_tile(mc, buffer_a, buffer_b, buffer_c, kc, ldc);
}

/// The row whose copy decides byte `x` of a packed tile of `mc` rows.
pub open spec fn packed_row(mc: int, x: int) -> int {
    if x / 512 < mc {
        x / 512
    } else {
        mc - 1
    }
}

/// Byte `x` of a tile after `mc` rows of `kc` activations were packed into it.
pub open spec fn packed_byte(
    a: Seq<u8>,
    m_start: int,
    k_start: int,
    mc: int,
    kc: int,
    k: int,
    before: Seq<u8>,
    x: int,
) -> u8 {
    let i = packed_row(mc, x);
    if mc > 0 && x < i * 512 + kc {
        a[(m_start + i) * k + k_start + (x - i * 512)]
    } else {
        before[x]
    }
}

/// Copies `mc` rows of `kc` activations into a tile with row stride `KCB`.
///
/// Row `i` of the tile receives the activations of matrix row `m_start + i` from column
/// `k_start` on, where a matrix row is `k` bytes long; the rest of the tile stays as it was.
pub fn pack_a_tile(
    a_u8: &[u8],
    m_start: usize,
    k_start: usize,
    mc: usize,
    kc: usize,
    k: usize,
    dst: &mut [u8],
)
    requires
        mc > 0 ==> m_start + mc - 1 <= usize::MAX,
        mc > 0 ==> (m_start + mc - 1) * k + k_start + kc <= a_u8@.len(),
        mc * KCB <= old(dst)@.len(),
        mc > 0 ==> (mc - 1) * KCB + kc <= old(dst)@.len(),
    ensures
        final(dst)@.len() == old(dst)@.len(),
        forall|x: int|
            0 <= x < old(dst)@.len() ==> #[trigger] final(dst)@[x] == packed_byte(
                a_u8@,
                m_start as int,
                k_start as int,
                mc as int,
                kc as int,
                k as int,
                old(dst)@,
                x,
            ),
{
    let ghost d0 = dst@;
    for i in 0..mc
        invariant
            mc > 0 ==> m_start + mc - 1 <= usize::MAX,
            mc > 0 ==> (m_start + mc - 1) * k + k_start + kc <= a_u8.len(),
            mc * KCB <= dst.len(),
            mc > 0 ==> (mc - 1) * KCB + kc <= dst.len(),
            dst@.len() == d0.len(),
            forall|x: int|
                0 <= x < d0.len() ==> #[trigger] dst@[x] == packed_byte(
                    a_u8@,
                    m_start as int,
                    k_start as int,
                    i as int,
                    kc as int,
                    k as int,
                    d0,
                    x,
                ),
    {
        assert((m_start + i) * k <= (m_start + mc - 1) * k) by (nonlinear_arith)
            requires
                i <= mc - 1,
        ;
        let src_offset: usize = (m_start + i) * k + k_start;
        let dst_offset: usize = i * KCB;
        let ghost d1 = dst@;
        for p in 0..kc
            invariant
                src_offset + kc <= a_u8.len(),
                dst_offset + kc <= dst.len(),
                dst@.len() == d0.len(),
                d1.len() == d0.len(),
                forall|x: int|
                    0 <= x < d0.len() ==> #[trigger] dst@[x] == (if dst_offset <= x < dst_offset
                        + p {
                        a_u8@[src_offset + (x - dst_offset)]
                    } else {
                        d1[x]
                    }),
        {
            dst[dst_offset + p] = a_u8[src_offset + p];
        }
    }
}

} // verus!
