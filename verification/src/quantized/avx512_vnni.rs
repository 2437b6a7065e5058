//! The kernel with four-element dot-product instructions.

use crate::quantized::tile::{add_simd_tile, block_added, dot_unsigned, KCB, NR};
use vstd::prelude::*;

verus! {

/// Adds the products of `mc` packed activation rows and one weight tile to the output.
///
/// The activations have a row stride of `KCB` bytes, the tile is row-interleaved, and row `i` of
/// the output starts at `i * ldc`. Products are exact and added in wrapping 32-bit arithmetic.
pub fn dispatch_i8_kernel(
    mc: usize,
    buffer_a: &[u8],
    buffer_b: &[i8],
    buffer_c: &mut [i32],
    kc: usize,
    ldc: usize,
)
    requires
        1 <= mc <= 12,
        kc > 0,
        kc % 4 == 0,
        (mc - 1) * KCB + kc <= buffer_a@.len(),
        kc * NR <= buffer_b@.len(),
        (mc - 1) * ldc + NR <= old(buffer_c)@.len(),
    ensures
        block_added(
            old(buffer_c)@,
            final(buffer_c)@,
            |i: int, j: int| dot_unsigned(buffer_a@, i * KCB, buffer_b@, j, kc as int),
            mc as int,
            NR as int,
            ldc as int,
        ),
{
    add_simd_tile(mc, buffer_a, buffer_b, buffer_c, kc, ldc);
}

} // verus!
