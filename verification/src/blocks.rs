//! Cutting a range into blocks of equal size, of which the last may be shorter.

use vstd::prelude::*;

verus! {

/// Number of blocks of `size` that cover `len` elements.
pub open spec fn block_count(len: int, size: int) -> int {
    if len % size == 0 {
        len / size
    } else {
        len / size + 1
    }
}

/// Number of elements in block `b` of `size` out of `len`.
pub open spec fn block_len(len: int, size: int, b: int) -> int {
    if len - b * size < size {
        len - b * size
    } else {
        size
    }
}

/// The number of blocks of `size` that cover `len` elements.
pub(crate) fn count_blocks(len: usize, size: usize) -> (r: usize)
    requires
        size > 0,
    ensures
        r == block_count(len as int, size as int),
        r <= len,
        len > 0 ==> r > 0,
        r * size >= len,
        r > 0 ==> (r - 1) * size < len,
{
    let q: usize = len / size;
    proof {
        vstd::arithmetic::div_mod::lemma_fundamental_div_mod(len as int, size as int);
        assert(q * size == size * q) by (nonlinear_arith);
        assert(q <= q * size) by (nonlinear_arith)
            requires
                size >= 1,
                q >= 0,
        ;
        assert((q + 1) * size == q * size + size) by (nonlinear_arith);
        assert((q - 1) * size == q * size - size) by (nonlinear_arith);
    }
    if len % size == 0 {
        q
    } else {
        q + 1
    }
}

} // verus!
