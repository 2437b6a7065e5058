//! Quantization of activations, row by row.

use crate::scalar::Activation;
use vstd::prelude::*;

verus! {

/// The least of zero and the first `k` elements from `base` on.
pub open spec fn row_least<T: Activation>(a: Seq<T>, base: int, k: int) -> T
    decreases k,
{
    if k <= 0 {
        T::spec_zero()
    } else {
        row_least(a, base, k - 1).spec_lesser(a[base + k - 1])
    }
}

/// The greatest of zero and the first `k` elements from `base` on.
pub open spec fn row_greatest<T: Activation>(a: Seq<T>, base: int, k: int) -> T
    decreases k,
{
    if k <= 0 {
        T::spec_zero()
    } else {
        row_greatest(a, base, k - 1).spec_greater(a[base + k - 1])
    }
}

/// The quantization step of row `i` of a matrix with row length `k`.
pub open spec fn row_scale<T: Activation>(a: Seq<T>, k: int, i: int) -> T {
    T::spec_scale(row_least(a, i * k, k), row_greatest(a, i * k, k))
}

/// The zero point of row `i` of a matrix with row length `k`.
pub open spec fn row_zero_point<T: Activation>(a: Seq<T>, k: int, i: int) -> i32 {
    T::spec_zero_point(row_least(a, i * k, k), row_greatest(a, i * k, k))
}

/// The bytes of an M×K matrix, each quantized with the scale and zero point of its row.
pub open spec fn quantized_bytes<T: Activation>(a: Seq<T>, m: int, k: int) -> Seq<u8> {
    Seq::new(
        (m * k) as nat,
        |x: int| a[x].spec_quantize(row_scale(a, k, x / k), row_zero_point(a, k, x / k)),
    )
}

/// The scales of an M×K matrix, by row.
pub open spec fn row_scales<T: Activation>(a: Seq<T>, m: int, k: int) -> Seq<T> {
    Seq::new(m as nat, |i: int| row_scale(a, k, i))
}

/// The zero points of an M×K matrix, by row.
pub open spec fn row_zero_points<T: Activation>(a: Seq<T>, m: int, k: int) -> Seq<i32> {
    Seq::new(m as nat, |i: int| row_zero_point(a, k, i))
}

/// Quantizes an M×K matrix row by row into the given buffers, which it overwrites.
pub fn quantize_a_per_row_into_no_offsets<T: Activation>(
    a: &[T],
    m: usize,
    k: usize,
    a_u8: &mut Vec<u8>,
    scales: &mut Vec<T>,
    zero_points: &mut Vec<i32>,
)
    requires
        m * k <= a@.len(),
    ensures
        final(a_u8)@ == quantized_bytes(a@, m as int, k as int),
        final(scales)@ == row_scales(a@, m as int, k as int),
        final(zero_points)@ == row_zero_points(a@, m as int, k as int),
{
    a_u8.clear();
    scales.clear();
    zero_points.clear();
    assert(0 * k == 0) by (nonlinear_arith);
    for i in 0..m
        invariant
            m * k <= a.len(),
            a_u8@.len() == i * k,
            forall|x: int|
                0 <= x < i * k ==> #[trigger] a_u8@[x] == quantized_bytes(
                    a@,
                    m as int,
                    k as int,
                )[x],
            scales@ == row_scales(a@, i as int, k as int),
            zero_points@ == row_zero_points(a@, i as int, k as int),
    {
        proof {
            assert(i * k + k <= m * k && 0 <= i * k) by (nonlinear_arith)
                requires
                    0 <= i < m,
                    0 <= k,
            ;
            assert((i + 1) * k == i * k + k) by (nonlinear_arith);
        }
        let base: usize = i * k;
        let mut lo = T::zero();
        let mut hi = T::zero();
        for p in 0..k
            invariant
                base + k <= a.len(),
                lo == row_least(a@, base as int, p as int),
                hi == row_greatest(a@, base as int, p as int),
        {
            lo = lo.lesser(a[base + p]);
            hi = hi.greater(a[base + p]);
        }
        let scale = T::scale(lo, hi);
        let zero_point = T::zero_point(lo, hi);
        for p in 0..k
            invariant
                i < m,
                base == i * k,
                base + k <= m * k <= a.len(),
                scale == row_scale(a@, k as int, i as int),
                zero_point == row_zero_point(a@, k as int, i as int),
                a_u8@.len() == base + p,
                forall|x: int|
                    0 <= x < base + p ==> #[trigger] a_u8@[x] == quantized_bytes(
                        a@,
                        m as int,
                        k as int,
                    )[x],
        {
            proof {
                crate::arith::lemma_div_mod_of(i as int, p as int, k as int);
            }
            a_u8.push(a[base + p].quantize(scale, zero_point));
        }
        scales.push(scale);
        zero_points.push(zero_point);
        assert(scales@ =~= row_scales(a@, i + 1, k as int));
        assert(zero_points@ =~= row_zero_points(a@, i + 1, k as int));
    }
    assert(a_u8@ =~= quantized_bytes(a@, m as int, k as int));
}

} // verus!
