//! Integer arithmetic shared by the matrix kernels: 32-bit wraparound and finite sums.

use vstd::arithmetic::div_mod::*;
use vstd::arithmetic::mul::*;
use vstd::prelude::*;

verus! {

/// The 32-bit two's-complement value that an accumulator holds for the integer `x`.
pub open spec fn wrap32(x: int) -> i32 {
    ((x + 0x8000_0000) % 0x1_0000_0000 - 0x8000_0000) as i32
}

/// The sum of `f(i)` for `lo <= i < hi`.
pub open spec fn sum_range(f: spec_fn(int) -> int, lo: int, hi: int) -> int
    decreases hi - lo,
{
    if hi <= lo {
        0
    } else {
        sum_range(f, lo, hi - 1) + f(hi - 1)
    }
}

/// A value that fits in 32 bits is its own wrapped value.
pub proof fn lemma_wrap_small(x: int)
    requires
        i32::MIN <= x <= i32::MAX,
    ensures
        wrap32(x) == x,
{
}

/// Whole multiples of the 32-bit range vanish under wraparound.
pub proof fn lemma_wrap_period(x: int, q: int)
    ensures
        wrap32(x + 0x1_0000_0000 * q) == wrap32(x),
{
    lemma_mod_multiples_vanish(q, x + 0x8000_0000, 0x1_0000_0000);
}

/// The wrapped value differs from the integer by a multiple of the 32-bit range.
pub proof fn lemma_wrap_quotient(x: int) -> (q: int)
    ensures
        wrap32(x) == x + 0x1_0000_0000 * q,
{
    -((x + 0x8000_0000) / 0x1_0000_0000)
}

/// Wrapping keeps the value modulo 2^32.
pub proof fn lemma_wrap_congruent(x: int)
    ensures
        (wrap32(x) - x) % 0x1_0000_0000 == 0,
{
    let q = lemma_wrap_quotient(x);
    lemma_mod_multiples_basic(q, 0x1_0000_0000);
}

/// Wrapping an intermediate sum does not change the final wrapped sum.
pub proof fn lemma_wrap_add(x: int, y: int)
    ensures
        wrap32(wrap32(x) + y) == wrap32(x + y),
{
    let q = lemma_wrap_quotient(x);
    lemma_wrap_period(x + y, q);
}

/// Wrapping an intermediate factor does not change the final wrapped product.
pub proof fn lemma_wrap_mul(x: int, y: int)
    ensures
        wrap32(wrap32(x) * y) == wrap32(x * y),
{
    let q = lemma_wrap_quotient(x);
    assert((x + 0x1_0000_0000 * q) * y == x * y + 0x1_0000_0000 * (q * y)) by (nonlinear_arith);
    lemma_wrap_period(x * y, q * y);
}

/// Wrapping the subtrahend does not change the final wrapped difference.
pub proof fn lemma_wrap_sub(x: int, y: int)
    ensures
        wrap32(y - wrap32(x)) == wrap32(y - x),
{
    let q = lemma_wrap_quotient(x);
    lemma_wrap_period(y - x, -q);
}

/// `wrapping_add`, `wrapping_sub` and `wrapping_mul` on `i32` in terms of `wrap32`.
pub proof fn lemma_wrapping_ops(x: i32, y: i32)
    ensures
        x.wrapping_add(y) == wrap32(x + y),
        x.wrapping_sub(y) == wrap32(x - y),
        x.wrapping_mul(y) == wrap32(x * y),
{
    let p: int = x * y;
    let r = p % 0x1_0000_0000;
    let q = p / 0x1_0000_0000;
    lemma_fundamental_div_mod(p, 0x1_0000_0000);
    assert(p == r + 0x1_0000_0000 * q);
    lemma_wrap_period(r, q);
}

/// Two sums with the same terms are equal.
pub proof fn lemma_sum_eq(f: spec_fn(int) -> int, g: spec_fn(int) -> int, lo: int, hi: int)
    requires
        forall|i: int| lo <= i < hi ==> #[trigger] f(i) == g(i),
    ensures
        sum_range(f, lo, hi) == sum_range(g, lo, hi),
    decreases hi - lo,
{
    if lo < hi {
        lemma_sum_eq(f, g, lo, hi - 1);
        assert(f(hi - 1) == g(hi - 1));
    }
}

/// A sum splits at any point of its range.
pub proof fn lemma_sum_split(f: spec_fn(int) -> int, lo: int, mid: int, hi: int)
    requires
        lo <= mid <= hi,
    ensures
        sum_range(f, lo, hi) == sum_range(f, lo, mid) + sum_range(f, mid, hi),
    decreases hi - mid,
{
    if mid < hi {
        lemma_sum_split(f, lo, mid, hi - 1);
    }
}

/// A sum may be re-indexed by a shift of its range.
pub proof fn lemma_sum_shift(
    f: spec_fn(int) -> int,
    g: spec_fn(int) -> int,
    lo: int,
    hi: int,
    d: int,
)
    requires
        forall|i: int| lo <= i < hi ==> #[trigger] f(i) == g(i + d),
    ensures
        sum_range(f, lo, hi) == sum_range(g, lo + d, hi + d),
    decreases hi - lo,
{
    if lo < hi {
        lemma_sum_shift(f, g, lo, hi - 1, d);
        assert(f(hi - 1) == g(hi - 1 + d));
    }
}

/// A sum of zeros is zero.
pub proof fn lemma_sum_zero(f: spec_fn(int) -> int, lo: int, hi: int)
    requires
        forall|i: int| lo <= i < hi ==> #[trigger] f(i) == 0,
    ensures
        sum_range(f, lo, hi) == 0,
    decreases hi - lo,
{
    if lo < hi {
        lemma_sum_zero(f, lo, hi - 1);
        assert(f(hi - 1) == 0);
    }
}

/// A sum with one nonzero term at `at` equals that term.
pub proof fn lemma_sum_single(f: spec_fn(int) -> int, lo: int, hi: int, at: int)
    requires
        lo <= at < hi,
        forall|i: int| lo <= i < hi && i != at ==> #[trigger] f(i) == 0,
    ensures
        sum_range(f, lo, hi) == f(at),
{
    lemma_sum_split(f, lo, at, hi);
    lemma_sum_split(f, at, at + 1, hi);
    lemma_sum_zero(f, lo, at);
    lemma_sum_zero(f, at + 1, hi);
    reveal_with_fuel(sum_range, 2);
}

/// A sum of `f(i) - c * g(i)` splits into the sum of `f` and `c` times the sum of `g`.
pub proof fn lemma_sum_combine(
    h: spec_fn(int) -> int,
    f: spec_fn(int) -> int,
    c: int,
    g: spec_fn(int) -> int,
    lo: int,
    hi: int,
)
    requires
        forall|i: int| lo <= i < hi ==> #[trigger] h(i) == f(i) - c * g(i),
    ensures
        sum_range(h, lo, hi) == sum_range(f, lo, hi) - c * sum_range(g, lo, hi),
    decreases hi - lo,
{
    if lo < hi {
        lemma_sum_combine(h, f, c, g, lo, hi - 1);
        assert(h(hi - 1) == f(hi - 1) - c * g(hi - 1));
        lemma_mul_is_distributive_add(c, sum_range(g, lo, hi - 1), g(hi - 1));
    }
}

/// Quotient and remainder of `q * d + r`.
pub proof fn lemma_div_mod_of(q: int, r: int, d: int)
    requires
        0 <= r < d,
    ensures
        (q * d + r) / d == q,
        (q * d + r) % d == r,
{
    lemma_fundamental_div_mod_converse(q * d + r, d, q, r);
}

/// A position within `m` rows of length `n` lies in one of the rows.
pub proof fn lemma_position(x: int, m: int, n: int)
    requires
        0 <= x < m * n,
        0 <= n,
    ensures
        n > 0,
        0 <= x / n < m,
        0 <= x % n < n,
        x == (x / n) * n + x % n,
{
    assert(n > 0) by (nonlinear_arith)
        requires
            0 <= x < m * n,
            0 <= n,
    ;
    lemma_fundamental_div_mod(x, n);
    assert(x / n < m) by (nonlinear_arith)
        requires
            x == n * (x / n) + x % n,
            0 <= x % n,
            x < m * n,
            n > 0,
    ;
    assert(0 <= x / n) by (nonlinear_arith)
        requires
            0 <= x,
            n > 0,
    ;
    assert((x / n) * n == n * (x / n)) by (nonlinear_arith);
}

} // verus!
