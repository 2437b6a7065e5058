//! What holds of matrix multiplication as a whole.

use crate::arith::{
    lemma_div_mod_of, lemma_position, lemma_sum_split, lemma_wrap_add, lemma_wrap_mul,
    lemma_wrap_small, sum_range, wrap32,
};
use crate::bf16::{truncated, widened, PackedMatrixBf16};
use crate::kernels::{dot, lemma_dot_shift, stored};
use crate::layout::{is_padding, packed_addr, padded_with};
use crate::pack::PackedMatrix;
use crate::product::{block_beta, block_dot, gemm_entry, gemm_output, k_block_end, k_blocks};
use crate::scalar::Scalar;
use vstd::prelude::*;

verus! {

/// The exact product of row `i` of `a` and column `j` of `b`.
pub open spec fn exact_product(
    a: Seq<i32>,
    k: int,
    b: spec_fn(int, int) -> i32,
    i: int,
    j: int,
) -> int {
    sum_range(|p: int| a[i * k + p] * b(p, j), 0, k)
}

/// An accumulated product of integers is the exact product, wrapped.
proof fn lemma_integer_dot(
    fa: spec_fn(int) -> i32,
    fb: spec_fn(int) -> i32,
    f: spec_fn(int) -> int,
    lo: int,
    hi: int,
)
    requires
        forall|p: int| #[trigger] f(p) == fa(p) * fb(p),
    ensures
        dot(fa, fb, lo, hi) == wrap32(sum_range(f, lo, hi)),
    decreases hi - lo,
{
    if lo < hi {
        lemma_integer_dot(fa, fb, f, lo, hi - 1);
        assert(f(hi - 1) == fa(hi - 1) * fb(hi - 1));
        lemma_wrap_add(sum_range(f, lo, hi - 1), f(hi - 1));
    }
}

/// Storing an integer product adds it to `beta` times the output, wrapped.
proof fn lemma_integer_stored(beta: i32, c: int, x: int)
    ensures
        stored(beta, wrap32(c), wrap32(x)) == wrap32(beta * c + x),
{
    let cw = wrap32(c);
    let xw = wrap32(x);
    if beta == 0 {
        assert(beta * c == 0) by (nonlinear_arith)
            requires
                beta == 0,
        ;
    } else {
        lemma_wrap_add(beta * cw, xw as int);
        lemma_wrap_add(x, beta * cw);
        lemma_wrap_mul(c, beta as int);
        assert(beta * cw == cw * beta) by (nonlinear_arith);
        assert(beta * c == c * beta) by (nonlinear_arith);
        lemma_wrap_add(beta * cw, x);
        lemma_wrap_add(beta * c, x);
    }
}

/// After `blocks` blocks of integers, an output element holds the exact product so far.
proof fn lemma_integer_blocks(
    a: Seq<i32>,
    k: int,
    b: spec_fn(int, int) -> i32,
    beta: i32,
    c: i32,
    i: int,
    j: int,
    blocks: int,
)
    requires
        0 <= k,
        1 <= blocks <= k_blocks(k),
    ensures
        gemm_entry(a, k, b, beta, c, i, j, blocks) == wrap32(
            beta * c + sum_range(|p: int| a[i * k + p] * b(p, j), 0, k_block_end(k, blocks - 1)),
        ),
    decreases blocks,
{
    let q = blocks - 1;
    let f = |p: int| a[i * k + p] * b(p, j);
    let end = k_block_end(k, q);
    lemma_integer_dot(|p: int| a[i * k + p], |p: int| b(p, j), f, q * 512, end);
    let x = sum_range(f, q * 512, end);
    assert(block_dot(a, k, b, i, j, q) == wrap32(x));
    reveal_with_fuel(gemm_entry, 2);
    if q == 0 {
        lemma_wrap_small(c as int);
        lemma_integer_stored(beta, c as int, x);
    } else {
        lemma_integer_blocks(a, k, b, beta, c, i, j, q);
        let before = beta * c + sum_range(f, 0, k_block_end(k, q - 1));
        assert(k_block_end(k, q - 1) == q * 512);
        lemma_integer_stored(1, before, x);
        lemma_sum_split(f, 0, q * 512, end);
    }
}

/// On integers, every output element is `beta` times its old value plus the exact product of its
/// row and column, modulo 2^32: how the work is cut into blocks, groups and fringes leaves no
/// trace.
pub proof fn law_integer_product_is_exact(
    a: Seq<i32>,
    k: int,
    b: spec_fn(int, int) -> i32,
    beta: i32,
    c: i32,
    i: int,
    j: int,
)
    requires
        0 <= k,
    ensures
        gemm_entry(a, k, b, beta, c, i, j, k_blocks(k)) == wrap32(
            beta * c + exact_product(a, k, b, i, j),
        ),
{
    lemma_integer_blocks(a, k, b, beta, c, i, j, k_blocks(k));
    assert(k_block_end(k, k_blocks(k) - 1) == k);
}

/// Terms that are scaled modulo 2^32 have a sum that is scaled modulo 2^32.
proof fn lemma_scaled_sum(
    f: spec_fn(int) -> int,
    g: spec_fn(int) -> int,
    alpha: int,
    lo: int,
    hi: int,
)
    requires
        forall|p: int| lo <= p < hi ==> wrap32(#[trigger] g(p)) == wrap32(alpha * f(p)),
    ensures
        wrap32(sum_range(g, lo, hi)) == wrap32(alpha * sum_range(f, lo, hi)),
    decreases hi - lo,
{
    if lo < hi {
        lemma_scaled_sum(f, g, alpha, lo, hi - 1);
        let s = sum_range(f, lo, hi - 1);
        let t = sum_range(g, lo, hi - 1);
        let x = g(hi - 1);
        let y = f(hi - 1);
        assert(wrap32(x) == wrap32(alpha * y));
        assert(alpha * (s + y) == alpha * s + alpha * y) by (nonlinear_arith);
        lemma_wrap_add(t, x);
        lemma_wrap_add(alpha * s, x);
        lemma_wrap_add(x, alpha * s);
        lemma_wrap_add(alpha * y, alpha * s);
    } else {
        assert(alpha * 0 == 0);
    }
}

/// On integers, packing with a factor `alpha` multiplies the product by it and leaves `beta` times
/// the old output alone, modulo 2^32.
pub proof fn law_alpha_scales_product(
    a: Seq<i32>,
    k: int,
    b: spec_fn(int, int) -> i32,
    scaled: spec_fn(int, int) -> i32,
    alpha: i32,
    beta: i32,
    c: i32,
    i: int,
    j: int,
)
    requires
        0 <= k,
        forall|p: int| 0 <= p < k ==> #[trigger] scaled(p, j) == alpha.spec_times(b(p, j)),
    ensures
        wrap32(exact_product(a, k, scaled, i, j)) == wrap32(alpha * exact_product(a, k, b, i, j)),
        gemm_entry(a, k, scaled, beta, c, i, j, k_blocks(k)) == wrap32(
            beta * c + alpha * exact_product(a, k, b, i, j),
        ),
{
    let f = |p: int| a[i * k + p] * b(p, j);
    let g = |p: int| a[i * k + p] * scaled(p, j);
    assert forall|p: int| 0 <= p < k implies wrap32(#[trigger] g(p)) == wrap32(alpha * f(p)) by {
        let x = a[i * k + p];
        let y = b(p, j);
        assert(scaled(p, j) == wrap32(alpha * y));
        lemma_wrap_mul(alpha * y, x as int);
        assert(wrap32(alpha * y) * x == x * wrap32(alpha * y)) by (nonlinear_arith);
        assert((alpha * y) * x == alpha * (x * y)) by (nonlinear_arith);
    }
    lemma_scaled_sum(f, g, alpha as int, 0, k);
    law_integer_product_is_exact(a, k, scaled, beta, c, i, j);
    let s = exact_product(a, k, scaled, i, j);
    let t = alpha * exact_product(a, k, b, i, j);
    lemma_wrap_add(s, beta * c);
    lemma_wrap_add(t, beta * c);
}

/// An output element that was `c`, after the products of the first `blocks` blocks were stored.
pub open spec fn accumulated<T: Scalar>(
    beta: T,
    c: T,
    products: spec_fn(int) -> T,
    blocks: int,
) -> T
    decreases blocks,
{
    if blocks <= 0 {
        c
    } else {
        stored(
            block_beta(beta, blocks - 1),
            accumulated(beta, c, products, blocks - 1),
            products(blocks - 1),
        )
    }
}

/// Multiplying with `alpha` passes through the accumulation of a product.
pub open spec fn distributes<T: Scalar>(alpha: T) -> bool {
    &&& alpha.spec_times(T::spec_zero()) == T::spec_zero()
    &&& forall|acc: T, x: T, y: T|
        alpha.spec_times(acc).spec_mul_add(x, alpha.spec_times(y)) == alpha.spec_times(
            #[trigger] acc.spec_mul_add(x, y),
        )
}

/// A product with scaled elements is the scaled product.
proof fn lemma_scaled_dot<T: Scalar>(
    alpha: T,
    fa: spec_fn(int) -> T,
    fb: spec_fn(int) -> T,
    fs: spec_fn(int) -> T,
    lo: int,
    hi: int,
)
    requires
        distributes(alpha),
        forall|p: int| lo <= p < hi ==> #[trigger] fs(p) == alpha.spec_times(fb(p)),
    ensures
        dot(fa, fs, lo, hi) == alpha.spec_times(dot(fa, fb, lo, hi)),
    decreases hi - lo,
{
    if lo < hi {
        lemma_scaled_dot(alpha, fa, fb, fs, lo, hi - 1);
        assert(fs(hi - 1) == alpha.spec_times(fb(hi - 1)));
        let acc = dot(fa, fb, lo, hi - 1);
        assert(acc.spec_mul_add(fa(hi - 1), fb(hi - 1)) == dot(fa, fb, lo, hi));
    }
}

/// Equal products accumulate to the same element.
proof fn lemma_accumulated<T: Scalar>(
    a: Seq<T>,
    k: int,
    b: spec_fn(int, int) -> T,
    beta: T,
    c: T,
    i: int,
    j: int,
    products: spec_fn(int) -> T,
    blocks: int,
)
    requires
        forall|q: int| 0 <= q < blocks ==> #[trigger] products(q) == block_dot(a, k, b, i, j, q),
    ensures
        gemm_entry(a, k, b, beta, c, i, j, blocks) == accumulated(
            beta,
            c,
            products,
            blocks,
        ),
    decreases blocks,
{
    if blocks > 0 {
        lemma_accumulated(a, k, b, beta, c, i, j, products, blocks - 1);
        assert(products(blocks - 1) == block_dot(a, k, b, i, j, blocks - 1));
    }
}

/// Packing with a factor `alpha` that distributes over the accumulation multiplies the product of
/// every block by it, and leaves `beta` and the old output alone.
pub proof fn law_alpha_scales_every_block<T: Scalar>(
    a: Seq<T>,
    k: int,
    b: spec_fn(int, int) -> T,
    scaled: spec_fn(int, int) -> T,
    alpha: T,
    beta: T,
    c: T,
    i: int,
    j: int,
)
    requires
        0 <= k,
        distributes(alpha),
        forall|p: int| 0 <= p < k ==> #[trigger] scaled(p, j) == alpha.spec_times(b(p, j)),
    ensures
        gemm_entry(a, k, b, beta, c, i, j, k_blocks(k)) == accumulated(
            beta,
            c,
            |q: int| block_dot(a, k, b, i, j, q),
            k_blocks(k),
        ),
        gemm_entry(a, k, scaled, beta, c, i, j, k_blocks(k)) == accumulated(
            beta,
            c,
            |q: int| alpha.spec_times(block_dot(a, k, b, i, j, q)),
            k_blocks(k),
        ),
{
    let plain = |q: int| block_dot(a, k, b, i, j, q);
    lemma_accumulated(a, k, b, beta, c, i, j, plain, k_blocks(k));
    let products = |q: int| alpha.spec_times(block_dot(a, k, b, i, j, q));
    assert forall|q: int| 0 <= q < k_blocks(k) implies #[trigger] products(q) == block_dot(
        a,
        k,
        scaled,
        i,
        j,
        q,
    ) by {
        lemma_scaled_dot(
            alpha,
            |p: int| a[i * k + p],
            |p: int| b(p, j),
            |p: int| scaled(p, j),
            q * 512,
            k_block_end(k, q),
        );
    }
    lemma_accumulated(a, k, scaled, beta, c, i, j, products, k_blocks(k));
}

/// The first block with factor zero makes the old output irrelevant.
proof fn lemma_zero_beta_blocks<T: Scalar>(
    a: Seq<T>,
    k: int,
    b: spec_fn(int, int) -> T,
    beta: T,
    c1: T,
    c2: T,
    i: int,
    j: int,
    blocks: int,
)
    requires
        beta.spec_is_zero(),
        1 <= blocks,
    ensures
        gemm_entry(a, k, b, beta, c1, i, j, blocks) == gemm_entry(
            a,
            k,
            b,
            beta,
            c2,
            i,
            j,
            blocks,
        ),
    decreases blocks,
{
    reveal_with_fuel(gemm_entry, 2);
    if blocks > 1 {
        lemma_zero_beta_blocks(a, k, b, beta, c1, c2, i, j, blocks - 1);
    }
}

/// With factor zero the old output has no influence: it is overwritten.
pub proof fn law_zero_beta_overwrites<T: Scalar>(
    a: Seq<T>,
    k: int,
    b: spec_fn(int, int) -> T,
    beta: T,
    c1: T,
    c2: T,
    i: int,
    j: int,
)
    requires
        0 <= k,
        beta.spec_is_zero(),
    ensures
        gemm_entry(a, k, b, beta, c1, i, j, k_blocks(k)) == gemm_entry(
            a,
            k,
            b,
            beta,
            c2,
            i,
            j,
            k_blocks(k),
        ),
{
    lemma_zero_beta_blocks(a, k, b, beta, c1, c2, i, j, k_blocks(k));
}

/// Equal rows and columns give equal output elements after every block.
proof fn lemma_same_blocks<T: Scalar>(
    a1: Seq<T>,
    a2: Seq<T>,
    k: int,
    b1: spec_fn(int, int) -> T,
    b2: spec_fn(int, int) -> T,
    beta: T,
    c: T,
    i1: int,
    i2: int,
    j1: int,
    j2: int,
    blocks: int,
)
    requires
        forall|p: int| 0 <= p < k ==> #[trigger] a1[i1 * k + p] == a2[i2 * k + p],
        forall|p: int| 0 <= p < k ==> #[trigger] b1(p, j1) == b2(p, j2),
    ensures
        gemm_entry(a1, k, b1, beta, c, i1, j1, blocks) == gemm_entry(
            a2,
            k,
            b2,
            beta,
            c,
            i2,
            j2,
            blocks,
        ),
    decreases blocks,
{
    if blocks > 0 {
        let q = blocks - 1;
        lemma_same_blocks(a1, a2, k, b1, b2, beta, c, i1, i2, j1, j2, q);
        lemma_dot_shift(
            |p: int| a1[i1 * k + p],
            |p: int| b1(p, j1),
            |p: int| a2[i2 * k + p],
            |p: int| b2(p, j2),
            q * 512,
            k_block_end(k, q),
            0,
        );
    }
}

/// An output element depends only on its old value, its row of `a` and its column of `b`, in
/// matrices of any number of rows and columns: rows and columns can be multiplied together or in
/// separate calls, and a packed matrix can be used again with other rows.
pub proof fn law_entry_depends_on_row_and_column<T: Scalar>(
    a1: Seq<T>,
    a2: Seq<T>,
    k: int,
    b1: spec_fn(int, int) -> T,
    b2: spec_fn(int, int) -> T,
    beta: T,
    c: T,
    i1: int,
    i2: int,
    j1: int,
    j2: int,
)
    requires
        forall|p: int| 0 <= p < k ==> #[trigger] a1[i1 * k + p] == a2[i2 * k + p],
        forall|p: int| 0 <= p < k ==> #[trigger] b1(p, j1) == b2(p, j2),
    ensures
        gemm_entry(a1, k, b1, beta, c, i1, j1, k_blocks(k)) == gemm_entry(
            a2,
            k,
            b2,
            beta,
            c,
            i2,
            j2,
            k_blocks(k),
        ),
{
    lemma_same_blocks(a1, a2, k, b1, b2, beta, c, i1, i2, j1, j2, k_blocks(k));
}

/// Two matrices side by side: the columns of `b1`, then those of `b2`.
pub open spec fn side_by_side<T>(
    b1: spec_fn(int, int) -> T,
    n1: int,
    b2: spec_fn(int, int) -> T,
) -> spec_fn(int, int) -> T {
    |p: int, j: int|
        if j < n1 {
            b1(p, j)
        } else {
            b2(p, j - n1)
        }
}

/// Multiplying with two matrices side by side gives their outputs side by side, wherever the first
/// ends.
pub proof fn law_outputs_side_by_side<T: Scalar>(
    before: Seq<T>,
    after: Seq<T>,
    before1: Seq<T>,
    after1: Seq<T>,
    before2: Seq<T>,
    after2: Seq<T>,
    a: Seq<T>,
    m: int,
    k: int,
    b1: spec_fn(int, int) -> T,
    n1: int,
    b2: spec_fn(int, int) -> T,
    n2: int,
    beta: T,
    i: int,
)
    requires
        0 <= n1,
        0 <= n2,
        0 <= i < m,
        m * (n1 + n2) <= before.len(),
        m * n1 <= before1.len(),
        m * n2 <= before2.len(),
        gemm_output(before, after, a, m, k, side_by_side(b1, n1, b2), n1 + n2, beta),
        gemm_output(before1, after1, a, m, k, b1, n1, beta),
        gemm_output(before2, after2, a, m, k, b2, n2, beta),
        forall|j: int|
            0 <= j < n1 ==> #[trigger] before1[i * n1 + j] == before[i * (n1 + n2) + j],
        forall|j: int|
            0 <= j < n2 ==> #[trigger] before2[i * n2 + j] == before[i * (n1 + n2) + n1 + j],
    ensures
        forall|j: int| 0 <= j < n1 ==> after[i * (n1 + n2) + j] == #[trigger] after1[i * n1 + j],
        forall|j: int|
            0 <= j < n2 ==> after[i * (n1 + n2) + n1 + j] == #[trigger] after2[i * n2 + j],
{
    let n = n1 + n2;
    let b = side_by_side(b1, n1, b2);
    assert forall|j: int| 0 <= j < n1 implies after[i * n + j] == #[trigger] after1[i * n1 + j] by {
        lemma_row_position(i, j, m, n);
        lemma_row_position(i, j, m, n1);
        assert(before1[i * n1 + j] == before[i * n + j]);
        lemma_same_blocks(a, a, k, b, b1, beta, before[i * n + j], i, i, j, j, k_blocks(k));
    }
    assert forall|j: int| 0 <= j < n2 implies after[i * n + n1 + j] == #[trigger] after2[i * n2
        + j] by {
        lemma_row_position(i, n1 + j, m, n);
        lemma_row_position(i, j, m, n2);
        assert(i * n + n1 + j == i * n + (n1 + j));
        assert(before2[i * n2 + j] == before[i * n + n1 + j]);
        let c = before[i * n + n1 + j];
        lemma_same_blocks(a, a, k, b, b2, beta, c, i, i, n1 + j, j, k_blocks(k));
    }
}

/// Element `(i, j)` of `m` rows of length `n` lies at `i * n + j`.
pub(crate) proof fn lemma_row_position(i: int, j: int, m: int, n: int)
    requires
        0 <= i < m,
        0 <= j < n,
    ensures
        0 <= i * n + j < m * n,
        (i * n + j) / n == i,
        (i * n + j) % n == j,
{
    lemma_div_mod_of(i, j, n);
    assert(0 <= i * n + j < m * n) by (nonlinear_arith)
        requires
            0 <= i < m,
            0 <= j < n,
    ;
}

/// Matrices with the same elements give the same output, however they were packed.
pub proof fn law_equal_matrices_give_equal_outputs<T: Scalar>(
    before: Seq<T>,
    after: Seq<T>,
    a: Seq<T>,
    m: int,
    k: int,
    b1: spec_fn(int, int) -> T,
    b2: spec_fn(int, int) -> T,
    n: int,
    beta: T,
)
    requires
        0 <= n,
        gemm_output(before, after, a, m, k, b1, n, beta),
        forall|p: int, j: int| 0 <= p < k && 0 <= j < n ==> #[trigger] b1(p, j) == b2(p, j),
    ensures
        gemm_output(before, after, a, m, k, b2, n, beta),
{
    assert forall|x: int| 0 <= x < before.len() implies #[trigger] after[x] == (if x < m * n {
        gemm_entry(a, k, b2, beta, before[x], x / n, x % n, k_blocks(k))
    } else {
        before[x]
    }) by {
        if x < m * n {
            lemma_position(x, m, n);
            let c = before[x];
            let i = x / n;
            let j = x % n;
            lemma_same_blocks(a, a, k, b1, b2, beta, c, i, i, j, j, k_blocks(k));
        }
    }
}

/// The output is determined by the operands: every way to compute it, on one thread or on many,
/// from plain or from widened elements, gives the same.
pub proof fn law_output_is_determined<T: Scalar>(
    before: Seq<T>,
    after1: Seq<T>,
    after2: Seq<T>,
    a: Seq<T>,
    m: int,
    k: int,
    b: spec_fn(int, int) -> T,
    n: int,
    beta: T,
)
    requires
        gemm_output(before, after1, a, m, k, b, n, beta),
        gemm_output(before, after2, a, m, k, b, n, beta),
    ensures
        after1 == after2,
{
    assert forall|x: int| 0 <= x < after1.len() implies after1[x] == after2[x] by {
        assert(after1[x] == after2[x]);
    }
    assert(after1 =~= after2);
}

/// Truncation undoes widening, and widening after truncation clears the lower half.
pub proof fn law_bf16_round_trip(x: u16, bits: u32)
    ensures
        truncated(widened(x)) == x,
        widened(truncated(bits)) == bits - bits % 65536,
{
}

/// Converting a bfloat16 to an element and back gives the bfloat16 again, and converting an element
/// to bfloat16 and back clears the lower half of its bits: the sign stays and the magnitude does
/// not grow.
pub proof fn law_bf16_conversions_round_trip<T: Scalar>(x: u16, v: T)
    ensures
        truncated(T::spec_from_bits(widened(x)).spec_to_bits()) == x,
        ({
            let bits = v.spec_to_bits();
            let back = T::spec_from_bits(widened(truncated(bits))).spec_to_bits();
            &&& back == bits & 0xffff_0000
            &&& back == bits - bits % 65536
            &&& back >= 0x8000_0000 <==> bits >= 0x8000_0000
            &&& back % 0x8000_0000 <= bits % 0x8000_0000
        }),
{
    let bits = v.spec_to_bits();
    law_bf16_round_trip(x, bits);
    T::lemma_bits(widened(x), v);
    T::lemma_bits(widened(truncated(bits)), v);
    assert(bits & 0xffff_0000 == bits - bits % 65536) by (bit_vector);
}

/// Packed matrices with equal elements and equal padding are equal in every position.
proof fn lemma_same_positions<E>(e1: Seq<E>, e2: Seq<E>, k: int, n: int, fill: E)
    requires
        e1.len() == e2.len(),
        padded_with(e1, k, n, fill),
        padded_with(e2, k, n, fill),
        forall|p: int, j: int|
            0 <= p < k && 0 <= j < n ==> e1[#[trigger] packed_addr(k, n, p, j)] == e2[packed_addr(
                k,
                n,
                p,
                j,
            )],
    ensures
        e1 == e2,
{
    assert forall|x: int| 0 <= x < e1.len() implies e1[x] == e2[x] by {
        if is_padding(k, n, x) {
            assert(e1[x] == fill && e2[x] == fill);
        }
    }
    assert(e1 =~= e2);
}

/// Packing a matrix and packing its column-major form give the same packed matrix: equal
/// dimensions, and equal elements in every position.
pub proof fn law_transposed_packing_agrees<T: Scalar>(
    data: Seq<T>,
    data_t: Seq<T>,
    plain: &PackedMatrix<T>,
    turned: &PackedMatrix<T>,
)
    requires
        plain.wf(),
        turned.wf(),
        turned.spec_k() == plain.spec_k(),
        turned.spec_n() == plain.spec_n(),
        padded_with(plain.elements(), plain.spec_k(), plain.spec_n(), T::spec_zero()),
        padded_with(turned.elements(), plain.spec_k(), plain.spec_n(), T::spec_zero()),
        forall|p: int, j: int|
            0 <= p < plain.spec_k() && 0 <= j < plain.spec_n() ==> {
                &&& #[trigger] plain.entry(p, j) == data[p * plain.spec_n() + j]
                &&& turned.entry(p, j) == data_t[p + plain.spec_k() * j]
                &&& data_t[p + plain.spec_k() * j] == data[p * plain.spec_n() + j]
            },
    ensures
        turned.elements() == plain.elements(),
{
    plain.lemma_wf();
    turned.lemma_wf();
    let k = plain.spec_k();
    let n = plain.spec_n();
    let (e1, e2) = (turned.elements(), plain.elements());
    assert forall|p: int, j: int| 0 <= p < k && 0 <= j < n implies e1[#[trigger] packed_addr(
        k,
        n,
        p,
        j,
    )] == e2[packed_addr(k, n, p, j)] by {
        assert(plain.entry(p, j) == turned.entry(p, j));
    }
    lemma_same_positions(e1, e2, k, n, T::spec_zero());
}

/// Packing with a factor that changes nothing gives the same packed matrix as packing without.
pub proof fn law_unit_alpha_packing_agrees<T: Scalar>(
    data: Seq<T>,
    alpha: T,
    plain: &PackedMatrix<T>,
    scaled: &PackedMatrix<T>,
)
    requires
        forall|x: T| #[trigger] alpha.spec_times(x) == x,
        plain.wf(),
        scaled.wf(),
        scaled.spec_k() == plain.spec_k(),
        scaled.spec_n() == plain.spec_n(),
        padded_with(plain.elements(), plain.spec_k(), plain.spec_n(), T::spec_zero()),
        padded_with(scaled.elements(), plain.spec_k(), plain.spec_n(), T::spec_zero()),
        forall|p: int, j: int|
            0 <= p < plain.spec_k() && 0 <= j < plain.spec_n() ==> {
                &&& #[trigger] plain.entry(p, j) == data[p * plain.spec_n() + j]
                &&& scaled.entry(p, j) == alpha.spec_times(data[p * plain.spec_n() + j])
            },
    ensures
        scaled.elements() == plain.elements(),
{
    plain.lemma_wf();
    scaled.lemma_wf();
    let k = plain.spec_k();
    let n = plain.spec_n();
    let (e1, e2) = (scaled.elements(), plain.elements());
    assert forall|p: int, j: int| 0 <= p < k && 0 <= j < n implies e1[#[trigger] packed_addr(
        k,
        n,
        p,
        j,
    )] == e2[packed_addr(k, n, p, j)] by {
        assert(plain.entry(p, j) == scaled.entry(p, j));
    }
    lemma_same_positions(e1, e2, k, n, T::spec_zero());
}

/// The same in bfloat16: packing a matrix and packing its column-major form give the same packed
/// matrix, in every position.
pub proof fn law_bf16_transposed_packing_agrees<T: Scalar>(
    src: Seq<T>,
    src_t: Seq<T>,
    plain: &PackedMatrixBf16,
    turned: &PackedMatrixBf16,
)
    requires
        plain.wf(),
        turned.wf(),
        turned.spec_k() == plain.spec_k(),
        turned.spec_n() == plain.spec_n(),
        padded_with(plain.elements(), plain.spec_k(), plain.spec_n(), 0),
        padded_with(turned.elements(), plain.spec_k(), plain.spec_n(), 0),
        forall|p: int, j: int|
            0 <= p < plain.spec_k() && 0 <= j < plain.spec_n() ==> {
                &&& #[trigger] plain.half(p, j) == truncated(
                    src[p * plain.spec_n() + j].spec_to_bits(),
                )
                &&& turned.half(p, j) == truncated(src_t[p + plain.spec_k() * j].spec_to_bits())
                &&& src_t[p + plain.spec_k() * j] == src[p * plain.spec_n() + j]
            },
    ensures
        turned.elements() == plain.elements(),
{
    plain.lemma_wf();
    turned.lemma_wf();
    let k = plain.spec_k();
    let n = plain.spec_n();
    let (e1, e2) = (turned.elements(), plain.elements());
    assert forall|p: int, j: int| 0 <= p < k && 0 <= j < n implies e1[#[trigger] packed_addr(
        k,
        n,
        p,
        j,
    )] == e2[packed_addr(k, n, p, j)] by {
        assert(plain.half(p, j) == turned.half(p, j));
    }
    lemma_same_positions(e1, e2, k, n, 0);
}

/// A matrix whose elements have an empty lower half loses nothing in bfloat16: the product is that
/// of the matrix itself.
pub proof fn law_bf16_is_exact_for_short_elements<T: Scalar>(
    before: Seq<T>,
    after: Seq<T>,
    a: Seq<T>,
    m: int,
    src: spec_fn(int, int) -> T,
    packed: &PackedMatrixBf16,
    beta: T,
)
    requires
        packed.wf(),
        forall|p: int, j: int|
            0 <= p < packed.spec_k() && 0 <= j < packed.spec_n() ==> #[trigger] packed.half(p, j)
                == truncated(src(p, j).spec_to_bits()),
        forall|p: int, j: int|
            0 <= p < packed.spec_k() && 0 <= j < packed.spec_n() ==> (#[trigger] src(
                p,
                j,
            )).spec_to_bits() % 65536 == 0,
        gemm_output(
            before,
            after,
            a,
            m,
            packed.spec_k(),
            packed.matrix(),
            packed.spec_n(),
            beta,
        ),
    ensures
        gemm_output(before, after, a, m, packed.spec_k(), src, packed.spec_n(), beta),
{
    packed.lemma_wf();
    let b = packed.matrix::<T>();
    assert forall|p: int, j: int|
        0 <= p < packed.spec_k() && 0 <= j < packed.spec_n() implies #[trigger] b(p, j) == src(
        p,
        j,
    ) by {
        law_bf16_round_trip(0, src(p, j).spec_to_bits());
        T::lemma_bits(0, src(p, j));
        assert(packed.half(p, j) == truncated(src(p, j).spec_to_bits()));
    }
    law_equal_matrices_give_equal_outputs(
        before,
        after,
        a,
        m,
        packed.spec_k(),
        b,
        src,
        packed.spec_n(),
        beta,
    );
}

/// A matrix packed in bfloat16 holds as many elements as one packed in full, at two bytes in place
/// of four.
pub proof fn law_bf16_halves_memory<T: Scalar>(full: &PackedMatrix<T>, half: &PackedMatrixBf16)
    requires
        full.wf(),
        half.wf(),
        full.spec_k() == half.spec_k(),
        full.spec_n() == half.spec_n(),
    ensures
        full.elements().len() == half.elements().len(),
        4 * full.elements().len() == 2 * (2 * half.elements().len()),
{
    full.lemma_wf();
    half.lemma_wf();
}

} // verus!
