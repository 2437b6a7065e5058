//! What the results of packing and multiplication are, in terms of the operands and of element
//! operations alone.

use crate::arith::lemma_wrap_congruent;
use crate::bf16::{truncated, widened, PackedMatrixBf16};
use crate::blocks::{block_count, block_len};
use crate::kernels::{dot, stored};
use crate::laws::{
    law_equal_matrices_give_equal_outputs, law_zero_beta_overwrites, lemma_row_position,
};
use crate::layout::{
    is_padding, lemma_addr_bound, packed_addr, packed_size, padded_with,
};
use crate::pack::PackedMatrix;
use crate::partition::{
    group_start, groups_tile, groups_view, law_row_groups_tile, partition_cycles, row_groups,
};
use crate::product::{block_dot, gemm_entry, gemm_output, k_block_end, k_blocks};
use crate::scalar::Scalar;
use vstd::arithmetic::div_mod::{lemma_fundamental_div_mod, lemma_mod_multiples_basic};
use vstd::prelude::*;

verus! {

/// `x` and `y` differ by a multiple of `m`.
spec fn congruent(x: int, y: int, m: int) -> bool {
    (x - y) % m == 0
}

/// A multiple of `m` is congruent to zero.
proof fn lemma_congruent_by(x: int, y: int, q: int, m: int)
    requires
        1 <= m,
        x == y + q * m,
    ensures
        congruent(x, y, m),
{
    lemma_mod_multiples_basic(q, m);
}

/// The quotient that a congruence stands for.
proof fn lemma_congruent_quotient(x: int, y: int, m: int) -> (q: int)
    requires
        1 <= m,
        congruent(x, y, m),
    ensures
        x == y + q * m,
{
    lemma_fundamental_div_mod(x - y, m);
    let q = (x - y) / m;
    assert(m * q == q * m) by (nonlinear_arith);
    q
}

/// Congruences can be chained.
proof fn lemma_congruent_trans(x: int, y: int, z: int, m: int)
    requires
        1 <= m,
        congruent(x, y, m),
        congruent(y, z, m),
    ensures
        congruent(x, z, m),
{
    let q = lemma_congruent_quotient(x, y, m);
    let r = lemma_congruent_quotient(y, z, m);
    assert((q + r) * m == q * m + r * m) by (nonlinear_arith);
    lemma_congruent_by(x, z, q + r, m);
}

/// Congruences can be added and multiplied.
proof fn lemma_congruent_ops(x: int, x2: int, y: int, y2: int, m: int)
    requires
        1 <= m,
        congruent(x, x2, m),
        congruent(y, y2, m),
    ensures
        congruent(x + y, x2 + y2, m),
        congruent(x * y, x2 * y2, m),
{
    let q = lemma_congruent_quotient(x, x2, m);
    let r = lemma_congruent_quotient(y, y2, m);
    assert((q + r) * m == q * m + r * m) by (nonlinear_arith);
    lemma_congruent_by(x + y, x2 + y2, q + r, m);
    let u = q * m;
    let v = r * m;
    assert((x2 + u) * (y2 + v) == x2 * y2 + x2 * v + u * y2 + u * v) by (nonlinear_arith);
    assert(x2 * v == (x2 * r) * m) by (nonlinear_arith)
        requires
            v == r * m,
    ;
    assert(u * y2 == (q * y2) * m) by (nonlinear_arith)
        requires
            u == q * m,
    ;
    assert(u * v == (u * r) * m) by (nonlinear_arith)
        requires
            v == r * m,
    ;
    let s = x2 * r + q * y2 + u * r;
    assert(s * m == (x2 * r) * m + (q * y2) * m + (u * r) * m) by (nonlinear_arith)
        requires
            s == x2 * r + q * y2 + u * r,
    ;
    lemma_congruent_by(x * y, x2 * y2, s, m);
}

/// Element operations compute with the values of elements, modulo `m`.
spec fn computes<T: Scalar>(value: spec_fn(T) -> int, m: int) -> bool {
    &&& 1 <= m
    &&& congruent(value(T::spec_zero()), 0, m)
    &&& congruent(value(T::spec_one()), 1, m)
    &&& forall|x: T, y: T| congruent(value(#[trigger] x.spec_plus(y)), value(x) + value(y), m)
    &&& forall|x: T, y: T| congruent(value(#[trigger] x.spec_times(y)), value(x) * value(y), m)
    &&& forall|s: T, x: T, y: T|
        congruent(value(#[trigger] s.spec_mul_add(x, y)), value(s) + value(x) * value(y), m)
    &&& forall|x: T| #[trigger] x.spec_is_zero() ==> congruent(value(x), 0, m)
}

/// The value of an accumulated product is the sum of the products of values.
proof fn lemma_dot_value<T: Scalar>(
    value: spec_fn(T) -> int,
    m: int,
    fa: spec_fn(int) -> T,
    fb: spec_fn(int) -> T,
    sums: spec_fn(int) -> int,
    lo: int,
    hi: int,
)
    requires
        computes(value, m),
        lo <= hi,
        forall|p: int|
            lo <= p < hi ==> sums(p + 1) == #[trigger] sums(p) + value(fa(p)) * value(fb(p)),
    ensures
        congruent(value(dot(fa, fb, lo, hi)), sums(hi) - sums(lo), m),
    decreases hi - lo,
{
    if lo < hi {
        let p = hi - 1;
        let s = dot(fa, fb, lo, p);
        lemma_dot_value(value, m, fa, fb, sums, lo, p);
        assert(sums(p + 1) == sums(p) + value(fa(p)) * value(fb(p)));
        let t = value(fa(p)) * value(fb(p));
        assert(dot(fa, fb, lo, hi) == s.spec_mul_add(fa(p), fb(p)));
        assert(congruent(value(s.spec_mul_add(fa(p), fb(p))), value(s) + t, m));
        lemma_congruent_by(t, t, 0, m);
        lemma_congruent_ops(value(s), sums(p) - sums(lo), t, t, m);
        lemma_congruent_trans(
            value(s.spec_mul_add(fa(p), fb(p))),
            value(s) + t,
            sums(hi) - sums(lo),
            m,
        );
    }
}

/// The value of a stored product.
proof fn lemma_stored_value<T: Scalar>(
    value: spec_fn(T) -> int,
    m: int,
    beta: T,
    c: T,
    x: T,
    vb: int,
    vc: int,
    vx: int,
)
    requires
        computes(value, m),
        congruent(value(beta), vb, m),
        congruent(value(c), vc, m),
        congruent(value(x), vx, m),
    ensures
        congruent(value(stored(beta, c, x)), vb * vc + vx, m),
{
    lemma_congruent_ops(value(beta), vb, value(c), vc, m);
    if beta.spec_is_zero() {
        assert(congruent(value(beta), 0, m));
        lemma_congruent_ops(value(beta), 0, value(c), vc, m);
        let q = lemma_congruent_quotient(value(beta) * value(c), 0 * vc, m);
        let r = lemma_congruent_quotient(value(beta) * value(c), vb * vc, m);
        assert(0 * vc == 0) by (nonlinear_arith);
        assert((r - q) * m == r * m - q * m) by (nonlinear_arith);
        lemma_congruent_by(0, vb * vc, r - q, m);
        lemma_congruent_ops(value(x), vx, 0, vb * vc, m);
    } else {
        let t = beta.spec_times(c);
        assert(congruent(value(t), value(beta) * value(c), m));
        lemma_congruent_trans(value(t), value(beta) * value(c), vb * vc, m);
        lemma_congruent_ops(value(t), vb * vc, value(x), vx, m);
        assert(congruent(value(t.spec_plus(x)), value(t) + value(x), m));
        lemma_congruent_trans(value(t.spec_plus(x)), value(t) + value(x), vb * vc + vx, m);
    }
}

/// The value of an output element after a number of blocks.
proof fn lemma_entry_value<T: Scalar>(
    value: spec_fn(T) -> int,
    m: int,
    a: Seq<T>,
    k: int,
    b: spec_fn(int, int) -> T,
    beta: T,
    c: T,
    i: int,
    j: int,
    sums: spec_fn(int) -> int,
    blocks: int,
)
    requires
        computes(value, m),
        0 <= k,
        1 <= blocks <= k_blocks(k),
        sums(0) == 0,
        forall|p: int|
            0 <= p < k ==> sums(p + 1) == #[trigger] sums(p) + value(a[i * k + p]) * value(
                b(p, j),
            ),
    ensures
        congruent(
            value(gemm_entry(a, k, b, beta, c, i, j, blocks)),
            value(beta) * value(c) + sums(k_block_end(k, blocks - 1)),
            m,
        ),
    decreases blocks,
{
    let q = blocks - 1;
    let fa = |p: int| a[i * k + p];
    let fb = |p: int| b(p, j);
    let end = k_block_end(k, q);
    lemma_dot_value(value, m, fa, fb, sums, q * 512, end);
    let x = block_dot(a, k, b, i, j, q);
    assert(x == dot(fa, fb, q * 512, end));
    reveal_with_fuel(gemm_entry, 2);
    if q == 0 {
        lemma_congruent_by(value(beta), value(beta), 0, m);
        lemma_congruent_by(value(c), value(c), 0, m);
        lemma_stored_value(value, m, beta, c, x, value(beta), value(c), sums(end));
    } else {
        lemma_entry_value(value, m, a, k, b, beta, c, i, j, sums, q);
        let before = gemm_entry(a, k, b, beta, c, i, j, q);
        let vc = value(beta) * value(c) + sums(q * 512);
        assert(k_block_end(k, q - 1) == q * 512);
        lemma_stored_value(
            value,
            m,
            T::spec_one(),
            before,
            x,
            1,
            vc,
            sums(end) - sums(q * 512),
        );
    }
}

/// A multiplication computes `beta * c + a * b`: whatever values elements stand for, where their
/// operations compute with these values modulo `modulus`, the value of each output element is
/// `beta` times its old value plus the sum of the products of its row and its column. Elements
/// beyond the output stay.
pub proof fn law_output_is_beta_c_plus_product<T: Scalar>(
    before: Seq<T>,
    after: Seq<T>,
    a: Seq<T>,
    m: int,
    k: int,
    b: spec_fn(int, int) -> T,
    n: int,
    beta: T,
    value: spec_fn(T) -> int,
    modulus: int,
    sums: spec_fn(int) -> int,
    i: int,
    j: int,
)
    requires
        gemm_output(before, after, a, m, k, b, n, beta),
        0 <= k,
        0 <= i < m,
        0 <= j < n,
        m * n <= before.len(),
        1 <= modulus,
        value(T::spec_zero()) % modulus == 0,
        (value(T::spec_one()) - 1) % modulus == 0,
        forall|x: T, y: T|
            (value(#[trigger] x.spec_plus(y)) - (value(x) + value(y))) % modulus == 0,
        forall|x: T, y: T|
            (value(#[trigger] x.spec_times(y)) - value(x) * value(y)) % modulus == 0,
        forall|s: T, x: T, y: T|
            (value(#[trigger] s.spec_mul_add(x, y)) - (value(s) + value(x) * value(y))) % modulus
                == 0,
        forall|x: T| #[trigger] x.spec_is_zero() ==> value(x) % modulus == 0,
        sums(0) == 0,
        forall|p: int|
            0 <= p < k ==> sums(p + 1) == #[trigger] sums(p) + value(a[i * k + p]) * value(
                b(p, j),
            ),
    ensures
        (value(after[i * n + j]) - (value(beta) * value(before[i * n + j]) + sums(k))) % modulus
            == 0,
        after.len() == before.len(),
        forall|x: int| m * n <= x < before.len() ==> #[trigger] after[x] == before[x],
{
    assert(computes(value, modulus));
    lemma_row_position(i, j, m, n);
    let c = before[i * n + j];
    lemma_entry_value(value, modulus, a, k, b, beta, c, i, j, sums, k_blocks(k));
    assert(k_block_end(k, k_blocks(k) - 1) == k);
}

/// A multiplication, operation by operation, for elements of any kind: there are outputs `outs` of
/// the blocks of up to 512 elements, from the old output element to the new one, and partial sums
/// `sums` of each block, from zero on. A partial sum grows by one product at a time; the sum of a
/// block is added to `beta` times the output in the first block and to the output itself later,
/// and takes its place where that factor is zero.
pub proof fn law_output_step_by_step<T: Scalar>(
    before: Seq<T>,
    after: Seq<T>,
    a: Seq<T>,
    m: int,
    k: int,
    b: spec_fn(int, int) -> T,
    n: int,
    beta: T,
    i: int,
    j: int,
) -> (r: (int, spec_fn(int) -> T, spec_fn(int, int) -> T))
    requires
        gemm_output(before, after, a, m, k, b, n, beta),
        0 <= k,
        0 <= i < m,
        0 <= j < n,
        m * n <= before.len(),
    ensures
        ({
            let (blocks, outs, sums) = r;
            &&& 1 <= blocks
            &&& k <= blocks * 512
            &&& blocks == 1 || (blocks - 1) * 512 < k
            &&& outs(0) == before[i * n + j]
            &&& outs(blocks) == after[i * n + j]
            &&& forall|q: int| #[trigger] sums(q, 0) == T::spec_zero()
            &&& forall|q: int, p: int|
                0 <= q < blocks && 0 <= p < 512 && q * 512 + p < k ==> sums(q, p + 1)
                    == (#[trigger] sums(q, p)).spec_mul_add(
                    a[i * k + q * 512 + p],
                    b(q * 512 + p, j),
                )
            &&& forall|q: int|
                0 <= q < blocks ==> {
                    let factor = if q == 0 {
                        beta
                    } else {
                        T::spec_one()
                    };
                    let sum = sums(
                        q,
                        if k - q * 512 < 512 {
                            k - q * 512
                        } else {
                            512
                        },
                    );
                    outs(q + 1) == (if factor.spec_is_zero() {
                        sum
                    } else {
                        factor.spec_times(#[trigger] outs(q)).spec_plus(sum)
                    })
                }
        }),
{
    lemma_row_position(i, j, m, n);
    let c = before[i * n + j];
    let fa = |p: int| a[i * k + p];
    let fb = |p: int| b(p, j);
    let outs = |q: int| gemm_entry(a, k, b, beta, c, i, j, q);
    let sums = |q: int, p: int| dot(fa, fb, q * 512, q * 512 + p);
    let blocks = k_blocks(k);
    assert forall|q: int, p: int|
        0 <= q < blocks && 0 <= p < 512 && q * 512 + p < k implies sums(q, p + 1)
        == (#[trigger] sums(q, p)).spec_mul_add(a[i * k + q * 512 + p], b(q * 512 + p, j)) by {
        assert(q * 512 + (p + 1) - 1 == q * 512 + p);
        assert(fa(q * 512 + p) == a[i * k + q * 512 + p]);
    }
    assert forall|q: int| 0 <= q < blocks implies {
        let factor = if q == 0 {
            beta
        } else {
            T::spec_one()
        };
        let sum = sums(
            q,
            if k - q * 512 < 512 {
                k - q * 512
            } else {
                512
            },
        );
        outs(q + 1) == (if factor.spec_is_zero() {
            sum
        } else {
            factor.spec_times(#[trigger] outs(q)).spec_plus(sum)
        })
    } by {
        let len = if k - q * 512 < 512 {
            k - q * 512
        } else {
            512
        };
        assert(q * 512 + len == k_block_end(k, q));
        assert(sums(q, len) == block_dot(a, k, b, i, j, q));
    }
    (blocks, outs, sums)
}

/// A multiplication reads every element of the packed matrix: with a matrix that was packed from
/// `src`, it gives the product with `src`.
pub proof fn law_packed_matrix_multiplies_as_its_source<T: Scalar>(
    before: Seq<T>,
    after: Seq<T>,
    a: Seq<T>,
    m: int,
    packed: &PackedMatrix<T>,
    src: spec_fn(int, int) -> T,
    beta: T,
)
    requires
        packed.wf(),
        forall|p: int, j: int|
            0 <= p < packed.spec_k() && 0 <= j < packed.spec_n() ==> #[trigger] packed.entry(p, j)
                == src(p, j),
        gemm_output(
            before,
            after,
            a,
            m,
            packed.spec_k(),
            packed.matrix(),
            packed.spec_n(),
            beta,
        ),
    ensures
        gemm_output(before, after, a, m, packed.spec_k(), src, packed.spec_n(), beta),
        forall|p: int, j: int|
            0 <= p < packed.spec_k() && 0 <= j < packed.spec_n() ==> #[trigger] packed.matrix()(
                p,
                j,
            ) == src(p, j),
{
    packed.lemma_wf();
    let b = packed.matrix();
    assert forall|p: int, j: int|
        0 <= p < packed.spec_k() && 0 <= j < packed.spec_n() implies #[trigger] b(p, j) == src(
        p,
        j,
    ) by {
        assert(packed.entry(p, j) == src(p, j));
    }
    law_equal_matrices_give_equal_outputs(
        before,
        after,
        a,
        m,
        packed.spec_k(),
        b,
        src,
        packed.spec_n(),
        beta,
    );
}

/// A multiplication reads every element of a matrix in bfloat16: with a matrix that was packed
/// from `src`, it gives the product with the elements of `src` whose lower half is cleared.
pub proof fn law_bf16_multiplies_as_its_source<T: Scalar>(
    before: Seq<T>,
    after: Seq<T>,
    a: Seq<T>,
    m: int,
    packed: &PackedMatrixBf16,
    src: spec_fn(int, int) -> T,
    beta: T,
)
    requires
        packed.wf(),
        forall|p: int, j: int|
            0 <= p < packed.spec_k() && 0 <= j < packed.spec_n() ==> #[trigger] packed.half(p, j)
                == truncated(src(p, j).spec_to_bits()),
        gemm_output(
            before,
            after,
            a,
            m,
            packed.spec_k(),
            packed.matrix(),
            packed.spec_n(),
            beta,
        ),
    ensures
        gemm_output(
            before,
            after,
            a,
            m,
            packed.spec_k(),
            |p: int, j: int|
                T::spec_from_bits(
                    (src(p, j).spec_to_bits() - src(p, j).spec_to_bits() % 0x1_0000) as u32,
                ),
            packed.spec_n(),
            beta,
        ),
        forall|p: int, j: int|
            0 <= p < packed.spec_k() && 0 <= j < packed.spec_n() ==> {
                let x: T = #[trigger] packed.matrix::<T>()(p, j);
                x.spec_to_bits() == src(p, j).spec_to_bits() - src(p, j).spec_to_bits() % 0x1_0000
            },
{
    packed.lemma_wf();
    let b = packed.matrix::<T>();
    let cleared = |p: int, j: int|
        T::spec_from_bits(
            (src(p, j).spec_to_bits() - src(p, j).spec_to_bits() % 0x1_0000) as u32,
        );
    assert forall|p: int, j: int|
        0 <= p < packed.spec_k() && 0 <= j < packed.spec_n() implies #[trigger] b(p, j) == cleared(
        p,
        j,
    ) && b(p, j).spec_to_bits() == src(p, j).spec_to_bits() - src(p, j).spec_to_bits()
        % 0x1_0000 by {
        let bits = src(p, j).spec_to_bits();
        assert(packed.half(p, j) == truncated(bits));
        assert(widened(truncated(bits)) == (bits - bits % 0x1_0000) as u32);
        T::lemma_bits(widened(truncated(bits)), src(p, j));
    }
    law_equal_matrices_give_equal_outputs(
        before,
        after,
        a,
        m,
        packed.spec_k(),
        b,
        cleared,
        packed.spec_n(),
        beta,
    );
}

/// The operations on integers are those of the integers, modulo 2^32.
pub proof fn law_integer_operations(x: i32, y: i32, z: i32, bits: u32)
    ensures
        i32::spec_zero() == 0,
        i32::spec_one() == 1,
        (x.spec_plus(y) - (x + y)) % 0x1_0000_0000 == 0,
        (x.spec_times(y) - x * y) % 0x1_0000_0000 == 0,
        (x.spec_mul_add(y, z) - (x + y * z)) % 0x1_0000_0000 == 0,
        x.spec_is_zero() <==> x == 0,
        (x.spec_to_bits() - x) % 0x1_0000_0000 == 0,
        (i32::spec_from_bits(bits) - bits) % 0x1_0000_0000 == 0,
{
    lemma_wrap_congruent(x + y);
    lemma_wrap_congruent(x * y);
    lemma_wrap_congruent(x + y * z);
    assert(x as u32 == (if x >= 0 {
        x as int
    } else {
        x + 0x1_0000_0000
    })) by (bit_vector);
    assert(bits as i32 == (if bits < 0x8000_0000 {
        bits as int
    } else {
        bits - 0x1_0000_0000
    })) by (bit_vector);
}

/// On integers, each output element is `beta` times its old value plus the sum of the products of
/// its row and its column, modulo 2^32.
pub proof fn law_integer_output_is_beta_c_plus_product(
    before: Seq<i32>,
    after: Seq<i32>,
    a: Seq<i32>,
    m: int,
    k: int,
    b: spec_fn(int, int) -> i32,
    n: int,
    beta: i32,
    sums: spec_fn(int) -> int,
    i: int,
    j: int,
)
    requires
        gemm_output(before, after, a, m, k, b, n, beta),
        0 <= k,
        0 <= i < m,
        0 <= j < n,
        m * n <= before.len(),
        sums(0) == 0,
        forall|p: int| 0 <= p < k ==> sums(p + 1) == #[trigger] sums(p) + a[i * k + p] * b(p, j),
    ensures
        (after[i * n + j] - (beta * before[i * n + j] + sums(k))) % 0x1_0000_0000 == 0,
{
    let value = |x: i32| x as int;
    assert forall|x: i32, y: i32|
        (value(#[trigger] x.spec_plus(y)) - (value(x) + value(y))) % 0x1_0000_0000 == 0 by {
        law_integer_operations(x, y, 0, 0);
    }
    assert forall|x: i32, y: i32|
        (value(#[trigger] x.spec_times(y)) - value(x) * value(y)) % 0x1_0000_0000 == 0 by {
        law_integer_operations(x, y, 0, 0);
    }
    assert forall|s: i32, x: i32, y: i32|
        (value(#[trigger] s.spec_mul_add(x, y)) - (value(s) + value(x) * value(y))) % 0x1_0000_0000
            == 0 by {
        law_integer_operations(s, x, y, 0);
    }
    law_output_is_beta_c_plus_product(
        before,
        after,
        a,
        m,
        k,
        b,
        n,
        beta,
        value,
        0x1_0000_0000,
        sums,
        i,
        j,
    );
}

/// The old output has no influence where it is multiplied by zero: two multiplications that differ
/// in it alone give the same output.
pub proof fn law_zero_beta_outputs_agree<T: Scalar>(
    before1: Seq<T>,
    after1: Seq<T>,
    before2: Seq<T>,
    after2: Seq<T>,
    a: Seq<T>,
    m: int,
    k: int,
    b: spec_fn(int, int) -> T,
    n: int,
    beta: T,
    i: int,
    j: int,
)
    requires
        beta.spec_is_zero(),
        gemm_output(before1, after1, a, m, k, b, n, beta),
        gemm_output(before2, after2, a, m, k, b, n, beta),
        0 <= k,
        0 <= i < m,
        0 <= j < n,
        m * n <= before1.len(),
        m * n <= before2.len(),
    ensures
        after1[i * n + j] == after2[i * n + j],
{
    lemma_row_position(i, j, m, n);
    law_zero_beta_overwrites(
        a,
        k,
        b,
        beta,
        before1[i * n + j],
        before2[i * n + j],
        i,
        j,
    );
}

/// Blocks of `size` elements cover `len` elements without one too many: all are full but the
/// last, which holds what is left.
pub proof fn law_blocks_cover(len: int, size: int, b: int)
    requires
        0 <= len,
        1 <= size,
        0 <= b < block_count(len, size),
    ensures
        len <= block_count(len, size) * size < len + size,
        1 <= block_len(len, size, b) <= size,
        b + 1 < block_count(len, size) ==> block_len(len, size, b) == size,
        b + 1 == block_count(len, size) ==> b * size + block_len(len, size, b) == len,
{
    law_block_count_is_least(len, size);
    let count = block_count(len, size);
    assert(b + 1 < count ==> b * size + size + size <= count * size) by (nonlinear_arith)
        requires
            1 <= size,
    ;
    assert(b + 1 == count ==> b * size + size == count * size) by (nonlinear_arith);
}

/// The number of blocks is the least that covers.
pub proof fn law_block_count_is_least(len: int, size: int)
    requires
        0 <= len,
        1 <= size,
    ensures
        0 <= block_count(len, size),
        len <= block_count(len, size) * size < len + size,
{
    lemma_fundamental_div_mod(len, size);
    let q = len / size;
    assert(0 <= q) by (nonlinear_arith)
        requires
            q == len / size,
            0 <= len,
            1 <= size,
    ;
    assert(q * size == size * q && (q + 1) * size == size * q + size) by (nonlinear_arith);
}

/// A packed matrix takes whole blocks: `r.0` rows and `r.1` columns, the least multiples of 512 and
/// of 16 that hold it.
pub proof fn law_packed_size_is_whole_blocks(k: int, n: int) -> (r: (int, int))
    requires
        0 <= k,
        0 <= n,
    ensures
        packed_size(k, n) == r.0 * r.1,
        r.0 % 512 == 0,
        k <= r.0 < k + 512,
        r.1 % 16 == 0,
        n <= r.1 < n + 16,
{
    law_block_count_is_least(k, 512);
    law_block_count_is_least(n, 16);
    let (kb, nb) = (block_count(k, 512), block_count(n, 16));
    assert(512 * kb * 16 * nb == (512 * kb) * (16 * nb)) by (nonlinear_arith);
    (512 * kb, 16 * nb)
}

/// Packed elements lie block of rows by block of rows, within one block of columns by block of
/// columns, and within that row by row. A block of rows takes 512 rows of `cols` columns, the least
/// multiple of 16 that holds all columns, and a block of columns takes 16 columns of as many rows
/// as its block of rows has.
pub proof fn law_addr_follows_the_blocks(k: int, n: int, r: int, c: int) -> (cols: int)
    requires
        0 <= r < k,
        0 <= c < n,
    ensures
        cols % 16 == 0,
        n <= cols < n + 16,
        ({
            let top = r - r % 512;
            let left = c - c % 16;
            let height = if k - top < 512 {
                k - top
            } else {
                512
            };
            packed_addr(k, n, r, c) == top * cols + left * height + (r % 512) * 16 + c % 16
        }),
        0 <= packed_addr(k, n, r, c) < packed_size(k, n),
{
    lemma_addr_bound(k, n, r, c);
    law_block_count_is_least(n, 16);
    let nb = block_count(n, 16);
    let q = r / 512;
    let h = block_len(k, 512, q);
    assert((q * 512) * (16 * nb) == q * (nb * 8192)) by (nonlinear_arith);
    let cb = c / 16;
    assert((cb * 16) * h == cb * (h * 16)) by (nonlinear_arith);
    16 * nb
}

/// The elements of a packed matrix lie at their addresses.
pub proof fn law_entries_lie_at_their_addresses<T: Scalar>(
    full: &PackedMatrix<T>,
    half: &PackedMatrixBf16,
    p: int,
    j: int,
)
    ensures
        full.entry(p, j) == full.elements()[packed_addr(full.spec_k(), full.spec_n(), p, j)],
        half.half(p, j) == half.elements()[packed_addr(half.spec_k(), half.spec_n(), p, j)],
{
}

/// A position that is the address of no element holds the padding.
pub proof fn law_padding_fills_the_rest<E>(elements: Seq<E>, k: int, n: int, fill: E, x: int)
    requires
        padded_with(elements, k, n, fill),
        0 <= x < elements.len(),
        forall|p: int, j: int| 0 <= p < k && 0 <= j < n ==> #[trigger] packed_addr(k, n, p, j) != x,
    ensures
        elements[x] == fill,
{
    assert(is_padding(k, n, x));
}

/// The collected groups cut the rows: the first starts at row zero, each starts where the one
/// before ends, the last ends after the last row, and each has one to six rows.
pub proof fn law_collected_groups_cut_the_rows(m: int, groups: Seq<(usize, usize)>)
    requires
        0 <= m,
        groups_view(groups) == row_groups(0, m),
    ensures
        m > 0 ==> groups.len() > 0,
        groups.len() > 0 ==> groups[0].0 == 0,
        groups.len() > 0 ==> groups[groups.len() - 1].0 + groups[groups.len() - 1].1 == m,
        forall|g: int|
            0 <= g < groups.len() - 1 ==> (#[trigger] groups[g]).0 + groups[g].1 == groups[g + 1].0,
        forall|g: int| 0 <= g < groups.len() ==> 1 <= (#[trigger] groups[g]).1 <= 6,
{
    law_row_groups_tile(0, m);
    let gv = groups_view(groups);
    assert(gv.len() == groups.len());
    assert(groups_tile(gv, 0, m));
    assert forall|g: int| 0 <= g < groups.len() implies {
        &&& (#[trigger] groups[g]).0 == group_start(gv, 0, g)
        &&& 1 <= groups[g].1 <= 6
    } by {
        assert(gv[g] == (groups[g].0 as int, groups[g].1 as int));
    }
    assert forall|g: int| 0 <= g < groups.len() - 1 implies (#[trigger] groups[g]).0 + groups[g].1
        == groups[g + 1].0 by {
        assert(gv[g] == (groups[g].0 as int, groups[g].1 as int));
        assert(groups[g + 1].0 == group_start(gv, 0, g + 1));
    }
    if groups.len() > 0 {
        let last = groups.len() - 1;
        assert(gv[last] == (groups[last].0 as int, groups[last].1 as int));
        assert(groups[0].0 == group_start(gv, 0, 0));
    }
}

/// Kernel calls are as few as possible and as even as possible, the larger ones first.
pub proof fn law_partition_is_even(mb: int)
    requires
        1 <= mb,
    ensures
        ({
            let (first, second) = partition_cycles(mb);
            &&& (first.1 + second.1 - 1) * 6 < mb <= (first.1 + second.1) * 6
            &&& second.1 > 0 ==> first.0 == second.0 + 1
        }),
{
}

/// A bfloat16 is the upper half of 32 bits, and widening puts it there.
pub proof fn law_bf16_is_the_upper_half(bits: u32, x: u16)
    ensures
        truncated(bits) * 0x1_0000 <= bits < truncated(bits) * 0x1_0000 + 0x1_0000,
        widened(x) == x * 0x1_0000,
{
}

} // verus!
