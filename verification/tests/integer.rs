//! Packing and multiplication of integer matrices, where every result is exact.

use fbgemm::bf16::{bf16_to_f32, compute_par, compute_st, f32_to_bf16};
use fbgemm::gemm::cblas_gemm_compute;
use fbgemm::layout::BlockLayout;
use fbgemm::partition::{collect_row_groups, partition_avx2};
use fbgemm::row_group::pack_a;
use fbgemm::{
    sgemm, sgemm_bf16, sgemm_bf16_simple, sgemm_simple, PackedMatrix, PackedMatrixBf16,
};

fn numbers(len: usize, step: usize, modulus: usize) -> Vec<i32> {
    (0..len).map(|i| (i * step % modulus) as i32 - (modulus / 2) as i32).collect()
}

/// `beta * c + a * b` modulo 2^32.
fn naive(m: usize, k: usize, n: usize, a: &[i32], b: &[i32], beta: i32, c: &[i32]) -> Vec<i32> {
    let mut r = Vec::new();
    for i in 0..m {
        for j in 0..n {
            let mut s = beta.wrapping_mul(c[i * n + j]);
            for p in 0..k {
                s = s.wrapping_add(a[i * k + p].wrapping_mul(b[p * n + j]));
            }
            r.push(s);
        }
    }
    r
}

fn transposed(k: usize, n: usize, b: &[i32]) -> Vec<i32> {
    let mut r = vec![0; k * n];
    for p in 0..k {
        for j in 0..n {
            r[p + k * j] = b[p * n + j];
        }
    }
    r
}

#[test]
fn packed_positions_follow_the_blocks() {
    let (layout, size) = BlockLayout::allocate(1000, 40);
    assert_eq!(size, 1024 * 48);
    assert_eq!(layout.addr(0, 0), 0);
    assert_eq!(layout.addr(0, 15), 15);
    assert_eq!(layout.addr(1, 0), 16);
    assert_eq!(layout.addr(0, 16), 512 * 16);
    assert_eq!(layout.addr(511, 39), 2 * 512 * 16 + 511 * 16 + 7);
    assert_eq!(layout.addr(512, 0), 3 * 512 * 16);
    assert_eq!(layout.addr(512, 16), 3 * 512 * 16 + 488 * 16);
    assert_eq!(layout.addr(999, 39), 3 * 512 * 16 + 2 * 488 * 16 + 487 * 16 + 7);
    assert_eq!((layout.nrow(), layout.ncol(), layout.brow(), layout.nbcol()), (1000, 40, 512, 3));
    assert_eq!(BlockLayout::allocate(0, 40).1, 0);
    assert_eq!(BlockLayout::allocate(40, 0).1, 0);
}

#[test]
fn packed_positions_are_distinct() {
    let (k, n) = (515, 35);
    let (layout, size) = BlockLayout::allocate(k, n);
    let mut seen = vec![false; size];
    for r in 0..k {
        for c in 0..n {
            let x = layout.addr(r, c);
            assert!(!seen[x]);
            seen[x] = true;
        }
    }
}

#[test]
fn packing_places_every_element() {
    let (k, n) = (513, 18);
    let b = numbers(k * n, 7, 1009);
    let plain = PackedMatrix::new(k, n, &b);
    let turned = PackedMatrix::from_transposed(k, n, &transposed(k, n, &b));
    let scaled = PackedMatrix::with_alpha(k, n, &b, 3);
    assert_eq!((plain.k(), plain.n(), plain.block_row_size()), (k, n, 512));
    assert_eq!(plain.data().len(), 1024 * 32);
    for p in 0..k {
        for j in 0..n {
            let x = plain.addr(p, j);
            assert_eq!(plain.data()[x], b[p * n + j]);
            assert_eq!(turned.data()[x], b[p * n + j]);
            assert_eq!(scaled.data()[x], 3 * b[p * n + j]);
        }
    }
}

#[test]
fn padding_is_zero_and_packings_agree() {
    let (k, n) = (513, 18);
    let b: Vec<i32> = (0..k * n).map(|i| (i as i32 + 1) * 70_001).collect();
    let b_t = transposed(k, n, &b);
    let plain = PackedMatrix::new(k, n, &b);
    let half = PackedMatrixBf16::new(k, n, &b);
    let mut taken = vec![false; plain.data().len()];
    for p in 0..k {
        for j in 0..n {
            let x = plain.addr(p, j);
            taken[x] = true;
            assert_eq!(half.addr(p, j), x);
            assert_eq!(half.data()[x], (b[p * n + j] as u32 >> 16) as u16);
        }
    }
    assert_eq!(half.data().len(), taken.len());
    for x in 0..taken.len() {
        if !taken[x] {
            assert_eq!(plain.data()[x], 0);
            assert_eq!(half.data()[x], 0);
        }
    }
    assert_eq!(plain.data(), PackedMatrix::from_transposed(k, n, &b_t).data());
    assert_eq!(plain.data(), PackedMatrix::with_alpha(k, n, &b, 1).data());
    assert_eq!(half.data(), PackedMatrixBf16::from_transposed(k, n, &b_t).data());
}

#[test]
fn matrices_side_by_side_give_outputs_side_by_side() {
    let (m, k) = (7, 530);
    for (n1, n2) in [(16, 5), (3, 20), (17, 17), (0, 4), (4, 0)] {
        let n = n1 + n2;
        let a = numbers(m * k, 7, 1009);
        let b = numbers(k * n, 11, 997);
        let mut c = numbers(m * n, 13, 1013);
        let columns = |xs: &[i32], rows: usize, lo: usize, hi: usize| -> Vec<i32> {
            (0..rows).flat_map(|i| xs[i * n + lo..i * n + hi].to_vec()).collect()
        };
        let mut c1 = columns(&c, m, 0, n1);
        let mut c2 = columns(&c, m, n1, n);
        sgemm(m, &a, &PackedMatrix::new(k, n, &b), -3, &mut c);
        sgemm(m, &a, &PackedMatrix::new(k, n1, &columns(&b, k, 0, n1)), -3, &mut c1);
        sgemm(m, &a, &PackedMatrix::new(k, n2, &columns(&b, k, n1, n)), -3, &mut c2);
        assert_eq!(columns(&c, m, 0, n1), c1);
        assert_eq!(columns(&c, m, n1, n), c2);
    }
}

#[test]
fn partition_is_even_and_complete() {
    assert_eq!(partition_avx2(1), [(1, 1), (0, 0)]);
    assert_eq!(partition_avx2(6), [(6, 1), (0, 0)]);
    assert_eq!(partition_avx2(7), [(4, 1), (3, 1)]);
    assert_eq!(partition_avx2(13), [(5, 1), (4, 2)]);
    assert_eq!(partition_avx2(120), [(6, 20), (0, 0)]);
    for mb in 1..=120 {
        let [first, second] = partition_avx2(mb);
        assert_eq!(first.0 * first.1 + second.0 * second.1, mb);
        assert!(1 <= first.0 && first.0 <= 6 && second.0 <= 6);
    }
}

#[test]
fn row_groups_follow_each_other() {
    assert_eq!(collect_row_groups(0), vec![]);
    assert_eq!(collect_row_groups(7), vec![(0, 4), (4, 3)]);
    for m in [1, 5, 6, 119, 120, 121, 240, 247] {
        let mut next = 0;
        for (start, rows) in collect_row_groups(m) {
            assert_eq!(start, next);
            assert!(1 <= rows && rows <= 6);
            next = start + rows;
        }
        assert_eq!(next, m);
    }
    assert!(collect_row_groups(121).contains(&(120, 1)));
}

#[test]
fn transposing_rows_interleaves_them() {
    let from = [1, 2, 3, 90, 4, 5, 6];
    let mut to = [0; 8];
    pack_a(2, 3, &from, 4, &mut to);
    assert_eq!(to, [1, 4, 2, 5, 3, 6, 0, 0]);
}

#[test]
fn integer_product_is_exact_for_all_shapes() {
    for (m, k, n) in [
        (1, 1, 1),
        (1, 600, 33),
        (2, 3, 2),
        (6, 512, 16),
        (7, 513, 15),
        (120, 5, 17),
        (121, 40, 32),
        (250, 3, 1),
    ] {
        let a = numbers(m * k, 7, 1009);
        let b = numbers(k * n, 11, 997);
        let c0 = numbers(m * n, 13, 1013);
        let packed = PackedMatrix::new(k, n, &b);
        for beta in [0, 1, -3, 1 << 30] {
            let mut c = c0.clone();
            cblas_gemm_compute(m, &a, &packed, beta, &mut c);
            assert_eq!(c, naive(m, k, n, &a, &b, beta, &c0));
            let mut d = c0.clone();
            sgemm(m, &a, &packed, beta, &mut d);
            assert_eq!(c, d);
        }
    }
}

#[test]
fn elements_beyond_the_product_stay() {
    let packed = PackedMatrix::new(2, 1, &[3, -4]);
    let mut c = [100, 200, 77, 78];
    cblas_gemm_compute(2, &[1, 1, 10, 0, 5], &packed, 1, &mut c);
    assert_eq!(c, [99, 230, 77, 78]);
}

#[test]
fn integer_product_wraps() {
    let packed = PackedMatrix::new(2, 1, &[i32::MAX, 2]);
    let mut c = [5];
    sgemm(1, &[2, 3], &packed, 1, &mut c);
    assert_eq!(c, [9]);
}

#[test]
fn empty_inner_dimension_scales_the_output() {
    let packed = PackedMatrix::<i32>::new(0, 3, &[]);
    let mut c = [1, 2, 3, 4, 5, 6];
    sgemm(2, &[], &packed, 10, &mut c);
    assert_eq!(c, [10, 20, 30, 40, 50, 60]);
    sgemm_simple(2, &[], &packed, &mut c);
    assert_eq!(c, [0; 6]);
    let half = PackedMatrixBf16::new::<i32>(0, 3, &[]);
    let mut d = [1, 2, 3, 4, 5, 6];
    sgemm_bf16(2, &[], &half, 10, &mut d, true);
    assert_eq!(d, [10, 20, 30, 40, 50, 60]);
    sgemm_bf16_simple(2, &[], &half, &mut d, false);
    assert_eq!(d, [0; 6]);
}

#[test]
fn empty_outputs_stay_empty() {
    let packed = PackedMatrix::new(4, 3, &[1; 12]);
    let mut none: [i32; 0] = [];
    sgemm(0, &[], &packed, 1, &mut none);
    let narrow = PackedMatrix::<i32>::new(4, 0, &[]);
    sgemm(2, &[1; 8], &narrow, 1, &mut none);
    let half = PackedMatrixBf16::new::<i32>(4, 0, &[]);
    sgemm_bf16(2, &[1; 8], &half, 1, &mut none, true);
    sgemm_bf16(2, &[1; 8], &half, 1, &mut none, false);
    assert_eq!(half.size_bytes(), 0);
}

#[test]
fn zero_beta_ignores_the_old_output() {
    let (m, k, n) = (8, 600, 20);
    let a = numbers(m * k, 3, 101);
    let packed = PackedMatrix::new(k, n, &numbers(k * n, 5, 103));
    let mut c = vec![i32::MAX; m * n];
    let mut d = vec![-7; m * n];
    sgemm_simple(m, &a, &packed, &mut c);
    sgemm(m, &a, &packed, 0, &mut d);
    assert_eq!(c, d);
}

#[test]
fn alpha_scales_the_product() {
    let (m, k, n) = (5, 30, 17);
    let a = numbers(m * k, 3, 101);
    let b = numbers(k * n, 5, 103);
    let mut c = vec![0; m * n];
    let mut d = vec![11; m * n];
    sgemm_simple(m, &a, &PackedMatrix::new(k, n, &b), &mut c);
    sgemm(m, &a, &PackedMatrix::with_alpha(k, n, &b, -4), 3, &mut d);
    for x in 0..m * n {
        assert_eq!(d[x], 33 - 4 * c[x]);
    }
}

#[test]
fn column_major_input_gives_the_same_product() {
    let (m, k, n) = (9, 20, 19);
    let a = numbers(m * k, 3, 101);
    let b = numbers(k * n, 5, 103);
    let mut c = vec![1; m * n];
    let mut d = vec![1; m * n];
    sgemm(m, &a, &PackedMatrix::new(k, n, &b), 2, &mut c);
    sgemm(m, &a, &PackedMatrix::from_transposed(k, n, &transposed(k, n, &b)), 2, &mut d);
    assert_eq!(c, d);
}

#[test]
fn rows_can_be_multiplied_in_separate_calls() {
    let (m, k, n) = (123, 17, 18);
    let a = numbers(m * k, 3, 101);
    let packed = PackedMatrix::new(k, n, &numbers(k * n, 5, 103));
    let mut whole = numbers(m * n, 7, 107);
    let mut parts = whole.clone();
    sgemm(m, &a, &packed, 3, &mut whole);
    for i in 0..m {
        sgemm(1, &a[i * k..(i + 1) * k], &packed, 3, &mut parts[i * n..(i + 1) * n]);
    }
    assert_eq!(whole, parts);
}

#[test]
fn bf16_keeps_the_upper_half_of_every_element() {
    let (k, n) = (514, 17);
    let b = numbers(k * n, 1_000_003, 2_000_000_011);
    let packed = PackedMatrixBf16::new(k, n, &b);
    assert_eq!((packed.k(), packed.n(), packed.block_row_size()), (k, n, 512));
    assert_eq!(packed.size_bytes(), 2 * 1024 * 32);
    assert_eq!(packed.addr(513, 16), 2 * 512 * 16 + 2 * 16 + 16);
    let kept: Vec<i32> = b.iter().map(|x| (*x as u32 & 0xffff_0000) as i32).collect();
    let a = numbers(3 * k, 7, 11);
    let c0 = numbers(3 * n, 5, 13);
    let turned = PackedMatrixBf16::from_transposed(k, n, &transposed(k, n, &b));
    for matrix in [packed, turned] {
        for native in [true, false] {
            let mut c = c0.clone();
            sgemm_bf16(3, &a, &matrix, 2, &mut c, native);
            assert_eq!(c, naive(3, k, n, &a, &kept, 2, &c0));
        }
    }
}

#[test]
fn bf16_is_exact_for_short_elements() {
    let (m, k, n) = (30, 40, 33);
    let a = numbers(m * k, 3, 101);
    let b: Vec<i32> = numbers(k * n, 5, 103).iter().map(|x| x << 16).collect();
    let mut c = vec![1; m * n];
    let mut d = vec![1; m * n];
    sgemm(m, &a, &PackedMatrix::new(k, n, &b), 5, &mut c);
    sgemm_bf16(m, &a, &PackedMatrixBf16::new(k, n, &b), 5, &mut d, true);
    assert_eq!(c, d);
}

#[test]
fn bf16_threads_and_kernels_make_no_difference() {
    for (m, k, n) in [(1, 700, 16), (125, 530, 23), (241, 9, 40)] {
        let a = numbers(m * k, 7, 1009);
        let packed = PackedMatrixBf16::new(k, n, &numbers(k * n, 1_000_003, 2_000_000_011));
        let c0 = numbers(m * n, 13, 1013);
        let mut first = c0.clone();
        compute_st(m, &a, &packed, -2, &mut first, true);
        for native in [true, false] {
            let mut st = c0.clone();
            compute_st(m, &a, &packed, -2, &mut st, native);
            let mut par = c0.clone();
            compute_par(m, &a, &packed, -2, &mut par, native);
            assert_eq!(st, first);
            assert_eq!(par, first);
        }
    }
}

#[test]
fn halves_round_trip() {
    assert_eq!(f32_to_bf16(0x1234_5678i32), 0x1234);
    assert_eq!(bf16_to_f32::<i32>(0x1234), 0x1234_0000);
    assert_eq!(f32_to_bf16(-1i32), 0xffff);
    assert_eq!(bf16_to_f32::<i32>(0xffff), -65536);
}
