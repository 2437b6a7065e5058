//! Kernels and multiplications on bytes.

use fbgemm::quantized::block::SimdFlags;
use fbgemm::quantized::gemm::{
    dequantize_per_row, i8gemm_compute, i8gemm_compute_par, i8gemm_compute_par_on,
    i8gemm_compute_par_with_scratch, i8gemm_compute_with_scratch, tile_tasks, I8GemmScratch,
};
use fbgemm::quantized::quantize::quantize_a_per_row_into_no_offsets;
use fbgemm::quantized::reference::{ref_i8i8_kernel, ref_u8i8_kernel};
use fbgemm::quantized::{avx2, avx512_vnni};
use fbgemm::PackedBMatrixI8;

const VNNI: SimdFlags = SimdFlags::X86 { avx512_vnni: true, avx2: true };
const AVX2: SimdFlags = SimdFlags::X86 { avx512_vnni: false, avx2: true };
const PLAIN_X86: SimdFlags = SimdFlags::X86 { avx512_vnni: false, avx2: false };
const NEON: SimdFlags = SimdFlags::Aarch64 { neon_dotprod: true };
const PLAIN_ARM: SimdFlags = SimdFlags::Aarch64 { neon_dotprod: false };

fn weights(len: usize, step: usize, limit: i32) -> Vec<i8> {
    (0..len).map(|i| ((i * step % 255) as i32 - 127).clamp(-limit, limit) as i8).collect()
}

fn activations(len: usize, step: usize) -> Vec<i32> {
    (0..len).map(|i| (i * step % 256) as i32 - 128).collect()
}

/// A tile of `kc` rows by 8 columns, four rows interleaved.
fn tile(kc: usize, value: fn(usize, usize) -> i8) -> Vec<i8> {
    let mut t = vec![0; kc * 8];
    for p in 0..kc {
        for j in 0..8 {
            t[p / 4 * 32 + j * 4 + p % 4] = value(p, j);
        }
    }
    t
}

/// Twelve rows with a stride of 512 bytes.
fn rows(kc: usize, value: fn(usize, usize) -> u8) -> Vec<u8> {
    let mut a = vec![0; 12 * 512];
    for i in 0..12 {
        for p in 0..kc {
            a[i * 512 + p] = value(i, p);
        }
    }
    a
}

#[test]
fn kernels_agree_on_small_products() {
    let kc = 40;
    let a = rows(kc, |i, p| ((i * 7 + p * 3) % 120) as u8);
    let b = tile(kc, |p, j| ((p * 5 + j * 11) % 100) as i8 - 50);
    let c0: Vec<i32> = (0..12 * 10).collect();
    let mut expected = c0.clone();
    for i in 0..12 {
        for j in 0..8 {
            for p in 0..kc {
                let w = b[p / 4 * 32 + j * 4 + p % 4] as i32;
                expected[i * 10 + j] += a[i * 512 + p] as i32 * w;
            }
        }
    }
    let mut c = c0.clone();
    avx2::avx2_i8_kernel_12(&a, &b, &mut c, kc, 10);
    assert_eq!(c, expected);
    let mut c = c0.clone();
    avx2::dispatch_i8_kernel(12, &a, &b, &mut c, kc, 10);
    assert_eq!(c, expected);
    let mut c = c0.clone();
    avx512_vnni::dispatch_i8_kernel(12, &a, &b, &mut c, kc, 10);
    assert_eq!(c, expected);
    let mut c = c0.clone();
    ref_u8i8_kernel(12, &a, 512, &b, &mut c, 10, kc, 8);
    assert_eq!(c, expected);
}

#[test]
fn kernels_touch_only_their_rows() {
    let kc = 4;
    let a = rows(kc, |_, _| 1);
    let b = tile(kc, |_, _| 1);
    let mut c = vec![0; 12 * 9];
    avx2::dispatch_i8_kernel(2, &a, &b, &mut c, kc, 9);
    let mut d = vec![0; 12 * 9];
    avx512_vnni::dispatch_i8_kernel(2, &a, &b, &mut d, kc, 9);
    let expected: Vec<i32> =
        (0..12 * 9).map(|x| if x / 9 < 2 && x % 9 < 8 { 4 } else { 0 }).collect();
    assert_eq!(c, expected);
    assert_eq!(d, expected);
}

#[test]
fn extreme_products_are_exact() {
    let kc = 4;
    let a = rows(kc, |_, _| 255);
    let high = tile(kc, |_, _| 127);
    let low = tile(kc, |_, _| -128);
    let mut c = vec![0; 12 * 8];
    avx2::avx2_i8_kernel_12(&a, &high, &mut c, kc, 8);
    assert!(c.iter().all(|x| *x == 129540));
    let mut c = vec![1; 12 * 8];
    avx2::avx2_i8_kernel_12(&a, &low, &mut c, kc, 8);
    assert!(c.iter().all(|x| *x == 1 - 4 * 255 * 128));
    let mut c = vec![1; 12 * 8];
    avx2::dispatch_i8_kernel(12, &a, &high, &mut c, kc, 8);
    assert!(c.iter().all(|x| *x == 129541));
    let mut c = vec![1; 12 * 8];
    avx512_vnni::dispatch_i8_kernel(12, &a, &high, &mut c, kc, 8);
    assert!(c.iter().all(|x| *x == 129541));
    let mut c = vec![1; 12 * 8];
    ref_u8i8_kernel(12, &a, 512, &high, &mut c, 8, kc, 8);
    assert!(c.iter().all(|x| *x == 129541));
}

#[test]
fn accumulators_wrap() {
    let a = rows(4, |_, p| if p == 0 { 2 } else { 0 });
    let b = tile(4, |_, _| 1);
    let mut c = vec![i32::MAX; 12 * 8];
    avx512_vnni::dispatch_i8_kernel(1, &a, &b, &mut c, 4, 8);
    assert_eq!(c[0], i32::MIN + 1);
    let mut c = vec![i32::MAX; 8];
    ref_u8i8_kernel(1, &a, 4, &b, &mut c, 8, 4, 8);
    assert_eq!(c[7], i32::MIN + 1);
}

#[test]
fn signed_kernel_lowers_activations() {
    let b = tile(2usize.next_multiple_of(4), |p, j| if p < 2 { j as i8 + 1 } else { 0 });
    let mut c = vec![10; 6];
    ref_i8i8_kernel(2, &[128, 130, 0, 255], 2, &b, &mut c, 3, 2, 3);
    assert_eq!(c, vec![12, 14, 16, 10 - 1, 10 - 2, 10 - 3]);
}

#[test]
fn empty_reference_products_change_nothing() {
    let mut c = vec![5; 4];
    ref_u8i8_kernel(2, &[], 0, &[], &mut c, 2, 0, 2);
    ref_i8i8_kernel(0, &[], 7, &[1; 32], &mut c, 2, 1, 2);
    assert_eq!(c, vec![5; 4]);
}

#[test]
fn activation_tiles_have_a_fixed_stride() {
    let a: Vec<u8> = (0..40).collect();
    let mut dst = vec![200u8; 3 * 512];
    avx2::pack_a_tile(&a, 1, 2, 2, 5, 10, &mut dst);
    for x in 0..3 * 512 {
        let expected = if x < 5 {
            12 + x as u8
        } else if (512..517).contains(&x) {
            22 + (x - 512) as u8
        } else {
            200
        };
        assert_eq!(dst[x], expected);
    }
}

#[test]
fn weights_are_interleaved_in_tiles() {
    let (k, n) = (514, 10);
    let w = weights(k * n, 7, 127);
    let b = PackedBMatrixI8::new(k, n, &w);
    assert_eq!((b.k(), b.n(), b.num_k_blocks(), b.num_n_blocks()), (k, n, 2, 2));
    for p in 0..k {
        for j in 0..n {
            let t = b.tile(p / 512, j / 8);
            let q = p % 512;
            assert_eq!(t[q / 4 * 32 + j % 8 * 4 + q % 4], w[p * n + j]);
        }
    }
    assert_eq!(b.tile(0, 0).len(), 512 * 8);
    assert_eq!(b.tile(1, 1).len(), 4 * 8);
    let sums: Vec<i32> =
        (0..n).map(|j| (0..k).map(|p| w[p * n + j] as i32).sum()).collect();
    assert_eq!(b.col_offsets(), &sums[..]);
}

#[test]
fn flags_choose_kernel_and_zero_point() {
    assert!(VNNI.use_simd() && AVX2.use_simd() && NEON.use_simd());
    assert!(!PLAIN_X86.use_simd() && !PLAIN_ARM.use_simd() && !SimdFlags::Other.use_simd());
    assert_eq!(NEON.effective_zp(128), 0);
    assert_eq!(NEON.effective_zp(3), -125);
    assert_eq!(PLAIN_ARM.effective_zp(3), 3);
    assert_eq!(VNNI.effective_zp(3), 3);
    assert_eq!(SimdFlags::Other.effective_zp(-9), -9);
}

#[test]
fn integer_rows_quantize_around_128() {
    let (mut bytes, mut scales, mut zero_points) = (vec![1u8], vec![], vec![4i32; 3]);
    quantize_a_per_row_into_no_offsets(
        &[-128, 0, 127, 500, -500, 1],
        2,
        3,
        &mut bytes,
        &mut scales,
        &mut zero_points,
    );
    assert_eq!(bytes, vec![0, 128, 255, 255, 0, 129]);
    assert_eq!(scales, vec![1, 1]);
    assert_eq!(zero_points, vec![128, 128]);
}

#[test]
fn dequantization_subtracts_the_zero_point_product() {
    let mut c = [0, 0, 7];
    dequantize_per_row(1, 2, &[1000, -20], &mut c, &[2], 3, &[128], &[5, -1], VNNI);
    assert_eq!(c, [6 * (1000 - 640), 6 * (-20 + 128), 7]);
    let mut c = [0, 0];
    dequantize_per_row(1, 2, &[1000, -20], &mut c, &[2], 3, &[128], &[5, -1], NEON);
    assert_eq!(c, [6000, -120]);
}

#[test]
fn tasks_cut_rows_and_tiles() {
    let tasks: Vec<(usize, usize, usize)> =
        tile_tasks(130, 5, 2).iter().map(|t| (t.mb_start, t.nb_start, t.nb_end)).collect();
    assert_eq!(
        tasks,
        vec![(0, 0, 2), (0, 2, 4), (0, 4, 5), (120, 0, 2), (120, 2, 4), (120, 4, 5)]
    );
    assert_eq!(tile_tasks(0, 5, 2).len(), 0);
    assert_eq!(tile_tasks(5, 0, 2).len(), 0);
}

fn exact(m: usize, k: usize, n: usize, a: &[i32], w: &[i8], b_scale: i32) -> Vec<i32> {
    let mut r = Vec::new();
    for i in 0..m {
        for j in 0..n {
            let s: i32 = (0..k).map(|p| a[i * k + p] * w[p * n + j] as i32).sum();
            r.push(s * b_scale);
        }
    }
    r
}

#[test]
fn integer_activations_give_the_exact_product() {
    for (m, k, n) in
        [(1, 1, 1), (3, 5, 8), (13, 513, 9), (121, 20, 16), (250, 7, 24), (12, 1030, 40)]
    {
        let a = activations(m * k, 37);
        let w = weights(k * n, 29, 127);
        let packed = PackedBMatrixI8::new(k, n, &w);
        let expected = exact(m, k, n, &a, &w, 3);
        for flags in [VNNI, AVX2, PLAIN_X86, NEON, PLAIN_ARM, SimdFlags::Other] {
            let mut c = vec![1; m * n];
            i8gemm_compute(m, &a, &packed, 3, &mut c, flags);
            assert_eq!(c, expected);
            let mut c = vec![2; m * n];
            i8gemm_compute_par(m, &a, &packed, 3, &mut c, flags);
            assert_eq!(c, expected);
        }
    }
}

#[test]
fn machines_agree_on_extreme_values() {
    let (k, n) = (2, 9);
    for (x, w) in [(127, 127i8), (127, -128), (-128, 127), (-128, -128)] {
        let packed = PackedBMatrixI8::new(k, n, &vec![w; k * n]);
        for flags in [VNNI, AVX2, PLAIN_X86, NEON, PLAIN_ARM, SimdFlags::Other] {
            let mut c = vec![0; n];
            i8gemm_compute(1, &[x, x], &packed, 1, &mut c, flags);
            assert_eq!(c, vec![2 * x * w as i32; n]);
            let mut c = vec![0; n];
            i8gemm_compute_par(1, &[x, x], &packed, 1, &mut c, flags);
            assert_eq!(c, vec![2 * x * w as i32; n]);
        }
    }
}

#[test]
fn weight_scale_is_a_factor_of_the_output() {
    let (m, k, n) = (5, 70, 17);
    let a = activations(m * k, 37);
    let packed = PackedBMatrixI8::new(k, n, &weights(k * n, 29, 127));
    let mut c = vec![0; m * n];
    let mut d = vec![0; m * n];
    i8gemm_compute(m, &a, &packed, 7, &mut c, AVX2);
    i8gemm_compute(m, &a, &packed, 14, &mut d, AVX2);
    for x in 0..m * n {
        assert_eq!(d[x], c[x].wrapping_mul(2));
    }
    i8gemm_compute(m, &a, &packed, 7i32.wrapping_mul(1 << 29), &mut d, NEON);
    for x in 0..m * n {
        assert_eq!(d[x], c[x].wrapping_mul(1 << 29));
    }
}

#[test]
fn thread_count_makes_no_difference() {
    let (m, k, n) = (245, 530, 56);
    let a = activations(m * k, 41);
    let packed = PackedBMatrixI8::new(k, n, &weights(k * n, 31, 127));
    for flags in [VNNI, AVX2, NEON, SimdFlags::Other] {
        let mut expected = vec![0; m * n];
        i8gemm_compute(m, &a, &packed, 1, &mut expected, flags);
        let mut scratch = I8GemmScratch::new();
        for threads in [1, 2, 3, 7, 8, 100] {
            let mut c = vec![9; m * n];
            i8gemm_compute_par_on(m, &a, &packed, 1, &mut c, &mut scratch, flags, threads);
            assert_eq!(c, expected);
        }
    }
}

#[test]
fn scratch_buffers_can_be_reused() {
    let mut scratch = I8GemmScratch::new();
    for (m, k, n) in [(20, 30, 16), (2, 3, 5), (30, 2, 8)] {
        let a = activations(m * k, 11);
        let w = weights(k * n, 5, 50);
        let packed = PackedBMatrixI8::new(k, n, &w);
        let expected = exact(m, k, n, &a, &w, 1);
        let mut c = vec![0; m * n];
        i8gemm_compute_with_scratch(m, &a, &packed, 1, &mut c, &mut scratch, VNNI);
        assert_eq!(c, expected);
        let mut c = vec![0; m * n];
        i8gemm_compute_par_with_scratch(m, &a, &packed, 1, &mut c, &mut scratch, AVX2);
        assert_eq!(c, expected);
    }
}

#[test]
fn elements_beyond_the_output_stay() {
    let packed = PackedBMatrixI8::new(2, 1, &[3, -4]);
    let mut c = [0, 0, 77, 78];
    i8gemm_compute(2, &[1, 1, 10, 0, 5], &packed, 1, &mut c, SimdFlags::Other);
    assert_eq!(c, [-1, 30, 77, 78]);
}

#[test]
fn empty_quantized_products() {
    let packed = PackedBMatrixI8::new(0, 3, &[]);
    let mut c = [5, 6, 7];
    i8gemm_compute(1, &[], &packed, 1, &mut c, VNNI);
    assert_eq!(c, [0, 0, 0]);
    let mut c = [5, 6, 7];
    i8gemm_compute_par(1, &[], &packed, 1, &mut c, VNNI);
    assert_eq!(c, [0, 0, 0]);
    let narrow = PackedBMatrixI8::new(3, 0, &[]);
    let mut none: [i32; 0] = [];
    i8gemm_compute(2, &[1; 6], &narrow, 1, &mut none, AVX2);
    i8gemm_compute_par(0, &[], &narrow, 1, &mut none, AVX2);
    for flags in [VNNI, NEON, SimdFlags::Other] {
        let mut c = [5, 6, 7];
        i8gemm_compute_par(2, &[1; 6], &narrow, 1, &mut c, flags);
        assert_eq!(c, [5, 6, 7]);
        let mut scratch = I8GemmScratch::new();
        i8gemm_compute_par_with_scratch(2, &[1; 6], &narrow, 1, &mut c, &mut scratch, flags);
        i8gemm_compute_par_on(2, &[1; 6], &narrow, 1, &mut c, &mut scratch, flags, 4);
        i8gemm_compute_with_scratch(2, &[1; 6], &narrow, 1, &mut c, &mut scratch, flags);
        assert_eq!(c, [5, 6, 7]);
    }
}
