//! Multiplication of single-precision matrices.

use fbgemm::bf16::{bf16_to_f32, compute_par, compute_st, f32_to_bf16};
use fbgemm::gemm::cblas_gemm_compute;
use fbgemm::quantized::block::SimdFlags;
use fbgemm::quantized::gemm::{
    dequantize_per_row, i8gemm_compute, i8gemm_compute_par, i8gemm_compute_par_with_scratch,
    I8GemmScratch,
};
use fbgemm::quantized::quantize::quantize_a_per_row_into_no_offsets;
use fbgemm::{
    sgemm, sgemm_bf16, sgemm_bf16_simple, sgemm_simple, Activation, PackedBMatrixI8, PackedMatrix,
    PackedMatrixBf16, Scalar,
};

#[derive(Clone, Copy, Debug, PartialEq)]
struct F32(f32);

impl Scalar for F32 {
    fn spec_zero() -> F32 {
        F32(0.0)
    }
    fn spec_one() -> F32 {
        F32(1.0)
    }
    fn spec_plus(self, rhs: F32) -> F32 {
        F32(self.0 + rhs.0)
    }
    fn spec_times(self, rhs: F32) -> F32 {
        F32(self.0 * rhs.0)
    }
    fn spec_mul_add(self, x: F32, y: F32) -> F32 {
        F32(x.0.mul_add(y.0, self.0))
    }
    fn spec_is_zero(self) -> bool {
        self.0 == 0.0
    }
    fn spec_to_bits(self) -> u32 {
        self.0.to_bits()
    }
    fn spec_from_bits(bits: u32) -> F32 {
        F32(f32::from_bits(bits))
    }
    fn lemma_bits(bits: u32, x: F32) {
        assert_eq!(f32::from_bits(bits).to_bits(), bits);
        assert_eq!(f32::from_bits(x.0.to_bits()).to_bits(), x.0.to_bits());
    }
    fn zero() -> F32 {
        F32(0.0)
    }
    fn one() -> F32 {
        F32(1.0)
    }
    fn plus(self, rhs: F32) -> F32 {
        F32(self.0 + rhs.0)
    }
    fn times(self, rhs: F32) -> F32 {
        F32(self.0 * rhs.0)
    }
    fn mul_add(self, x: F32, y: F32) -> F32 {
        F32(x.0.mul_add(y.0, self.0))
    }
    fn is_zero(self) -> bool {
        self.0 == 0.0
    }
    fn to_bits(self) -> u32 {
        self.0.to_bits()
    }
    fn from_bits(bits: u32) -> F32 {
        F32(f32::from_bits(bits))
    }
}

fn scale_of(lo: f32, hi: f32) -> f32 {
    let lo = lo.min(0.0);
    let hi = hi.max(0.0);
    if hi == lo {
        1.0
    } else {
        (hi - lo) / 255.0
    }
}

fn zero_point_of(lo: f32, hi: f32) -> i32 {
    (-lo.min(0.0) / scale_of(lo, hi)).round().clamp(0.0, 255.0) as i32
}

fn byte_of(x: f32, scale: f32, zero_point: i32) -> u8 {
    ((x / scale).round() + zero_point as f32).clamp(0.0, 255.0) as u8
}

impl Activation for F32 {
    fn spec_from_i32(x: i32) -> F32 {
        F32(x as f32)
    }
    fn spec_lesser(self, other: F32) -> F32 {
        F32(self.0.min(other.0))
    }
    fn spec_greater(self, other: F32) -> F32 {
        F32(self.0.max(other.0))
    }
    fn spec_scale(lo: F32, hi: F32) -> F32 {
        F32(scale_of(lo.0, hi.0))
    }
    fn spec_zero_point(lo: F32, hi: F32) -> i32 {
        zero_point_of(lo.0, hi.0)
    }
    fn spec_quantize(self, scale: F32, zero_point: i32) -> u8 {
        byte_of(self.0, scale.0, zero_point)
    }
    fn from_i32(x: i32) -> F32 {
        F32(x as f32)
    }
    fn lesser(self, other: F32) -> F32 {
        F32(self.0.min(other.0))
    }
    fn greater(self, other: F32) -> F32 {
        F32(self.0.max(other.0))
    }
    fn scale(lo: F32, hi: F32) -> F32 {
        F32(scale_of(lo.0, hi.0))
    }
    fn zero_point(lo: F32, hi: F32) -> i32 {
        zero_point_of(lo.0, hi.0)
    }
    fn quantize(self, scale: F32, zero_point: i32) -> u8 {
        byte_of(self.0, scale.0, zero_point)
    }
}

fn floats(xs: &[f32]) -> Vec<F32> {
    xs.iter().map(|x| F32(*x)).collect()
}

fn plain(xs: &[F32]) -> Vec<f32> {
    xs.iter().map(|x| x.0).collect()
}

/// `beta * c + a * b`, summed in double precision.
fn naive(m: usize, k: usize, n: usize, a: &[f32], b: &[f32], beta: f32, c: &[f32]) -> Vec<f64> {
    let mut r = Vec::new();
    for i in 0..m {
        for j in 0..n {
            let mut s = beta as f64 * c[i * n + j] as f64;
            for p in 0..k {
                s += a[i * k + p] as f64 * b[p * n + j] as f64;
            }
            r.push(s);
        }
    }
    r
}

#[test]
fn test_basic_sgemm() {
    let a = floats(&[1.0, 2.0, 3.0, 4.0, 5.0, 6.0]);
    let b = floats(&[7.0, 8.0, 9.0, 10.0, 11.0, 12.0]);
    let mut c = floats(&[0.0; 4]);

    let packed_b = PackedMatrix::new(3, 2, &b);
    assert_eq!(packed_b.k(), 3);
    assert_eq!(packed_b.n(), 2);

    sgemm_simple(2, &a, &packed_b, &mut c);

    let c = plain(&c);
    assert!((c[0] - 58.0).abs() < 1e-4, "c[0] = {}", c[0]);
    assert!((c[1] - 64.0).abs() < 1e-4, "c[1] = {}", c[1]);
    assert!((c[2] - 139.0).abs() < 1e-4, "c[2] = {}", c[2]);
    assert!((c[3] - 154.0).abs() < 1e-4, "c[3] = {}", c[3]);
}

#[test]
fn test_sgemm_with_beta() {
    let a = floats(&[1.0, 0.0, 0.0, 1.0]);
    let b = floats(&[3.0, 4.0, 5.0, 6.0]);
    let mut c = floats(&[1.0, 1.0, 1.0, 1.0]);

    let packed_b = PackedMatrix::new(2, 2, &b);

    sgemm(2, &a, &packed_b, F32(2.0), &mut c);

    let c = plain(&c);
    assert!((c[0] - 5.0).abs() < 1e-4, "c[0] = {}", c[0]);
    assert!((c[1] - 6.0).abs() < 1e-4, "c[1] = {}", c[1]);
    assert!((c[2] - 7.0).abs() < 1e-4, "c[2] = {}", c[2]);
    assert!((c[3] - 8.0).abs() < 1e-4, "c[3] = {}", c[3]);
}

#[test]
fn test_larger_matrix() {
    let m = 16;
    let k = 32;
    let n = 16;

    let a: Vec<f32> = (0..m * k).map(|i| (i as f32) * 0.01).collect();
    let b: Vec<f32> = (0..k * n).map(|i| (i as f32) * 0.01).collect();
    let mut c = vec![F32(0.0); m * n];

    let packed_b = PackedMatrix::new(k, n, &floats(&b));
    sgemm_simple(m, &floats(&a), &packed_b, &mut c);
    let c = plain(&c);

    let mut c_ref = vec![0.0f32; m * n];
    for i in 0..m {
        for j in 0..n {
            for p in 0..k {
                c_ref[i * n + j] += a[i * k + p] * b[p * n + j];
            }
        }
    }

    for i in 0..m * n {
        assert!(
            (c[i] - c_ref[i]).abs() < 1e-2,
            "mismatch at {}: got {}, expected {}",
            i,
            c[i],
            c_ref[i]
        );
    }
}

#[test]
fn test_bf16_conversion_roundtrip() {
    let vals = [1.0f32, -1.0, 0.0, 3.14, 100.0, -0.001, 65504.0];
    for &v in &vals {
        let bf = f32_to_bf16(F32(v));
        let back = bf16_to_f32::<F32>(bf).0;
        let rel_err = if v == 0.0 {
            back.abs()
        } else {
            ((back - v) / v).abs()
        };
        assert!(rel_err < 0.01, "bf16 roundtrip for {}: got {}, err={}", v, back, rel_err);
    }
}

#[test]
fn test_bf16_basic_sgemm() {
    let a = floats(&[1.0, 2.0, 3.0, 4.0, 5.0, 6.0]);
    let b = floats(&[7.0, 8.0, 9.0, 10.0, 11.0, 12.0]);
    for native in [true, false] {
        let mut c = vec![F32(0.0); 4];

        let packed_b = PackedMatrixBf16::new(3, 2, &b);
        sgemm_bf16_simple(2, &a, &packed_b, &mut c, native);

        let c = plain(&c);
        assert!((c[0] - 58.0).abs() < 1.0, "c[0] = {}", c[0]);
        assert!((c[1] - 64.0).abs() < 1.0, "c[1] = {}", c[1]);
        assert!((c[2] - 139.0).abs() < 2.0, "c[2] = {}", c[2]);
        assert!((c[3] - 154.0).abs() < 2.0, "c[3] = {}", c[3]);
    }
}

#[test]
fn test_bf16_larger_matrix() {
    let m = 16;
    let k = 32;
    let n = 16;

    let a: Vec<f32> = (0..m * k).map(|i| (i as f32) * 0.01).collect();
    let b: Vec<f32> = (0..k * n).map(|i| (i as f32) * 0.01).collect();

    let mut c_ref = vec![0.0f32; m * n];
    for i in 0..m {
        for j in 0..n {
            for p in 0..k {
                c_ref[i * n + j] += a[i * k + p] * b[p * n + j];
            }
        }
    }

    for native in [true, false] {
        let mut c = vec![F32(0.0); m * n];
        let packed_b = PackedMatrixBf16::new(k, n, &floats(&b));
        sgemm_bf16_simple(m, &floats(&a), &packed_b, &mut c, native);
        let c = plain(&c);

        for i in 0..m * n {
            let rel_err = if c_ref[i].abs() > 0.01 {
                ((c[i] - c_ref[i]) / c_ref[i]).abs()
            } else {
                (c[i] - c_ref[i]).abs()
            };
            assert!(
                rel_err < 0.02,
                "mismatch at {}: got {}, expected {}, rel_err={}",
                i, c[i], c_ref[i], rel_err
            );
        }
    }
}

#[test]
fn test_bf16_memory_savings() {
    let k = 768;
    let n = 3072;
    let src: Vec<F32> = vec![F32(0.0); k * n];

    let packed_f32 = PackedMatrix::new(k, n, &src);
    let packed_bf16 = PackedMatrixBf16::new(k, n, &src);

    let f32_bytes = std::mem::size_of_val(packed_f32.data());
    let bf16_bytes = packed_bf16.size_bytes();
    let ratio = f32_bytes as f64 / bf16_bytes as f64;
    assert!(
        ratio > 1.8 && ratio < 2.2,
        "expected ~2x ratio, got {:.2}",
        ratio
    );
}

#[test]
fn truncation_keeps_the_upper_half() {
    assert_eq!(f32_to_bf16(F32(1.0)), 0x3f80);
    assert_eq!(f32_to_bf16(F32(-2.5)), 0xc020);
    assert_eq!(f32_to_bf16(F32(3.14)), 0x4048);
    assert_eq!(bf16_to_f32::<F32>(0x4048), F32(3.125));
    for x in 0..=u16::MAX {
        let y: i32 = bf16_to_f32(x);
        assert_eq!(f32_to_bf16(y), x);
        let z: F32 = bf16_to_f32(x);
        assert_eq!(z.to_bits(), (x as u32) << 16);
        assert_eq!(f32_to_bf16(z), x);
    }
}

#[test]
fn float_product_spans_blocks_groups_and_fringes() {
    let (m, k, n) = (127, 520, 21);
    let a: Vec<f32> = (0..m * k).map(|i| ((i * 7 % 23) as f32 - 11.0) * 0.25).collect();
    let b: Vec<f32> = (0..k * n).map(|i| ((i * 5 % 19) as f32 - 9.0) * 0.5).collect();
    let c0: Vec<f32> = (0..m * n).map(|i| (i % 13) as f32).collect();
    for beta in [0.0f32, 1.0, -0.5] {
        let expected = naive(m, k, n, &a, &b, beta, &c0);
        let packed = PackedMatrix::new(k, n, &floats(&b));
        let mut c = floats(&c0);
        cblas_gemm_compute(m, &floats(&a), &packed, F32(beta), &mut c);
        let half = PackedMatrixBf16::new(k, n, &floats(&b));
        let mut d = floats(&c0);
        sgemm_bf16(m, &floats(&a), &half, F32(beta), &mut d, true);
        for x in 0..m * n {
            assert_eq!(c[x].0 as f64, expected[x]);
            assert_eq!(d[x].0 as f64, expected[x]);
        }
    }
}

#[test]
fn zero_beta_overwrites_even_nan() {
    let packed = PackedMatrix::new(1, 17, &floats(&[2.0; 17]));
    let mut c = floats(&[f32::NAN; 34]);
    sgemm_simple(2, &floats(&[3.0, 4.0]), &packed, &mut c);
    for x in 0..34 {
        assert_eq!(c[x].0, if x < 17 { 6.0 } else { 8.0 });
    }
}

#[test]
fn incomplete_blocks_follow_the_same_formula() {
    let inf = f32::INFINITY;
    let b = floats(&[1.0; 18]);
    for (beta, c0) in [(inf, 2.0), (-0.5, 3.0), (inf, -1.0), (0.0, inf)] {
        let expected = if beta == 0.0 { 4.0 } else { beta * c0 + 4.0 };
        let mut c = vec![F32(c0); 18];
        sgemm(1, &[F32(4.0)], &PackedMatrix::new(1, 18, &b), F32(beta), &mut c);
        assert_eq!(plain(&c), vec![expected; 18]);
        for native in [true, false] {
            let mut d = vec![F32(c0); 18];
            let half = PackedMatrixBf16::new(1, 18, &b);
            sgemm_bf16(1, &[F32(4.0)], &half, F32(beta), &mut d, native);
            assert_eq!(plain(&d), vec![expected; 18]);
        }
    }
}

#[test]
fn float_outputs_side_by_side() {
    let (m, k) = (7, 530);
    for (n1, n2) in [(16, 5), (3, 20), (17, 17), (5, 11)] {
        let n = n1 + n2;
        let a: Vec<F32> = (0..m * k).map(|i| F32((i * 7 % 97) as f32 * 0.013)).collect();
        let b: Vec<F32> = (0..k * n).map(|i| F32((i * 5 % 89) as f32 * -0.017)).collect();
        let mut c: Vec<F32> = (0..m * n).map(|i| F32(i as f32 * 0.3)).collect();
        let columns = |xs: &[F32], rows: usize, lo: usize, hi: usize| -> Vec<F32> {
            (0..rows).flat_map(|i| xs[i * n + lo..i * n + hi].to_vec()).collect()
        };
        let mut c1 = columns(&c, m, 0, n1);
        let mut c2 = columns(&c, m, n1, n);
        let beta = F32(-0.7);
        sgemm(m, &a, &PackedMatrix::new(k, n, &b), beta, &mut c);
        sgemm(m, &a, &PackedMatrix::new(k, n1, &columns(&b, k, 0, n1)), beta, &mut c1);
        sgemm(m, &a, &PackedMatrix::new(k, n2, &columns(&b, k, n1, n)), beta, &mut c2);
        assert!(columns(&c, m, 0, n1) == c1);
        assert!(columns(&c, m, n1, n) == c2);
    }
}

#[test]
fn float_bf16_paths_agree() {
    let (m, k, n) = (131, 515, 18);
    let a: Vec<F32> = (0..m * k).map(|i| F32((i % 97) as f32 * 0.013)).collect();
    let b: Vec<F32> = (0..k * n).map(|i| F32((i % 89) as f32 * 0.017)).collect();
    let packed = PackedMatrixBf16::new(k, n, &b);
    let mut first = vec![F32(1.5); m * n];
    compute_st(m, &a, &packed, F32(0.25), &mut first, true);
    for native in [true, false] {
        let mut st = vec![F32(1.5); m * n];
        compute_st(m, &a, &packed, F32(0.25), &mut st, native);
        let mut par = vec![F32(1.5); m * n];
        compute_par(m, &a, &packed, F32(0.25), &mut par, native);
        assert!(st == first);
        assert!(par == first);
    }
}

#[test]
fn quantization_covers_the_range_of_each_row() {
    let a = floats(&[-1.0, 0.0, 1.55, 0.0, 0.0, 0.0, 0.0, 2.55, 1.0]);
    let (mut bytes, mut scales, mut zero_points) = (vec![9u8; 2], vec![F32(7.0)], vec![5i32; 9]);
    quantize_a_per_row_into_no_offsets(&a, 3, 3, &mut bytes, &mut scales, &mut zero_points);
    assert_eq!(bytes, vec![0, 100, 255, 0, 0, 0, 0, 255, 100]);
    assert_eq!(zero_points, vec![100, 0, 0]);
    assert!((scales[0].0 - 0.01).abs() < 1e-6);
    assert_eq!(scales[1], F32(1.0));
    assert!((scales[2].0 - 0.01).abs() < 1e-6);
}

#[test]
fn doubling_the_weight_scale_doubles_the_output() {
    let (m, k, n) = (3, 40, 10);
    let a: Vec<F32> = (0..m * k).map(|i| F32((i * 31 % 101) as f32 * 0.03 - 1.0)).collect();
    let w: Vec<i8> = (0..k * n).map(|i| ((i * 13 % 255) as i32 - 127) as i8).collect();
    let packed = PackedBMatrixI8::new(k, n, &w);
    let mut c = vec![F32(0.0); m * n];
    let mut d = vec![F32(0.0); m * n];
    i8gemm_compute(m, &a, &packed, F32(0.017), &mut c, SimdFlags::Other);
    i8gemm_compute(m, &a, &packed, F32(2.0 * 0.017), &mut d, SimdFlags::Other);
    for x in 0..m * n {
        assert_eq!(d[x].0, 2.0 * c[x].0);
    }
}

#[test]
fn float_alpha_scales_the_product_and_not_the_output() {
    let a = floats(&[1.0, 2.0, 3.0]);
    let b = floats(&[0.5, 1.0, -2.0, 4.0, 0.25, 8.0]);
    let mut c = floats(&[10.0, 20.0]);
    sgemm(1, &a, &PackedMatrix::with_alpha(3, 2, &b, F32(4.0)), F32(0.5), &mut c);
    assert_eq!(plain(&c), vec![5.0 + 4.0 * -2.75, 10.0 + 4.0 * 33.0]);
    let unit = PackedMatrix::with_alpha(3, 2, &b, F32(1.0));
    assert!(unit.data() == PackedMatrix::new(3, 2, &b).data());
}

#[test]
fn converting_back_clears_the_lower_half() {
    for v in [1.0f32, -3.14159, 1e-30, -1e30, 65504.5, -0.0] {
        let back = bf16_to_f32::<F32>(f32_to_bf16(F32(v))).0;
        assert_eq!(back.to_bits(), v.to_bits() & 0xffff_0000);
        F32::lemma_bits(v.to_bits(), F32(back));
        assert!(back.abs() <= v.abs());
        assert_eq!(back.is_sign_negative(), v.is_sign_negative());
    }
}

#[test]
fn dequantization_scales_and_corrects() {
    let mut c = floats(&[0.0, 0.0, 0.0, 0.0, 99.0]);
    dequantize_per_row(
        2,
        2,
        &[100, -50, 7, 8],
        &mut c,
        &floats(&[0.5, 2.0]),
        F32(3.0),
        &[10, 0],
        &[4, -1],
        SimdFlags::Other,
    );
    assert_eq!(plain(&c), vec![90.0, -60.0, 42.0, 48.0, 99.0]);
}

#[test]
fn quantized_product_is_close_to_the_real_one() {
    let (m, k, n) = (14, 60, 24);
    let a: Vec<f32> = (0..m * k).map(|i| ((i * 31 % 101) as f32 - 40.0) * 0.05).collect();
    let w: Vec<i8> = (0..k * n).map(|i| ((i * 13 % 41) as i32 - 20) as i8).collect();
    let b_scale = 0.02f32;
    let b: Vec<f32> = w.iter().map(|x| *x as f32 * b_scale).collect();
    let expected = naive(m, k, n, &a, &b, 0.0, &vec![0.0; m * n]);
    let packed = PackedBMatrixI8::new(k, n, &w);
    for flags in [
        SimdFlags::X86 { avx512_vnni: true, avx2: true },
        SimdFlags::X86 { avx512_vnni: false, avx2: true },
        SimdFlags::X86 { avx512_vnni: false, avx2: false },
        SimdFlags::Aarch64 { neon_dotprod: true },
        SimdFlags::Aarch64 { neon_dotprod: false },
        SimdFlags::Other,
    ] {
        let mut c = vec![F32(0.0); m * n];
        i8gemm_compute(m, &floats(&a), &packed, F32(b_scale), &mut c, flags);
        let mut d = vec![F32(0.0); m * n];
        i8gemm_compute_par(m, &floats(&a), &packed, F32(b_scale), &mut d, flags);
        let mut scratch = I8GemmScratch::new();
        let mut e = vec![F32(0.0); m * n];
        i8gemm_compute_par_with_scratch(
            m,
            &floats(&a),
            &packed,
            F32(b_scale),
            &mut e,
            &mut scratch,
            flags,
        );
        assert!(c == d);
        assert!(c == e);
        for x in 0..m * n {
            assert!((c[x].0 as f64 - expected[x]).abs() < 0.25, "{} {}", c[x].0, expected[x]);
        }
    }
}
