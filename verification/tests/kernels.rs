use half::f16;
use nxml::ops::{dotv, softmax_inplace};
use nxml::tensor::{Tensor, TensorElement};
use std::cell::RefCell;

fn elems<T: TensorElement + Copy>(t: &Tensor<T>) -> Vec<T> {
    let acc = RefCell::new(Vec::new());
    let _ = t.map_elems(&|x: T| -> T {
        acc.borrow_mut().push(x);
        x
    });
    acc.into_inner()
}

fn h(x: f32) -> u16 {
    f16::from_f32(x).to_bits()
}

fn hv(b: u16) -> f32 {
    f16::from_bits(b).to_f32()
}

fn step16(x: u16, y: u16, acc: u32) -> u32 {
    hv(x).mul_add(hv(y), f32::from_bits(acc)).to_bits()
}

fn step32(x: u32, y: u32, acc: u32) -> u32 {
    f32::from_bits(x).mul_add(f32::from_bits(y), f32::from_bits(acc)).to_bits()
}

fn step32_16(x: u32, y: u16, acc: u32) -> u32 {
    f32::from_bits(x).mul_add(hv(y), f32::from_bits(acc)).to_bits()
}

fn round16(acc: u32) -> u16 {
    f16::from_f32(f32::from_bits(acc)).to_bits()
}

fn fmax(a: u32, b: u32) -> u32 {
    f32::from_bits(a).max(f32::from_bits(b)).to_bits()
}

fn fexpsub(x: u32, m: u32) -> u32 {
    (f32::from_bits(x) - f32::from_bits(m)).exp().to_bits()
}

fn fadd(a: u32, b: u32) -> u32 {
    (f32::from_bits(a) + f32::from_bits(b)).to_bits()
}

fn fdiv(a: u32, b: u32) -> u32 {
    (f32::from_bits(a) / f32::from_bits(b)).to_bits()
}

fn fmul(a: u32, b: u32) -> u32 {
    (f32::from_bits(a) * f32::from_bits(b)).to_bits()
}

fn fout16(v: u16, s: u32, acc: u32) -> u32 {
    hv(v).mul_add(f32::from_bits(s), f32::from_bits(acc)).to_bits()
}

/// A small deterministic generator for the pseudo-random test vectors.
struct Lcg(u64);

impl Lcg {
    fn next(&mut self) -> u64 {
        self.0 = self.0.wrapping_mul(6364136223846793005).wrapping_add(1442695040888963407);
        self.0 >> 33
    }

    fn half_in_unit(&mut self) -> u16 {
        let v = (self.next() % 2001) as f32 / 1000.0 - 1.0;
        h(v)
    }
}

#[test]
fn dot_fma_close_to_reference() {
    // Fused multiply-add accumulation stays within 1e-3 relative error of a
    // straightforward 32-bit sum, for random half-precision vectors of
    // lengths up to 4096.
    let mut rng = Lcg(0x5eed);
    for &n in &[1usize, 7, 129, 1024, 4096] {
        let a: Vec<u16> = (0..n).map(|_| rng.half_in_unit()).collect();
        let b: Vec<u16> = (0..n).map(|_| rng.half_in_unit()).collect();
        let got = f32::from_bits(dotv(&a, 0, &b, 0, n, &step16));
        let mut reference = 0.0f32;
        for i in 0..n {
            reference += hv(a[i]) * hv(b[i]);
        }
        let tol = 1e-3 * reference.abs().max(1.0);
        assert!(
            (got - reference).abs() <= tol,
            "n={} got={} reference={}",
            n,
            got,
            reference
        );
    }
}

#[test]
fn dotv_respects_offsets() {
    let a: Vec<u16> = vec![h(9.0), h(1.0), h(2.0)];
    let b: Vec<u16> = vec![h(3.0), h(4.0), h(9.0)];
    let got = f32::from_bits(dotv(&a, 1, &b, 0, 2, &step16));
    assert_eq!(got, 1.0 * 3.0 + 2.0 * 4.0);
}

#[test]
fn matmul_shape_law_and_cells() {
    // A is [m, n] and B^T is [p, n]: the result is [m, p] and each cell is
    // the dot product of a row of A with a row of B^T.
    let m = 2usize;
    let n = 3usize;
    let p = 4usize;
    let mut rng = Lcg(42);
    let a_data: Vec<u16> = (0..m * n).map(|_| rng.half_in_unit()).collect();
    let b_data: Vec<u16> = (0..p * n).map(|_| rng.half_in_unit()).collect();
    let a = Tensor::new(a_data.clone(), vec![m, n]).unwrap();
    let bt = Tensor::new(b_data.clone(), vec![p, n]).unwrap();
    let c: Tensor<u16> = a.matmul(&bt, &step16, &round16).unwrap();
    assert_eq!(c.shape(), vec![m, p]);
    let cells = elems(&c);
    for i in 0..m {
        for j in 0..p {
            let want = round16(dotv(&a_data, i * n, &b_data, j * n, n, &step16));
            assert_eq!(cells[i * p + j], want, "cell ({}, {})", i, j);
        }
    }
}

#[test]
fn matmul_rejects_contraction_mismatch() {
    let a = Tensor::new(vec![h(1.0); 6], vec![2, 3]).unwrap();
    let bt = Tensor::new(vec![h(1.0); 8], vec![2, 4]).unwrap();
    let r: Result<Tensor<u16>, _> = a.matmul(&bt, &step16, &round16);
    assert!(matches!(r, Err(nxml::TensorError::ShapeMismatch)));
}

#[test]
fn matmul_batched_broadcasts_over_leading_dims() {
    // Two stacked 1x2 by 1x2^T products.
    let a = Tensor::new(vec![h(1.0), h(2.0), h(3.0), h(4.0)], vec![2, 1, 2]).unwrap();
    let bt = Tensor::new(vec![h(10.0), h(100.0), h(5.0), h(0.5)], vec![2, 1, 2]).unwrap();
    let c: Tensor<u16> = a.matmul(&bt, &step16, &round16).unwrap();
    assert_eq!(c.shape(), vec![2, 1, 1]);
    let cells = elems(&c);
    assert_eq!(hv(cells[0]), 210.0);
    assert_eq!(hv(cells[1]), 17.0);
}

#[test]
fn matmul_mixed_precision() {
    // Single-precision activations against half-precision weights, rounded
    // back to half precision.
    let a = Tensor::new(vec![1.5f32.to_bits(), 2.5f32.to_bits()], vec![1, 2]).unwrap();
    let bt = Tensor::new(vec![h(2.0), h(4.0)], vec![1, 2]).unwrap();
    let c: Tensor<u16> = a.matmul(&bt, &step32_16, &round16).unwrap();
    assert_eq!(c.shape(), vec![1, 1]);
    assert_eq!(hv(elems(&c)[0]), 13.0);
}

#[test]
fn matmul_single_precision() {
    let a = Tensor::new(vec![1.0f32.to_bits(), 2.0f32.to_bits()], vec![1, 2]).unwrap();
    let bt = Tensor::new(vec![3.0f32.to_bits(), 0.25f32.to_bits()], vec![1, 2]).unwrap();
    let c: Tensor<u32> = a.matmul(&bt, &step32, &|acc: u32| -> u32 { acc }).unwrap();
    assert_eq!(c.shape(), vec![1, 1]);
    assert_eq!(f32::from_bits(elems(&c)[0]), 3.5);
}

#[test]
fn softmax_row_stochastic() {
    // For any finite score row the softmax output sums to 1 within 1e-5 and
    // every entry lies in [0, 1].
    let rows: Vec<Vec<f32>> = vec![
        vec![0.0],
        vec![1.0, 2.0, 3.0, 4.0],
        vec![-100.0, 0.0, 100.0],
        vec![5.0; 64],
        vec![-3.5, 7.25, 0.125, -88.0, 13.0],
    ];
    for row in rows {
        let mut x: Vec<u32> = row.iter().map(|v| v.to_bits()).collect();
        softmax_inplace(&mut x, &fmax, &fexpsub, &fadd, &fdiv);
        let vals: Vec<f32> = x.iter().map(|b| f32::from_bits(*b)).collect();
        let sum: f32 = vals.iter().sum();
        assert!((sum - 1.0).abs() <= 1e-5, "sum {} of {:?}", sum, vals);
        for v in vals {
            assert!((0.0..=1.0).contains(&v));
        }
    }
}

#[test]
fn silu_matches_formula() {
    // The elementwise kernel applied with the SiLU scalar: computed in
    // 32-bit precision and rounded back to storage precision.
    let silu = |x: u16| -> u16 {
        let x32 = hv(x);
        h(x32 * (1.0 / (1.0 + (-x32).exp())))
    };
    let inputs: Vec<f32> = vec![-4.0, -1.0, 0.0, 0.5, 1.0, 3.0];
    let t = Tensor::new(inputs.iter().map(|v| h(*v)).collect(), vec![2, 3]).unwrap();
    let y = t.map_elems(&silu);
    assert_eq!(y.shape(), vec![2, 3]);
    let got = elems(&y);
    for (i, v) in inputs.iter().enumerate() {
        let want = h(v * (1.0 / (1.0 + (-v).exp())));
        assert_eq!(got[i], want, "silu({})", v);
    }
}

fn inv_rms(row: &[u16]) -> u32 {
    let mut acc = 0.0f32;
    for x in row {
        let v = hv(*x);
        acc = v.mul_add(v, acc);
    }
    let rms = (acc / row.len() as f32).sqrt();
    (1.0 / rms).to_bits()
}

fn scale16(x: u16, fac: u32) -> u16 {
    h(hv(x) * f32::from_bits(fac))
}

#[test]
fn rms_norm_of_ones_is_ones() {
    // An all-ones row has a root-mean-square of exactly 1, so normalizing
    // it returns it unchanged.
    let t = Tensor::new(vec![h(1.0); 4], vec![4]).unwrap();
    let y = t.scale_rows(&inv_rms, &scale16);
    assert_eq!(y.shape(), vec![4]);
    assert_eq!(elems(&y), vec![h(1.0); 4]);
}

#[test]
fn rms_norm_normalizes_each_row() {
    let t = Tensor::new(vec![h(3.0), h(4.0), h(2.0), h(2.0)], vec![2, 2]).unwrap();
    let y = t.scale_rows(&inv_rms, &scale16);
    let got = elems(&y);
    // Row 0: rms = sqrt((9 + 16) / 2); row 1: rms = 2.
    let rms0 = (25.0f32 / 2.0).sqrt();
    assert_eq!(got[0], h(3.0 * (1.0 / rms0)));
    assert_eq!(got[1], h(4.0 * (1.0 / rms0)));
    assert_eq!(got[2], h(1.0));
    assert_eq!(got[3], h(1.0));
}

#[test]
fn flash_attn_single_position_returns_values() {
    // With one sequence position the softmax weight is exactly 1, so the
    // output equals the value vector.
    let v = Tensor::new(vec![h(2.5), h(-7.0)], vec![2, 1]).unwrap();
    let q = Tensor::new(vec![h(0.5), h(1.0)], vec![1, 2]).unwrap();
    let k = Tensor::new(vec![h(0.25), h(2.0)], vec![1, 2]).unwrap();
    let scale = (1.0f32 / (2.0f32).sqrt()).to_bits();
    let o = v
        .flash_attn(&q, &k, scale, &step16, &fmul, &fmax, &fexpsub, &fadd, &fdiv, &fout16, &round16)
        .unwrap();
    assert_eq!(o.shape(), vec![1, 2]);
    assert_eq!(elems(&o), vec![h(2.5), h(-7.0)]);
}

#[test]
fn flash_attn_mixes_values_by_softmax_weights() {
    // Two sequence positions, one embedding channel: compute the expected
    // output with the same scalar steps the kernel is given.
    let v0 = 2.0f32;
    let v1 = 10.0f32;
    let q0 = 1.0f32;
    let q1 = -0.5f32;
    let k0 = 0.5f32;
    let k1 = 2.0f32;
    let v = Tensor::new(vec![h(v0), h(v1)], vec![1, 2]).unwrap();
    let q = Tensor::new(vec![h(q0), h(q1)], vec![2, 1]).unwrap();
    let k = Tensor::new(vec![h(k0), h(k1)], vec![2, 1]).unwrap();
    let scale = 1.0f32 / (1.0f32).sqrt();
    let o = v
        .flash_attn(
            &q,
            &k,
            scale.to_bits(),
            &step16,
            &fmul,
            &fmax,
            &fexpsub,
            &fadd,
            &fdiv,
            &fout16,
            &round16,
        )
        .unwrap();
    assert_eq!(o.shape(), vec![2, 1]);
    let got = elems(&o);
    let expect_row = |qv: f32| -> u16 {
        // Scores, stable softmax, weighted fold, exactly as the closures
        // compute them.
        let s0 = scale * hv(h(qv)).mul_add(hv(h(k0)), 0.0);
        let s1 = scale * hv(h(qv)).mul_add(hv(h(k1)), 0.0);
        let m = s0.max(s1).max(f32::NEG_INFINITY);
        let e0 = (s0 - m).exp();
        let e1 = (s1 - m).exp();
        let sum = 0.0 + e0 + e1;
        let w0 = e0 / sum;
        let w1 = e1 / sum;
        let acc = hv(h(v1)).mul_add(w1, hv(h(v0)).mul_add(w0, 0.0));
        h(acc)
    };
    assert_eq!(got[0], expect_row(q0));
    assert_eq!(got[1], expect_row(q1));
}

#[test]
fn flash_attn_rejects_mismatched_shapes() {
    let v = Tensor::new(vec![h(1.0); 2], vec![2, 1]).unwrap();
    let q = Tensor::new(vec![h(1.0); 2], vec![2, 1]).unwrap();
    let k = Tensor::new(vec![h(1.0); 2], vec![2, 1]).unwrap();
    let r = v.flash_attn(
        &q,
        &k,
        1.0f32.to_bits(),
        &step16,
        &fmul,
        &fmax,
        &fexpsub,
        &fadd,
        &fdiv,
        &fout16,
        &round16,
    );
    assert!(matches!(r, Err(nxml::TensorError::ShapeMismatch)));
}

#[test]
fn end_to_end_row_sums() {
    // A 2x3 half-precision source against an all-ones contraction vector:
    // the matmul result is the row sums, exact in half precision.
    let a = Tensor::new(
        vec![h(1.0), h(2.0), h(3.0), h(4.0), h(5.0), h(6.0)],
        vec![2, 3],
    )
    .unwrap();
    let ones = Tensor::new(vec![h(1.0); 3], vec![1, 3]).unwrap();
    let c: Tensor<u16> = a.matmul(&ones, &step16, &round16).unwrap();
    assert_eq!(c.shape(), vec![2, 1]);
    let got = elems(&c);
    assert_eq!(hv(got[0]), 6.0);
    assert_eq!(hv(got[1]), 15.0);
}
