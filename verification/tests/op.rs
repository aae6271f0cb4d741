use plausiden_stack::{cos_sim, Hypervector, Operation, OperationError};
use rustfft::num_complex::Complex;
use rustfft::FftPlanner;

fn hv(seed: u64) -> Hypervector {
    Hypervector::random_seeded(1_000, seed)
}

/// Signs of the circular convolution of `a` and `b`, computed by FFT.
fn fft_spectral(a: &Hypervector, b: &Hypervector) -> Vec<i8> {
    let dim = a.dim();
    let mut a_c: Vec<Complex<f64>> = a.as_slice().iter().map(|&x| Complex::new(f64::from(x), 0.0)).collect();
    let mut b_c: Vec<Complex<f64>> = b.as_slice().iter().map(|&x| Complex::new(f64::from(x), 0.0)).collect();
    let mut planner = FftPlanner::<f64>::new();
    let fft = planner.plan_fft_forward(dim);
    let ifft = planner.plan_fft_inverse(dim);
    fft.process(&mut a_c);
    fft.process(&mut b_c);
    let mut prod: Vec<Complex<f64>> = a_c.iter().zip(&b_c).map(|(x, y)| x * y).collect();
    ifft.process(&mut prod);
    prod.iter().map(|c| if c.re >= 0.0 { 1i8 } else { -1 }).collect()
}

fn value(r: plausiden_stack::Ratio) -> f64 {
    r.num as f64 / r.den as f64
}

#[test]
fn identity_returns_input_unchanged() {
    let v = hv(1);
    assert_eq!(Operation::Identity.apply(&v, &fft_spectral).expect("ok"), v);
}

#[test]
fn dense_self_inverse_via_double_bind() {
    let v = hv(1);
    let k = hv(2);
    let op = Operation::Dense { key: k };
    let once = op.apply(&v, &fft_spectral).expect("ok");
    let twice = op.apply(&once, &fft_spectral).expect("ok");
    assert_eq!(v, twice);
}

#[test]
fn dense_binds_decorrelates() {
    let v = hv(1);
    let k = hv(2);
    let out = Operation::Dense { key: k }.apply(&v, &fft_spectral).expect("ok");
    let s = value(cos_sim(&out, &v).expect("ok"));
    assert!(s.abs() < 0.1, "decorrelation expected, got cos_sim={s}");
}

#[test]
fn hrr_bind_returns_correct_dim() {
    let v = Hypervector::random_seeded(1_024, 1);
    let k = Hypervector::random_seeded(1_024, 2);
    let out = Operation::HrrBind { key: k }.apply(&v, &fft_spectral).expect("ok");
    assert_eq!(out.dim(), 1_024);
}

#[test]
fn dim_mismatch_in_dense_errors() {
    let v = Hypervector::random_seeded(100, 1);
    let k = Hypervector::random_seeded(200, 2);
    let err = Operation::Dense { key: k }.apply(&v, &fft_spectral).expect_err("should err");
    assert!(matches!(err, OperationError::Hdc(_)));
}

#[test]
fn tag_is_stable() {
    assert_eq!(Operation::Identity.tag(), "identity");
    assert_eq!(Operation::Dense { key: hv(1) }.tag(), "dense");
    assert_eq!(Operation::HrrBind { key: hv(1) }.tag(), "hrr_bind");
}

// HRR binding around the spectral binder.

#[test]
fn hrr_bind_dim_mismatch_errors_without_consulting_binder() {
    let v = Hypervector::random_seeded(8, 1);
    let k = Hypervector::random_seeded(9, 2);
    let err = Operation::HrrBind { key: k }
        .apply(&v, &|_: &Hypervector, _: &Hypervector| -> Vec<i8> { panic!("binder consulted") })
        .expect_err("should err");
    assert_eq!(err, OperationError::Hdc(plausiden_stack::HdcError::DimMismatch { a: 8, b: 9 }));
}

#[test]
fn hrr_bind_returns_binder_signs() {
    let v = Hypervector::random_seeded(4, 1);
    let k = Hypervector::random_seeded(4, 2);
    let out = Operation::HrrBind { key: k }
        .apply(&v, &|_: &Hypervector, _: &Hypervector| vec![1i8, -1, -1, 1])
        .expect("ok");
    assert_eq!(out.as_slice(), &[1, -1, -1, 1]);
}

#[test]
fn hrr_bind_rejects_non_bipolar_binder_output() {
    let v = Hypervector::random_seeded(3, 1);
    let k = Hypervector::random_seeded(3, 2);
    let err = Operation::HrrBind { key: k }
        .apply(&v, &|_: &Hypervector, _: &Hypervector| vec![1i8, 0, -1])
        .expect_err("should err");
    assert_eq!(err, OperationError::Hdc(plausiden_stack::HdcError::DimMismatch { a: 3, b: 3 }));
}

#[test]
fn hrr_bind_matches_direct_convolution_on_small_odd_dims() {
    // For odd D every convolution sum of +-1 terms is odd, so its sign is
    // never ambiguous and the FFT binder must agree with the direct sum.
    let v = Hypervector::random_seeded(9, 11);
    let k = Hypervector::random_seeded(9, 12);
    let out = Operation::HrrBind { key: k.clone() }.apply(&v, &fft_spectral).expect("ok");
    let a = v.as_slice();
    let b = k.as_slice();
    for n in 0..9usize {
        let s: i32 = (0..9usize).map(|j| i32::from(a[j]) * i32::from(b[(n + 9 - j) % 9])).sum();
        assert_eq!(out.as_slice()[n], if s >= 0 { 1 } else { -1 });
    }
}
