use rand::distributions::Standard;
use rand::Rng;
use rand_chacha::rand_core::SeedableRng;
use plausiden_stack::hdc::DEFAULT_DIM;
use plausiden_stack::{bind, bundle, cos_sim, hamming, permute, unbind, HdcError, Hypervector, Ratio};

fn value(r: Ratio) -> f64 {
    r.num as f64 / r.den as f64
}

#[test]
fn random_seeded_is_deterministic() {
    let a = Hypervector::random_seeded(100, 42);
    let b = Hypervector::random_seeded(100, 42);
    assert_eq!(a, b);
}

#[test]
fn random_seeded_diff_seed_diff_vector() {
    let a = Hypervector::random_seeded(100, 42);
    let b = Hypervector::random_seeded(100, 43);
    assert_ne!(a, b);
}

#[test]
fn from_bipolar_validates() {
    assert!(Hypervector::from_bipolar(vec![1, -1, 1, -1]).is_some());
    assert!(Hypervector::from_bipolar(vec![1, 0, 1]).is_none()); // 0 not bipolar
    assert!(Hypervector::from_bipolar(vec![1, 2, 1]).is_none()); // 2 not bipolar
}

#[test]
fn bind_self_inverse() {
    let a = Hypervector::random_seeded(1000, 1);
    let k = Hypervector::random_seeded(1000, 2);
    let bound = bind(&a, &k).expect("dim match");
    let recovered = unbind(&bound, &k).expect("dim match");
    assert_eq!(a, recovered);
}

#[test]
fn bundle_commutative() {
    let a = Hypervector::random_seeded(1000, 1);
    let b = Hypervector::random_seeded(1000, 2);
    let ab = bundle(&[&a, &b]).expect("ok");
    let ba = bundle(&[&b, &a]).expect("ok");
    assert_eq!(ab, ba);
}

#[test]
fn bundle_similar_to_operands() {
    // Bundle of two random vectors is more similar to each operand than two
    // random vectors are to each other (cos_sim ~ 0.5 vs ~ 0).
    let a = Hypervector::random_seeded(10_000, 1);
    let b = Hypervector::random_seeded(10_000, 2);
    let bundled = bundle(&[&a, &b]).expect("ok");
    let sim_to_a = value(cos_sim(&bundled, &a).expect("ok"));
    let sim_to_b = value(cos_sim(&bundled, &b).expect("ok"));
    let sim_a_b = value(cos_sim(&a, &b).expect("ok"));
    assert!(sim_to_a > 0.3, "bundled <-> a: {sim_to_a}");
    assert!(sim_to_b > 0.3, "bundled <-> b: {sim_to_b}");
    assert!(sim_a_b.abs() < 0.1, "a <-> b: {sim_a_b}");
}

#[test]
fn permute_composes() {
    let v = Hypervector::random_seeded(100, 1);
    let p1 = permute(&v, 3);
    let p2 = permute(&p1, 5);
    let p_combined = permute(&v, 8);
    assert_eq!(p2, p_combined);
}

#[test]
fn permute_full_cycle_identity() {
    let v = Hypervector::random_seeded(100, 1);
    let cycled = permute(&v, 100);
    assert_eq!(v, cycled);
}

#[test]
fn cos_sim_self_is_one() {
    let v = Hypervector::random_seeded(1000, 1);
    let s = value(cos_sim(&v, &v).expect("ok"));
    assert!((s - 1.0).abs() < 1e-10, "cos_sim(v, v) = {s}, expected 1.0");
}

#[test]
fn cos_sim_random_pair_near_zero() {
    // For D=10_000, stddev of cos_sim is ~0.01; bound to 0.05.
    let a = Hypervector::random_seeded(10_000, 1);
    let b = Hypervector::random_seeded(10_000, 2);
    let s = value(cos_sim(&a, &b).expect("ok"));
    assert!(s.abs() < 0.05, "cos_sim of random pair = {s}");
}

#[test]
fn hamming_self_is_zero() {
    let v = Hypervector::random_seeded(1000, 1);
    let h = value(hamming(&v, &v).expect("ok"));
    assert_eq!(h, 0.0);
}

#[test]
fn hamming_random_pair_near_half() {
    let a = Hypervector::random_seeded(10_000, 1);
    let b = Hypervector::random_seeded(10_000, 2);
    let h = value(hamming(&a, &b).expect("ok"));
    assert!((h - 0.5).abs() < 0.05, "hamming of random pair = {h}");
}

#[test]
fn bind_dim_mismatch_errors() {
    let a = Hypervector::random_seeded(100, 1);
    let b = Hypervector::random_seeded(200, 2);
    assert_eq!(bind(&a, &b), Err(HdcError::DimMismatch { a: 100, b: 200 }));
}

#[test]
fn bundle_empty_errors() {
    let empty: &[&Hypervector] = &[];
    assert_eq!(bundle(empty), Err(HdcError::EmptyBundle));
}

// The algebraic laws, over many seeds.

#[test]
fn bind_is_self_inverse() {
    for seed in 0..200u64 {
        let a = Hypervector::random_seeded(500, seed);
        let k = Hypervector::random_seeded(500, seed.wrapping_mul(7919).wrapping_add(1));
        let bound = bind(&a, &k).expect("dim match");
        let recovered = unbind(&bound, &k).expect("dim match");
        assert_eq!(a, recovered);
    }
}

#[test]
fn bundle_commutative_two_ops() {
    for seed in 0..200u64 {
        let a = Hypervector::random_seeded(500, seed);
        let b = Hypervector::random_seeded(500, seed + 1000);
        let ab = bundle(&[&a, &b]).expect("ok");
        let ba = bundle(&[&b, &a]).expect("ok");
        assert_eq!(ab, ba);
    }
}

#[test]
fn permute_composes_for_all_shifts() {
    let v = Hypervector::random_seeded(200, 9);
    for n in (0usize..200).step_by(7) {
        for m in (0usize..200).step_by(11) {
            let stepwise = permute(&permute(&v, n), m);
            let combined = permute(&v, (n + m) % 200);
            assert_eq!(stepwise, combined);
        }
    }
}

#[test]
fn cos_sim_in_range() {
    for seed in 0..200u64 {
        let a = Hypervector::random_seeded(500, seed);
        let b = Hypervector::random_seeded(500, seed + 1000);
        let s = cos_sim(&a, &b).expect("ok");
        assert_eq!(s.den, 500);
        assert!(-500 <= s.num && s.num <= 500, "cos_sim out of range: {:?}", s);
    }
}

#[test]
fn hamming_in_unit_interval() {
    for seed in 0..200u64 {
        let a = Hypervector::random_seeded(500, seed);
        let b = Hypervector::random_seeded(500, seed + 1000);
        let h = hamming(&a, &b).expect("ok");
        assert_eq!(h.den, 500);
        assert!(0 <= h.num && h.num <= 500, "hamming out of range: {:?}", h);
    }
}

#[test]
fn cos_sim_and_hamming_consistent() {
    // For bipolar vectors: cos_sim = 1 - 2 * hamming, exactly.
    for seed in 0..200u64 {
        let a = Hypervector::random_seeded(500, seed);
        let b = Hypervector::random_seeded(500, seed + 1000);
        let s = cos_sim(&a, &b).expect("ok");
        let h = hamming(&a, &b).expect("ok");
        assert_eq!(s.num, 500 - 2 * h.num);
        let expected_s = 1.0 - 2.0 * value(h);
        assert!((value(s) - expected_s).abs() < 1e-9);
    }
}

// Edge cases and exact values.

#[test]
fn bind_exact_values() {
    let a = Hypervector::from_bipolar(vec![1, -1, 1, -1]).expect("bipolar");
    let b = Hypervector::from_bipolar(vec![1, 1, -1, -1]).expect("bipolar");
    let c = bind(&a, &b).expect("ok");
    assert_eq!(c.as_slice(), &[1, -1, -1, 1]);
    assert_eq!(c.dim(), 4);
}

#[test]
fn bundle_majority_and_ties() {
    let a = Hypervector::from_bipolar(vec![1, 1, -1, -1]).expect("bipolar");
    let b = Hypervector::from_bipolar(vec![1, -1, 1, -1]).expect("bipolar");
    let c = Hypervector::from_bipolar(vec![-1, -1, -1, 1]).expect("bipolar");
    // Two operands: ties resolve to +1.
    let ab = bundle(&[&a, &b]).expect("ok");
    assert_eq!(ab.as_slice(), &[1, 1, 1, -1]);
    // Three operands: strict majority.
    let abc = bundle(&[&a, &b, &c]).expect("ok");
    assert_eq!(abc.as_slice(), &[1, -1, -1, -1]);
    // One operand: itself.
    assert_eq!(bundle(&[&c]).expect("ok"), c);
}

#[test]
fn bundle_dim_mismatch_reports_first_offender() {
    let a = Hypervector::random_seeded(10, 1);
    let b = Hypervector::random_seeded(10, 2);
    let c = Hypervector::random_seeded(7, 3);
    let d = Hypervector::random_seeded(5, 4);
    assert_eq!(bundle(&[&a, &b, &c, &d]), Err(HdcError::DimMismatch { a: 10, b: 7 }));
}

#[test]
fn permute_exact_shift() {
    let v = Hypervector::from_bipolar(vec![1, -1, -1, 1, 1]).expect("bipolar");
    // Element i moves to position (i + 2) mod 5.
    let p = permute(&v, 2);
    assert_eq!(p.as_slice(), &[1, 1, 1, -1, -1]);
    assert_eq!(permute(&v, 7), p);
    assert_eq!(permute(&v, 0), v);
    let empty = Hypervector::from_bipolar(vec![]).expect("bipolar");
    assert_eq!(permute(&empty, 3).dim(), 0);
}

#[test]
fn similarity_exact_values() {
    let a = Hypervector::from_bipolar(vec![1, -1, 1, -1]).expect("bipolar");
    let b = Hypervector::from_bipolar(vec![1, 1, 1, -1]).expect("bipolar");
    assert_eq!(cos_sim(&a, &b), Ok(Ratio { num: 2, den: 4 }));
    assert_eq!(hamming(&a, &b), Ok(Ratio { num: 1, den: 4 }));
    let neg = Hypervector::from_bipolar(vec![-1, 1, -1, 1]).expect("bipolar");
    assert_eq!(cos_sim(&a, &neg), Ok(Ratio { num: -4, den: 4 }));
    assert_eq!(hamming(&a, &neg), Ok(Ratio { num: 4, den: 4 }));
}

#[test]
fn similarity_of_empty_vectors_is_zero() {
    let e = Hypervector::from_bipolar(vec![]).expect("bipolar");
    assert_eq!(cos_sim(&e, &e), Ok(Ratio { num: 0, den: 1 }));
    assert_eq!(hamming(&e, &e), Ok(Ratio { num: 0, den: 1 }));
}

#[test]
fn similarity_dim_mismatch_errors() {
    let a = Hypervector::random_seeded(3, 1);
    let b = Hypervector::random_seeded(4, 1);
    assert_eq!(cos_sim(&a, &b), Err(HdcError::DimMismatch { a: 3, b: 4 }));
    assert_eq!(hamming(&a, &b), Err(HdcError::DimMismatch { a: 3, b: 4 }));
}

#[test]
fn random_vectors_are_bipolar_and_mixed() {
    let v = Hypervector::random_seeded(DEFAULT_DIM, 5);
    assert_eq!(v.dim(), DEFAULT_DIM);
    assert!(v.as_slice().iter().all(|&x| x == 1 || x == -1));
    assert!(v.as_slice().iter().any(|&x| x == 1));
    assert!(v.as_slice().iter().any(|&x| x == -1));
}

#[test]
fn clone_keeps_the_vector() {
    let v = Hypervector::random_seeded(64, 5);
    assert_eq!(v.clone(), v);
}

#[test]
fn random_draws_from_the_given_generator() {
    let mut rng = rand_chacha::ChaCha8Rng::seed_from_u64(7);
    let a = Hypervector::random(10, &mut rng);
    let b = Hypervector::random(10, &mut rng);
    assert_eq!(a, Hypervector::random_seeded(10, 7));
    assert_eq!(a.dim(), 10);
    assert_eq!(b.dim(), 10);
    assert_ne!(a, b);
}

#[test]
fn bind_commutes() {
    let a = Hypervector::random_seeded(300, 1);
    let b = Hypervector::random_seeded(300, 2);
    assert_eq!(bind(&a, &b), bind(&b, &a));
}

#[test]
fn similarity_is_symmetric() {
    let a = Hypervector::random_seeded(300, 1);
    let b = Hypervector::random_seeded(300, 2);
    assert_eq!(cos_sim(&a, &b), cos_sim(&b, &a));
    assert_eq!(hamming(&a, &b), hamming(&b, &a));
}

#[test]
fn bundle_order_does_not_matter() {
    let a = Hypervector::random_seeded(300, 1);
    let b = Hypervector::random_seeded(300, 2);
    let c = Hypervector::random_seeded(300, 3);
    let abc = bundle(&[&a, &b, &c]).expect("ok");
    assert_eq!(bundle(&[&c, &a, &b]).expect("ok"), abc);
    assert_eq!(bundle(&[&b, &c, &a]).expect("ok"), abc);
}

#[test]
fn from_draws_maps_true_to_plus_one() {
    let h = Hypervector::from_draws(&[true, false, false, true]);
    assert_eq!(h.as_slice(), &[1, -1, -1, 1]);
    assert_eq!(Hypervector::from_draws(&[]).dim(), 0);
}

#[test]
fn random_seeded_is_the_signs_of_the_seeded_stream() {
    let bits: Vec<bool> = rand_chacha::ChaCha8Rng::seed_from_u64(99).sample_iter(Standard).take(64).collect();
    assert_eq!(Hypervector::random_seeded(64, 99), Hypervector::from_draws(&bits));
    // A shorter vector from the same seed is a prefix of the longer one.
    assert_eq!(Hypervector::random_seeded(10, 99).as_slice(), &Hypervector::random_seeded(64, 99).as_slice()[..10]);
}
