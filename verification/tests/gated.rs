use plausiden_stack::{GatedError, GatedStack, HdcError, Hypervector, Operation, Ratio};

fn hv(seed: u64) -> Hypervector {
    Hypervector::random_seeded(1_000, seed)
}

fn no_spectral(_: &Hypervector, _: &Hypervector) -> Vec<i8> {
    Vec::new()
}

#[test]
fn empty_gated_stack_errors_on_forward() {
    let g = GatedStack::new(1_000);
    assert!(g.is_empty());
    let err = g.gate_and_apply(&hv(1), true, &no_spectral).expect_err("err");
    assert!(matches!(err, GatedError::Empty));
}

#[test]
fn add_operation_rejects_wrong_dim_key() {
    let mut g = GatedStack::new(1_000);
    let wrong = Hypervector::random_seeded(500, 1);
    let err = g.add_operation(Operation::Identity, wrong).expect_err("err");
    assert!(matches!(err, GatedError::Hdc(_)));
}

#[test]
fn raw_gates_returns_one_per_op() {
    let mut g = GatedStack::new(1_000);
    g.add_operation(Operation::Identity, hv(10)).expect("ok");
    g.add_operation(Operation::Identity, hv(11)).expect("ok");
    g.add_operation(Operation::Identity, hv(12)).expect("ok");
    let scores = g.raw_gates(&hv(1)).expect("ok");
    assert_eq!(scores.len(), 3);
    for (i, s) in scores.iter().enumerate() {
        assert_eq!(*s, plausiden_stack::cos_sim(&hv(1), &hv(10 + i as u64)).expect("ok"));
    }
}

// Exact scores and the checks before weighting.

#[test]
fn raw_gates_are_exact_cosines() {
    let v = hv(42);
    let mut g = GatedStack::new(1_000);
    g.add_operation(Operation::Identity, v.clone()).expect("ok");
    let neg = Hypervector::from_bipolar(v.as_slice().iter().map(|&x| -x).collect()).expect("bipolar");
    g.add_operation(Operation::Identity, neg).expect("ok");
    let scores = g.raw_gates(&v).expect("ok");
    assert_eq!(scores, vec![Ratio { num: 1_000, den: 1_000 }, Ratio { num: -1_000, den: 1_000 }]);
    assert_eq!(g.len(), 2);
    assert_eq!(g.dim(), 1_000);
}

#[test]
fn raw_gates_rejects_wrong_dim_input() {
    let g = GatedStack::new(1_000);
    assert_eq!(
        g.raw_gates(&Hypervector::random_seeded(7, 1)),
        Err(GatedError::Hdc(HdcError::DimMismatch { a: 7, b: 1_000 }))
    );
}

#[test]
fn gate_and_apply_checks_in_order() {
    let mut g = GatedStack::new(1_000);
    g.add_operation(Operation::Identity, hv(10)).expect("ok");
    g.add_operation(Operation::Dense { key: hv(11) }, hv(12)).expect("ok");
    // A non-positive temperature is refused before the input is looked at.
    let err = g.gate_and_apply(&Hypervector::random_seeded(3, 1), false, &no_spectral).expect_err("err");
    assert_eq!(err, GatedError::Hdc(HdcError::DimMismatch { a: 0, b: 0 }));
    let err = g.gate_and_apply(&Hypervector::random_seeded(3, 1), true, &no_spectral).expect_err("err");
    assert_eq!(err, GatedError::Hdc(HdcError::DimMismatch { a: 3, b: 1_000 }));
    let v = hv(1);
    let (scores, outs) = g.gate_and_apply(&v, true, &no_spectral).expect("ok");
    assert_eq!(scores.len(), 2);
    assert_eq!(outs.len(), 2);
    assert_eq!(outs[0], v);
    assert_eq!(outs[1], plausiden_stack::bind(&v, &hv(11)).expect("ok"));
}
