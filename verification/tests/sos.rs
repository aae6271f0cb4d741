use plausiden_stack::{cos_sim, HdcError, Hypervector, Operation, SosError, Stack, StackOfStacks};

fn hv(seed: u64) -> Hypervector {
    Hypervector::random_seeded(1_000, seed)
}

fn identity_stack() -> Stack {
    Stack::new(1_000).with_operation(Operation::Identity)
}

fn no_spectral(_: &Hypervector, _: &Hypervector) -> Vec<i8> {
    Vec::new()
}

#[test]
fn empty_sos_errors_on_forward() {
    let s = StackOfStacks::new(1_000);
    assert!(s.is_empty());
    let err = s.forward(&hv(1), &no_spectral).expect_err("err");
    assert!(matches!(err, SosError::Empty));
}

#[test]
fn attach_rejects_wrong_dim_stack() {
    let mut sos = StackOfStacks::new(1_000);
    let wrong_stack = Stack::new(500).with_operation(Operation::Identity);
    let err = sos.attach(wrong_stack, hv(1)).expect_err("err");
    assert!(matches!(err, SosError::KeyDimMismatch { got: 500, expected: 1_000 }));
}

#[test]
fn attach_rejects_wrong_dim_role_key() {
    let mut sos = StackOfStacks::new(1_000);
    let wrong_key = Hypervector::random_seeded(500, 1);
    let err = sos.attach(identity_stack(), wrong_key).expect_err("err");
    assert!(matches!(err, SosError::KeyDimMismatch { got: 500, expected: 1_000 }));
}

#[test]
fn single_substructure_blackboard_recoverable_via_unbind() {
    let mut sos = StackOfStacks::new(1_000);
    sos.attach(identity_stack(), hv(10)).expect("ok");
    let v = hv(1);
    let blackboard = sos.forward(&v, &no_spectral).expect("ok");
    let recovered = sos.read_role(&blackboard, 0).expect("ok");
    assert_eq!(recovered, v);
}

#[test]
fn three_substructure_contributions_partial_recovery() {
    let mut sos = StackOfStacks::new(10_000);
    for seed in [10u64, 11, 12] {
        sos.attach(
            Stack::new(10_000).with_operation(Operation::Identity),
            Hypervector::random_seeded(10_000, seed),
        )
        .expect("ok");
    }
    let v = Hypervector::random_seeded(10_000, 1);
    let blackboard = sos.forward(&v, &no_spectral).expect("ok");
    let recovered = sos.read_role(&blackboard, 0).expect("ok");
    let r = cos_sim(&recovered, &v).expect("ok");
    let sim = r.num as f64 / r.den as f64;
    assert!(sim > 0.3, "recovery via unbind too weak: {sim}");
}

#[test]
fn len_and_is_empty_track_substructures() {
    let mut sos = StackOfStacks::new(1_000);
    assert!(sos.is_empty());
    assert_eq!(sos.len(), 0);
    sos.attach(identity_stack(), hv(10)).expect("ok");
    assert!(!sos.is_empty());
    assert_eq!(sos.len(), 1);
}

#[test]
fn sos_input_dim_mismatch_errors() {
    let mut sos = StackOfStacks::new(1_000);
    sos.attach(identity_stack(), hv(10)).expect("ok");
    let wrong = Hypervector::random_seeded(500, 1);
    let err = sos.forward(&wrong, &no_spectral).expect_err("err");
    assert!(matches!(err, SosError::KeyDimMismatch { .. }));
}

#[test]
fn read_role_out_of_range_errors() {
    let mut sos = StackOfStacks::new(1_000);
    sos.attach(identity_stack(), hv(10)).expect("ok");
    let blackboard = sos.forward(&hv(1), &no_spectral).expect("ok");
    let err = sos.read_role(&blackboard, 99).expect_err("err");
    assert!(matches!(err, SosError::SubstructureDimMismatch { index: 99, got: 0, expected: 1 }));
}

// Further error variants and exact values.

#[test]
fn failing_substructure_stack_is_reported() {
    let mut sos = StackOfStacks::new(1_000);
    sos.attach(identity_stack(), hv(10)).expect("ok");
    sos.attach(Stack::new(1_000), hv(11)).expect("ok");
    let err = sos.forward(&hv(1), &no_spectral).expect_err("err");
    assert!(matches!(err, SosError::Stack(plausiden_stack::StackError::Empty)));
}

#[test]
fn read_role_with_wrong_dim_blackboard_errors() {
    let mut sos = StackOfStacks::new(1_000);
    sos.attach(identity_stack(), hv(10)).expect("ok");
    let err = sos.read_role(&Hypervector::random_seeded(3, 1), 0).expect_err("err");
    assert!(matches!(err, SosError::Hdc(HdcError::DimMismatch { a: 3, b: 1_000 })));
}

#[test]
fn blackboard_is_bound_contribution_for_one_substructure() {
    let mut sos = StackOfStacks::new(4);
    let key = Hypervector::from_bipolar(vec![1, -1, -1, 1]).expect("bipolar");
    sos.attach(Stack::new(4).with_operation(Operation::Identity), key).expect("ok");
    let v = Hypervector::from_bipolar(vec![1, 1, -1, -1]).expect("bipolar");
    let blackboard = sos.forward(&v, &no_spectral).expect("ok");
    assert_eq!(blackboard.as_slice(), &[1, -1, 1, -1]);
    assert_eq!(sos.substructures().len(), 1);
    assert_eq!(sos.dim(), 4);
}
