use plausiden_stack::{banner, cos_sim, Hypervector, Operation, OperationError, Stack, StackError};

fn hv(seed: u64) -> Hypervector {
    Hypervector::random_seeded(1_000, seed)
}

fn no_spectral(_: &Hypervector, _: &Hypervector) -> Vec<i8> {
    Vec::new()
}

#[test]
fn banner_mentions_version() {
    assert!(banner().contains("0.1.0"));
}

#[test]
fn empty_stack_errors() {
    let s = Stack::new(1_000);
    assert!(s.is_empty());
    assert!(matches!(s.forward(&hv(1), &no_spectral).expect_err("err"), StackError::Empty));
}

#[test]
fn identity_stack_is_identity() {
    let s = Stack::new(1_000).with_operation(Operation::Identity);
    let v = hv(1);
    assert_eq!(s.forward(&v, &no_spectral).expect("ok"), v);
}

#[test]
fn two_identity_ops_bundle_back_to_input() {
    let s = Stack::new(1_000).with_operation(Operation::Identity).with_operation(Operation::Identity);
    let v = hv(1);
    assert_eq!(s.forward(&v, &no_spectral).expect("ok"), v);
}

#[test]
fn dense_plus_identity_partial_recovery() {
    let v = hv(1);
    let k = hv(2);
    let s = Stack::new(1_000).with_operation(Operation::Dense { key: k }).with_operation(Operation::Identity);
    let out = s.forward(&v, &no_spectral).expect("ok");
    let r = cos_sim(&out, &v).expect("ok");
    let sim = r.num as f64 / r.den as f64;
    assert!(sim > 0.3, "identity contribution should remain: {sim}");
    assert!(sim < 0.95, "should be diluted by dense binding: {sim}");
}

#[test]
fn stack_input_dim_mismatch_errors() {
    let s = Stack::new(1_000).with_operation(Operation::Identity);
    let wrong = Hypervector::random_seeded(500, 1);
    let err = s.forward(&wrong, &no_spectral).expect_err("err");
    assert!(matches!(err, StackError::DimMismatch { .. }));
}

#[test]
fn len_and_is_empty_track_operations() {
    let mut s = Stack::new(1_000);
    assert!(s.is_empty());
    assert_eq!(s.len(), 0);
    s.add_operation(Operation::Identity);
    assert!(!s.is_empty());
    assert_eq!(s.len(), 1);
}

// Error variants and mutation primitives.

#[test]
fn input_dim_mismatch_is_tagged_stack_input() {
    let s = Stack::new(8).with_operation(Operation::Identity);
    match s.forward(&Hypervector::random_seeded(5, 1), &no_spectral) {
        Err(StackError::DimMismatch { op, got, expected }) => {
            assert_eq!(op, "stack.input");
            assert_eq!(got, 5);
            assert_eq!(expected, 8);
        },
        other => panic!("unexpected {:?}", other),
    }
}

#[test]
fn failing_operation_is_reported() {
    let s = Stack::new(8).with_operation(Operation::Identity).with_operation(Operation::Dense {
        key: Hypervector::random_seeded(4, 2),
    });
    let err = s.forward(&Hypervector::random_seeded(8, 1), &no_spectral).expect_err("err");
    assert!(matches!(
        err,
        StackError::Op(OperationError::Hdc(plausiden_stack::HdcError::DimMismatch { a: 8, b: 4 }))
    ));
}

#[test]
fn operation_output_of_wrong_dim_is_tagged() {
    // A spectral binder that answers with the wrong length is caught by
    // the Stack's output check.
    let s = Stack::new(4).with_operation(Operation::Identity).with_operation(Operation::HrrBind {
        key: Hypervector::random_seeded(4, 2),
    });
    let short = |_: &Hypervector, _: &Hypervector| vec![1i8, -1];
    match s.forward(&Hypervector::random_seeded(4, 1), &short) {
        Err(StackError::DimMismatch { op, got, expected }) => {
            assert_eq!(op, "hrr_bind");
            assert_eq!(got, 2);
            assert_eq!(expected, 4);
        },
        other => panic!("unexpected {:?}", other),
    }
}

#[test]
fn forward_bundles_operation_outputs() {
    let v = Hypervector::from_bipolar(vec![1, -1, 1, -1]).expect("bipolar");
    let k = Hypervector::from_bipolar(vec![-1, -1, 1, 1]).expect("bipolar");
    // Outputs: v, bind(v, k) = [-1, 1, 1, -1], hrr answer [-1, -1, -1, 1].
    let s = Stack::new(4)
        .with_operation(Operation::Identity)
        .with_operation(Operation::Dense { key: k.clone() })
        .with_operation(Operation::HrrBind { key: k });
    let binder = |_: &Hypervector, _: &Hypervector| vec![-1i8, -1, -1, 1];
    let out = s.forward(&v, &binder).expect("ok");
    assert_eq!(out.as_slice(), &[-1, -1, 1, -1]);
}

#[test]
fn insert_remove_replace_operations() {
    let mut s = Stack::new(4).with_operation(Operation::Identity);
    s.insert_operation(0, Operation::Dense { key: Hypervector::random_seeded(4, 1) });
    assert_eq!(s.operations()[0].tag(), "dense");
    assert_eq!(s.operations()[1].tag(), "identity");
    let prev = s.replace_operation(1, Operation::HrrBind { key: Hypervector::random_seeded(4, 2) });
    assert_eq!(prev.tag(), "identity");
    assert_eq!(s.operations()[1].tag(), "hrr_bind");
    let removed = s.remove_operation(0);
    assert_eq!(removed.tag(), "dense");
    assert_eq!(s.len(), 1);
    assert_eq!(s.dim(), 4);
}

#[test]
fn remove_flagged_removes_back_to_front() {
    let mut s = Stack::new(4)
        .with_operation(Operation::Identity)
        .with_operation(Operation::Dense { key: Hypervector::random_seeded(4, 1) })
        .with_operation(Operation::Identity)
        .with_operation(Operation::HrrBind { key: Hypervector::random_seeded(4, 2) });
    // Flags past the end of the shorter of the two are ignored.
    let removed = s.remove_flagged(&[true, false, true]);
    assert_eq!(removed, vec![2, 0]);
    assert_eq!(s.len(), 2);
    assert_eq!(s.operations()[0].tag(), "dense");
    assert_eq!(s.operations()[1].tag(), "hrr_bind");
    let removed = s.remove_flagged(&[false, true, true, true]);
    assert_eq!(removed, vec![1]);
    assert_eq!(s.len(), 1);
}

#[test]
fn remove_flagged_on_plain_vectors() {
    let mut v = vec![10, 20, 30, 40, 50];
    let removed = plausiden_stack::stack::remove_flagged(&mut v, &[false, true, false, true]);
    assert_eq!(removed, vec![3, 1]);
    assert_eq!(v, vec![10, 30, 50]);
}

#[test]
fn banner_text() {
    assert_eq!(
        banner(),
        "plausiden-stack v0.1.0 (Phase 1 \u{2014} Stack + Operation enum; Phase 2+ adds gating + recursion)"
    );
}
