//! Stack operations: the primitive units a Stack composes.
//!
//! HRR binding is circular convolution computed in the frequency domain.
//! The transform works in floating point, which this library does not
//! hold; its caller hands it in as a *spectral binder*: a function that,
//! given two operands of equal dimension, returns the signs (`+1` for a
//! non-negative component, `-1` otherwise) of their circular convolution.
//! Everything around that computation is verified here.
use vstd::prelude::*;

use crate::hdc::{bind, bind_outcome, is_bipolar, res_view, HdcError, Hypervector};

verus! {

/// Errors during operation execution.
#[derive(Debug, PartialEq, Eq, Structural)]
pub enum OperationError {
    /// HDC primitive error (dim mismatch).
    Hdc(HdcError),
}

/// One operation mode within a Stack.
#[derive(Debug)]
#[non_exhaustive]
pub enum Operation {
    /// Pass-through. Returns the input unchanged.
    Identity,
    /// HDC dense binding: `bind(input, key)`.
    Dense {
        /// The key hypervector that input is bound against.
        key: Hypervector,
    },
    /// HRR / FFT binding via circular convolution.
    HrrBind {
        /// The key hypervector that input is convolved with.
        key: Hypervector,
    },
}

impl Clone for Operation {
    fn clone(&self) -> (r: Self)
        ensures
            op_view(r) == op_view(*self),
    {
        match self {
            Operation::Identity => Operation::Identity,
            Operation::Dense { key } => Operation::Dense { key: key.clone() },
            Operation::HrrBind { key } => Operation::HrrBind { key: key.clone() },
        }
    }
}

/// The mathematical content of an operation: its kind and key.
pub enum OpView {
    /// See [`Operation::Identity`].
    Identity,
    /// See [`Operation::Dense`].
    Dense(Seq<i8>),
    /// See [`Operation::HrrBind`].
    HrrBind(Seq<i8>),
}

/// The view of an operation.
pub open spec fn op_view(op: Operation) -> OpView {
    match op {
        Operation::Identity => OpView::Identity,
        Operation::Dense { key } => OpView::Dense(key@),
        Operation::HrrBind { key } => OpView::HrrBind(key@),
    }
}

/// The tag of an operation, as characters.
pub open spec fn tag_view(op: OpView) -> Seq<char> {
    match op {
        OpView::Identity => "identity"@,
        OpView::Dense(_) => "dense"@,
        OpView::HrrBind(_) => "hrr_bind"@,
    }
}

/// Applying `op` to `input` consults the spectral binder: `op` is HRR
/// binding and the dimensions agree.
pub open spec fn needs_spectral(op: OpView, input: Seq<i8>) -> bool {
    op matches OpView::HrrBind(key) && key.len() == input.len()
}

/// `ans` is a value that the spectral binder `f` can return for the
/// operands `(a, b)`.
pub open spec fn spectral_gives<F: Fn(&Hypervector, &Hypervector) -> Vec<i8>>(
    f: F,
    a: Hypervector,
    b: Hypervector,
    ans: Seq<i8>,
) -> bool {
    exists|v: Vec<i8>| #[trigger] call_ensures(f, (&a, &b), v) && v@ == ans
}

/// What HRR binding returns when the spectral binder answers `ans`.
pub open spec fn hrr_outcome(a: Seq<i8>, b: Seq<i8>, ans: Seq<i8>) -> Result<Seq<i8>, OperationError> {
    if a.len() != b.len() {
        Err(OperationError::Hdc(HdcError::DimMismatch { a: a.len() as usize, b: b.len() as usize }))
    } else if is_bipolar(ans) {
        Ok(ans)
    } else {
        Err(OperationError::Hdc(HdcError::DimMismatch { a: a.len() as usize, b: a.len() as usize }))
    }
}

/// What applying `op` to `input` returns, where `ans` is the spectral
/// binder's answer when `needs_spectral(op, input)`.
pub open spec fn op_outcome(op: OpView, input: Seq<i8>, ans: Seq<i8>) -> Result<Seq<i8>, OperationError> {
    match op {
        OpView::Identity => Ok(input),
        OpView::Dense(key) => match bind_outcome(input, key) {
            Ok(s) => Ok(s),
            Err(e) => Err(OperationError::Hdc(e)),
        },
        OpView::HrrBind(key) => hrr_outcome(input, key, ans),
    }
}

/// Whatever the spectral binder `f` answers for `(input, key)` when `op`
/// consults it.
pub open spec fn answer_ok<F: Fn(&Hypervector, &Hypervector) -> Vec<i8>>(
    f: F,
    op: Operation,
    input: Hypervector,
    ans: Seq<i8>,
) -> bool {
    needs_spectral(op_view(op), input@) ==> spectral_gives(f, input, op->HrrBind_key, ans)
}

/// The spectral binder accepts every pair of operands.
pub open spec fn total_binder<F: Fn(&Hypervector, &Hypervector) -> Vec<i8>>(f: F) -> bool {
    forall|a: &Hypervector, b: &Hypervector| #[trigger] call_requires(f, (a, b))
}

/// HRR binding via circular convolution: the dimensions are checked, the
/// spectral binder computes the signs of the convolution, and the result
/// is checked to be bipolar.
fn hrr_bind<F: Fn(&Hypervector, &Hypervector) -> Vec<i8>>(
    a: &Hypervector,
    b: &Hypervector,
    spectral: &F,
) -> (r: Result<Hypervector, OperationError>)
    requires
        total_binder(*spectral),
    ensures
        exists|ans: Seq<i8>|
            (a@.len() == b@.len() ==> spectral_gives(*spectral, *a, *b, ans)) && res_view(r)
                == hrr_outcome(a@, b@, ans),
{
    if a.dim() != b.dim() {
        let r = Err(OperationError::Hdc(HdcError::DimMismatch { a: a.dim(), b: b.dim() }));
        assert(res_view(r) == hrr_outcome(a@, b@, Seq::empty()));
        return r;
    }
    let dim = a.dim();
    let data = spectral(a, b);
    let ghost ans = data@;
    assert(spectral_gives(*spectral, *a, *b, ans));
    match Hypervector::from_bipolar(data) {
        Some(h) => Ok(h),
        None => Err(OperationError::Hdc(HdcError::DimMismatch { a: dim, b: dim })),
    }
}

impl Operation {
    /// Apply the operation to the given input hypervector; `spectral` is
    /// consulted for HRR binding only.
    pub fn apply<F: Fn(&Hypervector, &Hypervector) -> Vec<i8>>(
        &self,
        input: &Hypervector,
        spectral: &F,
    ) -> (r: Result<Hypervector, OperationError>)
        requires
            total_binder(*spectral),
        ensures
            exists|ans: Seq<i8>|
                answer_ok(*spectral, *self, *input, ans) && res_view(r) == op_outcome(
                    op_view(*self),
                    input@,
                    ans,
                ),
    {
        match self {
            Operation::Identity => {
                let r = Ok(input.clone());
                assert(answer_ok(*spectral, *self, *input, Seq::empty()));
                assert(res_view(r) == op_outcome(op_view(*self), input@, Seq::empty()));
                r
            },
            Operation::Dense { key } => {
                let r = match bind(input, key) {
                    Ok(h) => Ok(h),
                    Err(e) => Err(OperationError::Hdc(e)),
                };
                assert(answer_ok(*spectral, *self, *input, Seq::empty()));
                assert(res_view(r) == op_outcome(op_view(*self), input@, Seq::empty()));
                r
            },
            Operation::HrrBind { key } => {
                let r = hrr_bind(input, key, spectral);
                proof {
                    let ans = choose|ans: Seq<i8>|
                        (input@.len() == key@.len() ==> spectral_gives(*spectral, *input, *key, ans))
                            && res_view(r) == hrr_outcome(input@, key@, ans);
                    assert(answer_ok(*spectral, *self, *input, ans));
                    assert(res_view(r) == op_outcome(op_view(*self), input@, ans));
                }
                r
            },
        }
    }

    /// A short tag for tracing / logging.
    pub fn tag(&self) -> (t: &'static str)
        ensures
            t@ == tag_view(op_view(*self)),
    {
        match self {
            Operation::Identity => "identity",
            Operation::Dense { .. } => "dense",
            Operation::HrrBind { .. } => "hrr_bind",
        }
    }
}

} // verus!
