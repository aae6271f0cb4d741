//! Soft-gated routing.
//!
//! A gated Stack scores each operation by the cosine similarity between
//! the input and that operation's gate key. The scores are turned into
//! softmax weights, and the operations' outputs are combined by a weighted
//! bundle. The softmax and the weighted sum are floating-point work done by
//! the caller; this module holds the structure, the scores (as exact
//! fractions) and every check and output that the weighting consumes.
use vstd::prelude::*;

use crate::hdc::{cos_sim, dot_spec, HdcError, Hypervector, Ratio};
use crate::op::{answer_ok, op_outcome, op_view, total_binder, Operation, OperationError};
use crate::stack::{
    answers_ok, collect_outcomes, lemma_collect_step, lemma_first_op_err, op_views,
};

verus! {

/// Errors during gated-stack execution.
#[derive(Debug, PartialEq, Eq, Structural)]
pub enum GatedError {
    /// Nested operation failed.
    Op(OperationError),
    /// HDC primitive failure.
    Hdc(HdcError),
    /// `forward` was called on an empty Stack.
    Empty,
    /// The gating keys aren't aligned to the operation list.
    GateMismatch {
        /// Number of gates supplied.
        gates: usize,
        /// Number of operations in the Stack.
        ops: usize,
    },
}

/// The exact cosine similarity of `input` and `key` when both have
/// dimension `dim > 0`.
pub open spec fn gate_score(input: Seq<i8>, key: Seq<i8>) -> Ratio {
    Ratio { num: dot_spec(input, key, input.len() as int) as i128, den: input.len() as usize }
}

/// The scores of `input` against every key in `keys`.
pub open spec fn gate_scores(input: Seq<i8>, keys: Seq<Hypervector>) -> Seq<Ratio> {
    Seq::new(
        keys.len(),
        |k: int|
            if input.len() == 0 {
                Ratio { num: 0, den: 1 }
            } else {
                gate_score(input, keys[k]@)
            },
    )
}

/// What `GatedStack::gate_and_apply` returns, given the spectral binder's
/// answers `ans`: per-operation scores and the operations' outputs, or the
/// first error in the order the forward pass checks them.
pub open spec fn gated_outcome(
    ops: Seq<Operation>,
    dim: nat,
    keys: Seq<Hypervector>,
    input: Seq<i8>,
    temperature_positive: bool,
    ans: Seq<Seq<i8>>,
) -> Result<(Seq<Ratio>, Seq<Seq<i8>>), GatedError> {
    if ops.len() == 0 {
        Err(GatedError::Empty)
    } else if !temperature_positive {
        Err(GatedError::Hdc(HdcError::DimMismatch { a: 0, b: 0 }))
    } else if input.len() != dim {
        Err(GatedError::Hdc(HdcError::DimMismatch { a: input.len() as usize, b: dim as usize }))
    } else {
        match collect_outcomes(op_views(ops), input, ans) {
            Err(e) => Err(GatedError::Op(e)),
            Ok(outs) => Ok((gate_scores(input, keys), outs)),
        }
    }
}

/// `r` is what `GatedStack::gate_and_apply` returns when the spectral
/// binder `f` answers `ans`, and every answer it consulted is one `f` can
/// give.
pub open spec fn gated_result<F: Fn(&Hypervector, &Hypervector) -> Vec<i8>>(
    f: F,
    ops: Seq<Operation>,
    dim: nat,
    keys: Seq<Hypervector>,
    input: Hypervector,
    temperature_positive: bool,
    ans: Seq<Seq<i8>>,
    r: Result<(Seq<Ratio>, Seq<Seq<i8>>), GatedError>,
) -> bool {
    &&& ops.len() > 0 && temperature_positive && input@.len() == dim ==> answers_ok(f, ops, input, ans)
    &&& r == gated_outcome(ops, dim, keys, input@, temperature_positive, ans)
}

/// The view of what `GatedStack::gate_and_apply` returns.
pub open spec fn gated_res_view(r: Result<(Vec<Ratio>, Vec<Hypervector>), GatedError>) -> Result<
    (Seq<Ratio>, Seq<Seq<i8>>),
    GatedError,
> {
    match r {
        Ok((s, o)) => Ok((s@, Seq::new(o@.len(), |k: int| o@[k]@))),
        Err(e) => Err(e),
    }
}

/// A Stack with per-operation soft gates.
#[derive(Debug)]
pub struct GatedStack {
    dim: usize,
    operations: Vec<Operation>,
    gate_keys: Vec<Hypervector>,
}

impl Clone for GatedStack {
    fn clone(&self) -> (r: Self)
        ensures
            r.dim_spec() == self.dim_spec(),
            op_views(r.ops()) == op_views(self.ops()),
            r.keys().len() == self.keys().len(),
            forall|k: int| 0 <= k < self.keys().len() ==> (#[trigger] r.keys()[k])@ == self.keys()[k]@,
    {
        proof {
            use_type_invariant(self);
        }
        let n = self.operations.len();
        let mut ops: Vec<Operation> = Vec::with_capacity(n);
        let mut keys: Vec<Hypervector> = Vec::with_capacity(n);
        let mut i: usize = 0;
        while i < n
            invariant
                n == self.ops().len(),
                n == self.keys().len(),
                forall|k: int| 0 <= k < n ==> (#[trigger] self.keys()[k])@.len() == self.dim,
                i <= n,
                ops@.len() == i,
                keys@.len() == i,
                forall|k: int| 0 <= k < i ==> op_view(#[trigger] ops@[k]) == op_view(self.ops()[k]),
                forall|k: int| 0 <= k < i ==> (#[trigger] keys@[k])@ == self.keys()[k]@,
            decreases n - i,
        {
            ops.push(self.operations[i].clone());
            keys.push(self.gate_keys[i].clone());
            i += 1;
        }
        let r = GatedStack { dim: self.dim, operations: ops, gate_keys: keys };
        assert(op_views(r.ops()) =~= op_views(self.ops()));
        r
    }
}

impl GatedStack {
    #[verifier::type_invariant]
    spec fn aligned(self) -> bool {
        &&& self.operations@.len() == self.gate_keys@.len()
        &&& forall|k: int| 0 <= k < self.gate_keys@.len() ==> (#[trigger] self.gate_keys@[k])@.len() == self.dim
    }

    /// The Stack's dimensionality.
    pub closed spec fn dim_spec(&self) -> nat {
        self.dim as nat
    }

    /// The Stack's operations, in order.
    pub closed spec fn ops(&self) -> Seq<Operation> {
        self.operations@
    }

    /// Each operation's gate key, in order.
    pub closed spec fn keys(&self) -> Seq<Hypervector> {
        self.gate_keys@
    }

    /// Create an empty gated Stack at dimensionality `dim`.
    pub fn new(dim: usize) -> (g: GatedStack)
        ensures
            g.dim_spec() == dim,
            g.ops() == Seq::<Operation>::empty(),
            g.keys() == Seq::<Hypervector>::empty(),
    {
        GatedStack { dim, operations: Vec::new(), gate_keys: Vec::new() }
    }

    /// Append `op` with `gate_key`; a gate key whose dimension is not the
    /// Stack's is refused and the Stack is left unchanged.
    pub fn add_operation(&mut self, op: Operation, gate_key: Hypervector) -> (r: Result<(), GatedError>)
        ensures
            final(self).dim_spec() == old(self).dim_spec(),
            gate_key@.len() != old(self).dim_spec() ==> r == Err::<(), GatedError>(
                GatedError::Hdc(
                    HdcError::DimMismatch { a: gate_key@.len() as usize, b: old(self).dim_spec() as usize },
                ),
            ) && final(self).ops() == old(self).ops() && final(self).keys() == old(self).keys(),
            gate_key@.len() == old(self).dim_spec() ==> r == Ok::<(), GatedError>(()) && final(self).ops()
                == old(self).ops().push(op) && final(self).keys() == old(self).keys().push(gate_key),
    {
        if gate_key.dim() != self.dim {
            return Err(GatedError::Hdc(HdcError::DimMismatch { a: gate_key.dim(), b: self.dim }));
        }
        proof {
            use_type_invariant(&*self);
        }
        let mut taken = GatedStack::new(self.dim);
        std::mem::swap(&mut taken, self);
        proof {
            use_type_invariant(&taken);
        }
        let GatedStack { dim, operations: mut ops, gate_keys: mut keys } = taken;
        ops.push(op);
        keys.push(gate_key);
        *self = GatedStack { dim, operations: ops, gate_keys: keys };
        Ok(())
    }

    /// Stack dimensionality.
    pub fn dim(&self) -> (d: usize)
        ensures
            d == self.dim_spec(),
    {
        self.dim
    }

    /// Number of operations.
    pub fn len(&self) -> (n: usize)
        ensures
            n == self.ops().len(),
    {
        self.operations.len()
    }

    /// True if no operations have been added.
    pub fn is_empty(&self) -> (b: bool)
        ensures
            b == (self.ops().len() == 0),
    {
        self.operations.len() == 0
    }

    /// Read-only access to the operations.
    pub fn operations(&self) -> (s: &[Operation])
        ensures
            s@ == self.ops(),
    {
        self.operations.as_slice()
    }

    /// Read-only access to the per-operation gate keys.
    pub fn gate_keys(&self) -> (s: &[Hypervector])
        ensures
            s@ == self.keys(),
            s@.len() == self.ops().len(),
    {
        proof {
            use_type_invariant(self);
        }
        self.gate_keys.as_slice()
    }

    /// The raw gate scores for `input`, one per operation: the cosine
    /// similarity of `input` with that operation's gate key, as an exact
    /// fraction. Returns `DimMismatch { a: input dim, b: Stack dim }` for an
    /// input of the wrong dimension.
    pub fn raw_gates(&self, input: &Hypervector) -> (r: Result<Vec<Ratio>, GatedError>)
        ensures
            input@.len() != self.dim_spec() ==> r == Err::<Vec<Ratio>, GatedError>(
                GatedError::Hdc(
                    HdcError::DimMismatch { a: input@.len() as usize, b: self.dim_spec() as usize },
                ),
            ),
            input@.len() == self.dim_spec() ==> (r matches Ok(v) && v@ == gate_scores(input@, self.keys())),
    {
        proof {
            use_type_invariant(self);
        }
        if input.dim() != self.dim {
            return Err(GatedError::Hdc(HdcError::DimMismatch { a: input.dim(), b: self.dim }));
        }
        let n = self.gate_keys.len();
        let mut scores: Vec<Ratio> = Vec::with_capacity(n);
        let mut k: usize = 0;
        while k < n
            invariant
                n == self.keys().len(),
                input@.len() == self.dim_spec(),
                forall|j: int| 0 <= j < n ==> (#[trigger] self.keys()[j])@.len() == self.dim_spec(),
                k <= n,
                scores@ =~= gate_scores(input@, self.keys()).take(k as int),
            decreases n - k,
        {
            let s = match cos_sim(input, &self.gate_keys[k]) {
                Ok(s) => s,
                Err(e) => {
                    return Err(GatedError::Hdc(e));
                },
            };
            scores.push(s);
            k += 1;
        }
        assert(gate_scores(input@, self.keys()).take(n as int) =~= gate_scores(input@, self.keys()));
        Ok(scores)
    }

    /// Everything a forward pass needs before the softmax weighting: the
    /// raw gate scores and every operation's output for `input`.
    ///
    /// `temperature_positive` says whether the softmax temperature is
    /// positive. Errors, in the order they are checked: `Empty` for a Stack
    /// without operations; `Hdc(DimMismatch { a: 0, b: 0 })` for a
    /// temperature that is not positive; `Hdc(DimMismatch)` for an input of
    /// the wrong dimension; `Op` for the first operation that fails.
    pub fn gate_and_apply<F: Fn(&Hypervector, &Hypervector) -> Vec<i8>>(
        &self,
        input: &Hypervector,
        temperature_positive: bool,
        spectral: &F,
    ) -> (r: Result<(Vec<Ratio>, Vec<Hypervector>), GatedError>)
        requires
            total_binder(*spectral),
        ensures
            exists|ans: Seq<Seq<i8>>|
                #[trigger] gated_result(
                    *spectral,
                    self.ops(),
                    self.dim_spec(),
                    self.keys(),
                    *input,
                    temperature_positive,
                    ans,
                    gated_res_view(r),
                ),
    {
        let ghost w: Seq<Seq<i8>> = Seq::empty();
        if self.operations.len() == 0 {
            let r = Err(GatedError::Empty);
            assert(gated_result(*spectral, self.ops(), self.dim_spec(), self.keys(), *input, temperature_positive, w, gated_res_view(r)));
            return r;
        }
        if !temperature_positive {
            let r = Err(GatedError::Hdc(HdcError::DimMismatch { a: 0, b: 0 }));
            assert(gated_result(*spectral, self.ops(), self.dim_spec(), self.keys(), *input, temperature_positive, w, gated_res_view(r)));
            return r;
        }
        let scores = match self.raw_gates(input) {
            Ok(s) => s,
            Err(e) => {
                let r = Err(e);
                assert(gated_result(*spectral, self.ops(), self.dim_spec(), self.keys(), *input, temperature_positive, w, gated_res_view(r)));
                return r;
            },
        };
        let ghost ops = op_views(self.ops());
        let n = self.operations.len();
        let mut outs: Vec<Hypervector> = Vec::new();
        let ghost mut ans: Seq<Seq<i8>> = Seq::empty();
        proof {
            assert(ops.take(0) =~= Seq::<crate::op::OpView>::empty());
            assert(Seq::new(0, |k: int| outs@[k]@) =~= Seq::<Seq<i8>>::empty());
        }
        let mut i: usize = 0;
        while i < n
            invariant
                n == self.ops().len(),
                ops == op_views(self.ops()),
                total_binder(*spectral),
                input@.len() == self.dim_spec(),
                temperature_positive,
                scores@ == gate_scores(input@, self.keys()),
                i <= n,
                ans.len() == i,
                outs@.len() == i,
                collect_outcomes(ops.take(i as int), input@, ans) == Ok::<Seq<Seq<i8>>, OperationError>(
                    Seq::new(i as nat, |k: int| outs@[k]@),
                ),
                forall|k: int|
                    0 <= k < i && collect_outcomes(ops.take(k), input@, ans) is Ok ==> answer_ok(
                        *spectral,
                        self.ops()[k],
                        *input,
                        #[trigger] ans[k],
                    ),
            decreases n - i,
        {
            let res = self.operations[i].apply(input, spectral);
            let ghost a = choose|a: Seq<i8>|
                answer_ok(*spectral, self.ops()[i as int], *input, a) && crate::hdc::res_view(res)
                    == op_outcome(op_view(self.ops()[i as int]), input@, a);
            let ghost ans2 = ans.push(a);
            let ghost outv0 = Seq::new(i as nat, |k: int| outs@[k]@);
            proof {
                lemma_collect_step(ops, input@, ans, a, i as int);
            }
            match res {
                Ok(h) => {
                    outs.push(h);
                    proof {
                        assert(Seq::new(i as nat + 1, |k: int| outs@[k]@) =~= outv0.push(h@));
                    }
                },
                Err(e) => {
                    let r = Err(GatedError::Op(e));
                    proof {
                        lemma_first_op_err(*spectral, self.ops(), *input, ans2, i as int, e);
                        assert(gated_result(*spectral, self.ops(), self.dim_spec(), self.keys(), *input, temperature_positive, ans2, gated_res_view(r)));
                    }
                    return r;
                },
            }
            proof {
                ans = ans2;
            }
            i += 1;
        }
        proof {
            assert(ops.take(n as int) =~= ops);
            assert(answers_ok(*spectral, self.ops(), *input, ans));
        }
        let r = Ok((scores, outs));
        assert(gated_result(*spectral, self.ops(), self.dim_spec(), self.keys(), *input, temperature_positive, ans, gated_res_view(r)));
        r
    }
}

} // verus!
