//! Stack-of-Stacks: level-1 recursion through a shared blackboard
//! hypervector.
//!
//! Every substructure produces a contribution from the shared input; the
//! blackboard is the bundle of `bind(role_key, contribution)` across
//! substructures, and a reader extracts one contribution by unbinding with
//! its role key.
use vstd::prelude::*;

use crate::hdc::{
    bind, bind_outcome, bundle, bundle_outcome, res_view, unbind, views, HdcError, Hypervector,
};
use crate::op::total_binder;
use crate::stack::{
    bundle_fits, forward_result, op_views, stack_err_view, Stack, StackError, StackErrorView,
};

verus! {

/// Errors during Stack-of-Stacks execution.
#[derive(Debug)]
pub enum SosError {
    /// A nested Stack execution failed.
    Stack(StackError),
    /// HDC primitive failure.
    Hdc(HdcError),
    /// `forward` was called on an empty StackOfStacks.
    Empty,
    /// A dimension (of a Stack, a role key or an input) doesn't match the
    /// blackboard dim.
    KeyDimMismatch {
        /// The offending dim.
        got: usize,
        /// Expected dim.
        expected: usize,
    },
    /// Substructure produced output of wrong dim, or does not exist.
    SubstructureDimMismatch {
        /// Index of the substructure.
        index: usize,
        /// Actual output dim.
        got: usize,
        /// Expected dim.
        expected: usize,
    },
}

/// The mathematical content of a [`SosError`].
pub enum SosErrorView {
    /// See [`SosError::Stack`].
    Stack(StackErrorView),
    /// See [`SosError::Hdc`].
    Hdc(HdcError),
    /// See [`SosError::Empty`].
    Empty,
    /// See [`SosError::KeyDimMismatch`].
    KeyDimMismatch { got: usize, expected: usize },
    /// See [`SosError::SubstructureDimMismatch`].
    SubstructureDimMismatch { index: usize, got: usize, expected: usize },
}

/// The view of a Stack-of-Stacks error.
pub open spec fn sos_err_view(e: SosError) -> SosErrorView {
    match e {
        SosError::Stack(s) => SosErrorView::Stack(stack_err_view(s)),
        SosError::Hdc(h) => SosErrorView::Hdc(h),
        SosError::Empty => SosErrorView::Empty,
        SosError::KeyDimMismatch { got, expected } => SosErrorView::KeyDimMismatch { got, expected },
        SosError::SubstructureDimMismatch { index, got, expected } => SosErrorView::SubstructureDimMismatch {
            index,
            got,
            expected,
        },
    }
}

/// The view of a fallible Stack-of-Stacks result.
pub open spec fn sos_res_view(r: Result<Hypervector, SosError>) -> Result<Seq<i8>, SosErrorView> {
    match r {
        Ok(h) => Ok(h@),
        Err(e) => Err(sos_err_view(e)),
    }
}

/// One substructure attached to a Stack-of-Stacks: a Stack and its role key.
#[derive(Debug)]
pub struct Substructure {
    /// The nested Stack.
    pub stack: Stack,
    /// The role key this substructure binds its output to before
    /// contributing to the blackboard.
    pub role_key: Hypervector,
}

/// Extends the role-bound contributions `bs` of the first `i`
/// substructures with that of `sub`, the `i`-th, whose Stack returned `rv`.
pub open spec fn contribution_step(sub: Substructure, i: int, dim: nat, rv: Result<Seq<i8>, StackErrorView>, bs: Seq<Seq<i8>>) -> Result<
    Seq<Seq<i8>>,
    SosErrorView,
> {
    match rv {
        Err(e) => Err(SosErrorView::Stack(e)),
        Ok(c) => if c.len() != dim {
            Err(
                SosErrorView::SubstructureDimMismatch {
                    index: i as usize,
                    got: c.len() as usize,
                    expected: dim as usize,
                },
            )
        } else {
            match bind_outcome(sub.role_key@, c) {
                Err(e) => Err(SosErrorView::Hdc(e)),
                Ok(b) => Ok(bs.push(b)),
            }
        },
    }
}

/// The role-bound contributions of `subs` in order, given `results[i]`, the
/// result of running substructure `i`'s Stack; stops at the first error.
pub open spec fn bound_contributions(subs: Seq<Substructure>, dim: nat, results: Seq<Result<Seq<i8>, StackErrorView>>) -> Result<
    Seq<Seq<i8>>,
    SosErrorView,
>
    decreases subs.len(),
{
    if subs.len() == 0 {
        Ok(Seq::empty())
    } else {
        let i = subs.len() - 1;
        match bound_contributions(subs.drop_last(), dim, results) {
            Err(e) => Err(e),
            Ok(bs) => contribution_step(subs[i], i, dim, results[i], bs),
        }
    }
}

/// What `StackOfStacks::forward` returns, given `results[i]`, the result of
/// running substructure `i`'s Stack on the input.
pub open spec fn sos_outcome(subs: Seq<Substructure>, dim: nat, input: Seq<i8>, results: Seq<Result<Seq<i8>, StackErrorView>>) -> Result<
    Seq<i8>,
    SosErrorView,
> {
    if subs.len() == 0 {
        Err(SosErrorView::Empty)
    } else if input.len() != dim {
        Err(SosErrorView::KeyDimMismatch { got: input.len() as usize, expected: dim as usize })
    } else {
        match bound_contributions(subs, dim, results) {
            Err(e) => Err(e),
            Ok(bs) => match bundle_outcome(bs) {
                Ok(s) => Ok(s),
                Err(e) => Err(SosErrorView::Hdc(e)),
            },
        }
    }
}

/// Every Stack result in `results` that the forward pass used is one its
/// Stack can return for `input` with the spectral binder `f`.
pub open spec fn results_ok<F: Fn(&Hypervector, &Hypervector) -> Vec<i8>>(
    f: F,
    subs: Seq<Substructure>,
    dim: nat,
    input: Hypervector,
    results: Seq<Result<Seq<i8>, StackErrorView>>,
) -> bool {
    forall|i: int|
        0 <= i < subs.len() && bound_contributions(subs.take(i), dim, results) is Ok ==> exists|
            ans: Seq<Seq<i8>>,
        |
            #[trigger] forward_result(
                f,
                subs[i].stack.ops(),
                subs[i].stack.dim_spec(),
                input,
                ans,
                results[i],
            )
}

/// `r` is what `StackOfStacks::forward` returns when the substructures'
/// Stacks return `results`, each of which they can return.
pub open spec fn sos_result<F: Fn(&Hypervector, &Hypervector) -> Vec<i8>>(
    f: F,
    subs: Seq<Substructure>,
    dim: nat,
    input: Hypervector,
    results: Seq<Result<Seq<i8>, StackErrorView>>,
    r: Result<Seq<i8>, SosErrorView>,
) -> bool {
    &&& subs.len() > 0 && input@.len() == dim ==> results_ok(f, subs, dim, input, results)
    &&& r == sos_outcome(subs, dim, input@, results)
}

/// With the substructures' Stack results `results`, the forward pass gets
/// as far as bundling: there is a substructure, the input has the
/// blackboard's dimension, and every contribution was bound.
pub open spec fn sos_reaches_bundle(
    subs: Seq<Substructure>,
    dim: nat,
    input: Seq<i8>,
    results: Seq<Result<Seq<i8>, StackErrorView>>,
) -> bool {
    &&& subs.len() > 0
    &&& input.len() == dim
    &&& bound_contributions(subs, dim, results) is Ok
}

/// Once a prefix of the substructures fails, any longer prefix fails with
/// the same error.
pub proof fn lemma_contributions_err_persists(
    subs: Seq<Substructure>,
    dim: nat,
    results: Seq<Result<Seq<i8>, StackErrorView>>,
    i: int,
    j: int,
)
    requires
        0 <= i <= j <= subs.len(),
        bound_contributions(subs.take(i), dim, results) is Err,
    ensures
        bound_contributions(subs.take(j), dim, results) == bound_contributions(subs.take(i), dim, results),
    decreases j - i,
{
    if j > i {
        lemma_contributions_err_persists(subs, dim, results, i, j - 1);
        assert(subs.take(j).drop_last() =~= subs.take(j - 1));
    }
}

/// The contributions of a prefix only depend on that prefix's results.
pub proof fn lemma_contributions_prefix(
    subs: Seq<Substructure>,
    dim: nat,
    r1: Seq<Result<Seq<i8>, StackErrorView>>,
    r2: Seq<Result<Seq<i8>, StackErrorView>>,
)
    requires
        forall|k: int| 0 <= k < subs.len() ==> r1[k] == r2[k],
    ensures
        bound_contributions(subs, dim, r1) == bound_contributions(subs, dim, r2),
    decreases subs.len(),
{
    if subs.len() > 0 {
        lemma_contributions_prefix(subs.drop_last(), dim, r1, r2);
    }
}

/// Running one more substructure extends the contributions, or fails.
pub proof fn lemma_contributions_step(
    subs: Seq<Substructure>,
    dim: nat,
    results: Seq<Result<Seq<i8>, StackErrorView>>,
    rv: Result<Seq<i8>, StackErrorView>,
    i: int,
)
    requires
        0 <= i < subs.len(),
        results.len() == i,
    ensures
        bound_contributions(subs.take(i + 1), dim, results.push(rv)) == match bound_contributions(
            subs.take(i),
            dim,
            results,
        ) {
            Err(e) => Err(e),
            Ok(bs) => contribution_step(subs[i], i, dim, rv, bs),
        },
        forall|k: int|
            0 <= k <= i ==> #[trigger] bound_contributions(subs.take(k), dim, results.push(rv))
                == bound_contributions(subs.take(k), dim, results),
{
    assert(subs.take(i + 1).drop_last() =~= subs.take(i));
    assert(subs.take(i + 1)[i] == subs[i]);
    lemma_contributions_prefix(subs.take(i), dim, results, results.push(rv));
    assert forall|k: int| 0 <= k <= i implies #[trigger] bound_contributions(subs.take(k), dim, results.push(rv))
        == bound_contributions(subs.take(k), dim, results) by {
        lemma_contributions_prefix(subs.take(k), dim, results, results.push(rv));
    }
}

/// When substructure `i` is the first to fail, the forward pass fails with
/// its error.
proof fn lemma_sos_err<F: Fn(&Hypervector, &Hypervector) -> Vec<i8>>(
    f: F,
    subs: Seq<Substructure>,
    dim: nat,
    input: Hypervector,
    results: Seq<Result<Seq<i8>, StackErrorView>>,
    i: int,
    e: SosErrorView,
)
    requires
        0 <= i < subs.len(),
        input@.len() == dim,
        bound_contributions(subs.take(i + 1), dim, results) == Err::<Seq<Seq<i8>>, SosErrorView>(e),
        forall|k: int|
            0 <= k <= i && bound_contributions(subs.take(k), dim, results) is Ok ==> exists|
                ans: Seq<Seq<i8>>,
            |
                #[trigger] forward_result(
                    f,
                    subs[k].stack.ops(),
                    subs[k].stack.dim_spec(),
                    input,
                    ans,
                    results[k],
                ),
    ensures
        sos_result(f, subs, dim, input, results, Err(e)),
{
    lemma_contributions_err_persists(subs, dim, results, i + 1, subs.len() as int);
    assert(subs.take(subs.len() as int) =~= subs);
    assert forall|k: int|
        0 <= k < subs.len() && bound_contributions(subs.take(k), dim, results) is Ok implies exists|
            ans: Seq<Seq<i8>>,
        |
            #[trigger] forward_result(
                f,
                subs[k].stack.ops(),
                subs[k].stack.dim_spec(),
                input,
                ans,
                results[k],
            ) by {
        if k > i {
            lemma_contributions_err_persists(subs, dim, results, i + 1, k);
        }
    }
}

/// Level-1 Stack composition: N substructures sharing a blackboard
/// hypervector.
#[derive(Debug)]
pub struct StackOfStacks {
    dim: usize,
    substructures: Vec<Substructure>,
}

impl Clone for Substructure {
    fn clone(&self) -> (r: Self)
        ensures
            r.stack.dim_spec() == self.stack.dim_spec(),
            op_views(r.stack.ops()) == op_views(self.stack.ops()),
            r.role_key@ == self.role_key@,
    {
        Substructure { stack: self.stack.clone(), role_key: self.role_key.clone() }
    }
}

impl Clone for StackOfStacks {
    fn clone(&self) -> (r: Self)
        ensures
            r.dim_spec() == self.dim_spec(),
            r.subs().len() == self.subs().len(),
            forall|k: int|
                0 <= k < self.subs().len() ==> (#[trigger] r.subs()[k]).stack.dim_spec() == self.subs()[k].stack.dim_spec()
                    && op_views(r.subs()[k].stack.ops()) == op_views(self.subs()[k].stack.ops())
                    && r.subs()[k].role_key@ == self.subs()[k].role_key@,
    {
        proof {
            use_type_invariant(self);
        }
        let n = self.substructures.len();
        let mut subs: Vec<Substructure> = Vec::with_capacity(n);
        let mut i: usize = 0;
        while i < n
            invariant
                n == self.subs().len(),
                i <= n,
                subs@.len() == i,
                forall|k: int|
                    0 <= k < n ==> (#[trigger] self.subs()[k]).stack.dim_spec() == self.dim && self.subs()[k].role_key@.len()
                        == self.dim,
                forall|k: int|
                    0 <= k < i ==> (#[trigger] subs@[k]).stack.dim_spec() == self.subs()[k].stack.dim_spec()
                        && op_views(subs@[k].stack.ops()) == op_views(self.subs()[k].stack.ops())
                        && subs@[k].role_key@ == self.subs()[k].role_key@,
            decreases n - i,
        {
            subs.push(self.substructures[i].clone());
            i += 1;
        }
        StackOfStacks { dim: self.dim, substructures: subs }
    }
}

impl StackOfStacks {
    #[verifier::type_invariant]
    spec fn dims_agree(self) -> bool {
        forall|i: int|
            0 <= i < self.substructures@.len() ==> (#[trigger] self.substructures@[i]).stack.dim_spec()
                == self.dim && self.substructures@[i].role_key@.len() == self.dim
    }

    /// The blackboard dimensionality.
    pub closed spec fn dim_spec(&self) -> nat {
        self.dim as nat
    }

    /// The attached substructures, in order.
    pub closed spec fn subs(&self) -> Seq<Substructure> {
        self.substructures@
    }

    /// Construct an empty Level-1 structure at dimensionality `dim`.
    pub fn new(dim: usize) -> (s: StackOfStacks)
        ensures
            s.dim_spec() == dim,
            s.subs() == Seq::<Substructure>::empty(),
    {
        StackOfStacks { dim, substructures: Vec::new() }
    }

    /// Attach a Stack with its role key.
    ///
    /// Returns `KeyDimMismatch` if the Stack's dim, or else the role key's
    /// dim, doesn't match the blackboard dim; the structure is then left
    /// unchanged.
    pub fn attach(&mut self, stack: Stack, role_key: Hypervector) -> (r: Result<(), SosError>)
        ensures
            final(self).dim_spec() == old(self).dim_spec(),
            stack.dim_spec() != old(self).dim_spec() ==> sos_err_view(r->Err_0) == (SosErrorView::KeyDimMismatch {
                got: stack.dim_spec() as usize,
                expected: old(self).dim_spec() as usize,
            }) && r is Err && final(self).subs() == old(self).subs(),
            stack.dim_spec() == old(self).dim_spec() && role_key@.len() != old(self).dim_spec() ==> r is Err
                && sos_err_view(r->Err_0) == (SosErrorView::KeyDimMismatch {
                got: role_key@.len() as usize,
                expected: old(self).dim_spec() as usize,
            }) && final(self).subs() == old(self).subs(),
            stack.dim_spec() == old(self).dim_spec() && role_key@.len() == old(self).dim_spec() ==> r is Ok
                && final(self).subs() == old(self).subs().push(Substructure { stack, role_key }),
    {
        if stack.dim() != self.dim {
            return Err(SosError::KeyDimMismatch { got: stack.dim(), expected: self.dim });
        }
        if role_key.dim() != self.dim {
            return Err(SosError::KeyDimMismatch { got: role_key.dim(), expected: self.dim });
        }
        proof {
            use_type_invariant(&*self);
        }
        let mut subs = Vec::new();
        std::mem::swap(&mut subs, &mut self.substructures);
        subs.push(Substructure { stack, role_key });
        self.substructures = subs;
        Ok(())
    }

    /// Compute the blackboard hypervector for the given input.
    ///
    /// Each substructure's Stack produces a contribution from `input`,
    /// which is bound to the substructure's role key; the bound vectors are
    /// bundled into the blackboard. Errors: `Empty` for an empty structure,
    /// `KeyDimMismatch` for an input of the wrong dim, then the first
    /// substructure's failure, in order.
    pub fn forward<F: Fn(&Hypervector, &Hypervector) -> Vec<i8>>(
        &self,
        input: &Hypervector,
        spectral: &F,
    ) -> (r: Result<Hypervector, SosError>)
        requires
            total_binder(*spectral),
            forall|i: int| 0 <= i < self.subs().len() ==> bundle_fits(#[trigger] self.subs()[i].stack, input@),
            forall|results: Seq<Result<Seq<i8>, StackErrorView>>|
                #[trigger] sos_reaches_bundle(self.subs(), self.dim_spec(), input@, results) ==> self.subs().len()
                    <= i32::MAX,
        ensures
            exists|results: Seq<Result<Seq<i8>, StackErrorView>>|
                #[trigger] sos_result(*spectral, self.subs(), self.dim_spec(), *input, results, sos_res_view(r)),
    {
        proof {
            use_type_invariant(self);
        }
        let ghost subs = self.subs();
        let ghost dim = self.dim_spec();
        if self.substructures.len() == 0 {
            let r = Err(SosError::Empty);
            let ghost w: Seq<Result<Seq<i8>, StackErrorView>> = Seq::empty();
            assert(sos_result(*spectral, subs, dim, *input, w, sos_res_view(r)));
            return r;
        }
        if input.dim() != self.dim {
            let r = Err(SosError::KeyDimMismatch { got: input.dim(), expected: self.dim });
            let ghost w: Seq<Result<Seq<i8>, StackErrorView>> = Seq::empty();
            assert(sos_result(*spectral, subs, dim, *input, w, sos_res_view(r)));
            return r;
        }
        let n = self.substructures.len();
        let mut bound: Vec<Hypervector> = Vec::with_capacity(n);
        let ghost mut results: Seq<Result<Seq<i8>, StackErrorView>> = Seq::empty();
        proof {
            assert(subs.take(0) =~= Seq::<Substructure>::empty());
            assert(Seq::new(0, |k: int| bound@[k]@) =~= Seq::<Seq<i8>>::empty());
        }
        let mut i: usize = 0;
        while i < n
            invariant
                n == subs.len(),
                subs == self.subs(),
                dim == self.dim_spec(),
                total_binder(*spectral),
                forall|j: int| 0 <= j < subs.len() ==> bundle_fits(#[trigger] subs[j].stack, input@),
                input@.len() == dim,
                i <= n,
                results.len() == i,
                bound@.len() == i,
                bound_contributions(subs.take(i as int), dim, results) == Ok::<Seq<Seq<i8>>, SosErrorView>(
                    Seq::new(i as nat, |k: int| bound@[k]@),
                ),
                forall|k: int|
                    0 <= k < i && bound_contributions(subs.take(k), dim, results) is Ok ==> exists|
                        ans: Seq<Seq<i8>>,
                    |
                        #[trigger] forward_result(
                            *spectral,
                            subs[k].stack.ops(),
                            subs[k].stack.dim_spec(),
                            *input,
                            ans,
                            results[k],
                        ),
            decreases n - i,
        {
            let sub = &self.substructures[i];
            let res = sub.stack.forward(input, spectral);
            let ghost rv = crate::stack::stack_res_view(res);
            let ghost results2 = results.push(rv);
            let ghost bound0 = Seq::new(i as nat, |k: int| bound@[k]@);
            proof {
                lemma_contributions_step(subs, dim, results, rv, i as int);
                assert(results2[i as int] == rv);
                assert(subs[i as int] == *sub);
                let a = choose|ans: Seq<Seq<i8>>|
                    #[trigger] forward_result(
                        *spectral,
                        sub.stack.ops(),
                        sub.stack.dim_spec(),
                        *input,
                        ans,
                        rv,
                    );
                assert forall|k: int|
                    0 <= k <= i && bound_contributions(subs.take(k), dim, results2) is Ok implies exists|
                        ans: Seq<Seq<i8>>,
                    |
                        #[trigger] forward_result(
                            *spectral,
                            subs[k].stack.ops(),
                            subs[k].stack.dim_spec(),
                            *input,
                            ans,
                            results2[k],
                        ) by {
                    if k < i {
                        assert(results2[k] == results[k]);
                    } else {
                        assert(forward_result(
                            *spectral,
                            subs[k].stack.ops(),
                            subs[k].stack.dim_spec(),
                            *input,
                            a,
                            results2[k],
                        ));
                    }
                }
            }
            let c = match res {
                Ok(c) => c,
                Err(e) => {
                    let r = Err(SosError::Stack(e));
                    proof {
                        lemma_sos_err(*spectral, subs, dim, *input, results2, i as int, sos_err_view(r->Err_0));
                    }
                    return r;
                },
            };
            if c.dim() != self.dim {
                let r = Err(SosError::SubstructureDimMismatch { index: i, got: c.dim(), expected: self.dim });
                proof {
                    lemma_sos_err(*spectral, subs, dim, *input, results2, i as int, sos_err_view(r->Err_0));
                }
                return r;
            }
            match bind(&sub.role_key, &c) {
                Ok(b) => {
                    bound.push(b);
                    proof {
                        assert(Seq::new(i as nat + 1, |k: int| bound@[k]@) =~= bound0.push(b@));
                    }
                },
                Err(e) => {
                    let r = Err(SosError::Hdc(e));
                    proof {
                        lemma_sos_err(*spectral, subs, dim, *input, results2, i as int, sos_err_view(r->Err_0));
                    }
                    return r;
                },
            }
            proof {
                results = results2;
            }
            i += 1;
        }
        let ghost bv = Seq::new(n as nat, |k: int| bound@[k]@);
        proof {
            assert(subs.take(n as int) =~= subs);
            assert(sos_reaches_bundle(subs, dim, input@, results));
            assert(n <= i32::MAX);
        }
        let mut refs: Vec<&Hypervector> = Vec::new();
        let mut k: usize = 0;
        while k < n
            invariant
                n == bound@.len(),
                k <= n,
                refs@.len() == k,
                forall|j: int| 0 <= j < k ==> refs@[j] == bound@[j],
            decreases n - k,
        {
            refs.push(&bound[k]);
            k += 1;
        }
        proof {
            assert(views(refs@) =~= bv);
        }
        let r = match bundle(refs.as_slice()) {
            Ok(h) => Ok(h),
            Err(e) => Err(SosError::Hdc(e)),
        };
        assert(sos_result(*spectral, subs, dim, *input, results, sos_res_view(r)));
        r
    }

    /// Read one substructure's contribution back out of a blackboard
    /// hypervector by unbinding with its role key.
    ///
    /// Returns `SubstructureDimMismatch { index, got: 0, expected: len }`
    /// for an index out of range.
    pub fn read_role(&self, blackboard: &Hypervector, index: usize) -> (r: Result<Hypervector, SosError>)
        ensures
            index >= self.subs().len() ==> sos_res_view(r) == Err::<Seq<i8>, SosErrorView>(
                SosErrorView::SubstructureDimMismatch {
                    index,
                    got: 0,
                    expected: self.subs().len() as usize,
                },
            ),
            index < self.subs().len() ==> sos_res_view(r) == match bind_outcome(
                blackboard@,
                self.subs()[index as int].role_key@,
            ) {
                Ok(s) => Ok(s),
                Err(e) => Err(SosErrorView::Hdc(e)),
            },
    {
        if index >= self.substructures.len() {
            return Err(
                SosError::SubstructureDimMismatch {
                    index,
                    got: 0,
                    expected: self.substructures.len(),
                },
            );
        }
        let sub = &self.substructures[index];
        match unbind(blackboard, &sub.role_key) {
            Ok(h) => Ok(h),
            Err(e) => Err(SosError::Hdc(e)),
        }
    }

    /// Blackboard dimensionality.
    pub fn dim(&self) -> (d: usize)
        ensures
            d == self.dim_spec(),
    {
        self.dim
    }

    /// Number of substructures attached.
    pub fn len(&self) -> (n: usize)
        ensures
            n == self.subs().len(),
    {
        self.substructures.len()
    }

    /// True if no substructures attached.
    pub fn is_empty(&self) -> (b: bool)
        ensures
            b == (self.subs().len() == 0),
    {
        self.substructures.len() == 0
    }

    /// Read-only access to attached substructures.
    pub fn substructures(&self) -> (s: &[Substructure])
        ensures
            s@ == self.subs(),
    {
        self.substructures.as_slice()
    }
}

} // verus!
