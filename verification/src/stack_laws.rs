//! Laws of operations, Stacks and Stacks-of-Stacks, stated over the
//! specifications that their contracts use.
use vstd::prelude::*;

use crate::hdc::{
    bind_outcome, bind_spec, bundle_outcome, col_sum, first_len_mismatch, is_bipolar, lemma_first_len_mismatch,
    lemma_first_len_mismatch_none, HdcError,
};
use crate::hdc_laws::{law_bind_commutative, law_bind_self_inverse, law_bundle_of_copies};
use crate::op::{op_outcome, OpView, OperationError};
use crate::sos::{bound_contributions, contribution_step, sos_outcome, SosErrorView, Substructure};
use crate::stack::{collect_outcomes, forward_outcome, StackErrorView};

verus! {

/// The identity operation returns its input, whatever the spectral binder
/// would answer.
pub proof fn law_identity_op(input: Seq<i8>, ans: Seq<i8>)
    ensures
        op_outcome(OpView::Identity, input, ans) == Ok::<Seq<i8>, OperationError>(input),
{
}

/// Applying the same dense binding twice gives back the input.
pub proof fn law_dense_twice(key: Seq<i8>, input: Seq<i8>, a1: Seq<i8>, a2: Seq<i8>)
    requires
        is_bipolar(key),
        is_bipolar(input),
        key.len() == input.len(),
    ensures
        op_outcome(OpView::Dense(key), input, a1) == Ok::<Seq<i8>, OperationError>(bind_spec(input, key)),
        op_outcome(OpView::Dense(key), bind_spec(input, key), a2) == Ok::<Seq<i8>, OperationError>(input),
{
    law_bind_self_inverse(input, key);
}

proof fn lemma_collect_identities(ops: Seq<OpView>, input: Seq<i8>, ans: Seq<Seq<i8>>)
    requires
        forall|k: int| 0 <= k < ops.len() ==> #[trigger] ops[k] == OpView::Identity,
    ensures
        collect_outcomes(ops, input, ans) == Ok::<Seq<Seq<i8>>, OperationError>(
            Seq::new(ops.len(), |k: int| input),
        ),
    decreases ops.len(),
{
    if ops.len() == 0 {
        assert(Seq::new(ops.len(), |k: int| input) =~= Seq::<Seq<i8>>::empty());
    } else {
        assert forall|k: int| 0 <= k < ops.drop_last().len() implies #[trigger] ops.drop_last()[k]
            == OpView::Identity by {
            assert(ops.drop_last()[k] == ops[k]);
        }
        lemma_collect_identities(ops.drop_last(), input, ans);
        assert(ops.last() == ops[ops.len() - 1]);
        assert(Seq::new(ops.len(), |k: int| input) =~= Seq::new(
            (ops.len() - 1) as nat,
            |k: int| input,
        ).push(input));
    }
}

/// A Stack whose operations are all the identity returns its input: the
/// bundle of any number of copies of a vector is that vector.
pub proof fn law_identity_stack(ops: Seq<OpView>, dim: nat, input: Seq<i8>, ans: Seq<Seq<i8>>)
    requires
        ops.len() > 0,
        forall|k: int| 0 <= k < ops.len() ==> #[trigger] ops[k] == OpView::Identity,
        input.len() == dim,
        is_bipolar(input),
    ensures
        forward_outcome(ops, dim, input, ans) == Ok::<Seq<i8>, StackErrorView>(input),
{
    lemma_collect_identities(ops, input, ans);
    let outs = Seq::new(ops.len(), |k: int| input);
    lemma_first_len_mismatch_none(outs, dim, 0);
    law_bundle_of_copies(outs, input);
}

/// With a single substructure, whose Stack returns the bipolar
/// contribution `c` of the blackboard's dimension, the blackboard is
/// `bind(role_key, c)`, and unbinding it with the role key (what
/// `read_role` does) gives back `c` exactly.
pub proof fn law_single_substructure_recoverable(
    sub: Substructure,
    dim: nat,
    input: Seq<i8>,
    c: Seq<i8>,
)
    requires
        sub.role_key@.len() == dim,
        is_bipolar(sub.role_key@),
        input.len() == dim,
        c.len() == dim,
        is_bipolar(c),
    ensures
        sos_outcome(seq![sub], dim, input, seq![Ok::<Seq<i8>, StackErrorView>(c)])
            == Ok::<Seq<i8>, SosErrorView>(bind_spec(sub.role_key@, c)),
        bind_outcome(bind_spec(sub.role_key@, c), sub.role_key@) == Ok::<Seq<i8>, HdcError>(c),
{
    let subs = seq![sub];
    let results = seq![Ok::<Seq<i8>, StackErrorView>(c)];
    let k = sub.role_key@;
    assert(subs.drop_last() =~= Seq::<Substructure>::empty());
    assert(subs.last() == sub);
    assert(subs[0] == sub);
    assert(bound_contributions(subs.drop_last(), dim, results) == Ok::<Seq<Seq<i8>>, SosErrorView>(
        Seq::empty(),
    ));
    assert(bound_contributions(subs, dim, results) == contribution_step(
        sub,
        0,
        dim,
        results[0],
        Seq::empty(),
    ));
    let b = bind_spec(k, c);
    assert(bound_contributions(subs, dim, results) == Ok::<Seq<Seq<i8>>, SosErrorView>(seq![b]));
    assert forall|i: int| 0 <= i < b.len() implies #[trigger] b[i] == 1 || b[i] == -1 by {
        assert(k[i] == 1 || k[i] == -1);
        assert(c[i] == 1 || c[i] == -1);
    }
    law_bundle_of_copies(seq![b], b);
    law_bind_commutative(k, c);
    law_bind_self_inverse(c, k);
}

/// A successful forward pass returns a vector of the Stack's dimension.
pub proof fn law_forward_keeps_dim(ops: Seq<OpView>, dim: nat, input: Seq<i8>, ans: Seq<Seq<i8>>)
    requires
        forward_outcome(ops, dim, input, ans) is Ok,
    ensures
        forward_outcome(ops, dim, input, ans)->Ok_0.len() == dim,
{
    let outs = collect_outcomes(ops, input, ans)->Ok_0;
    lemma_first_len_mismatch(outs, dim, 0);
    if outs.len() > 0 {
        assert(outs[0].len() == dim);
    }
    lemma_first_len_mismatch(outs, outs[0].len(), 1);
}

proof fn lemma_contributions_keep_dim(subs: Seq<Substructure>, dim: nat, results: Seq<Result<Seq<i8>, StackErrorView>>)
    requires
        forall|k: int| 0 <= k < subs.len() ==> (#[trigger] subs[k]).role_key@.len() == dim,
        bound_contributions(subs, dim, results) is Ok,
    ensures
        bound_contributions(subs, dim, results)->Ok_0.len() == subs.len(),
        forall|k: int|
            0 <= k < subs.len() ==> (#[trigger] bound_contributions(subs, dim, results)->Ok_0[k]).len() == dim,
    decreases subs.len(),
{
    if subs.len() > 0 {
        assert forall|k: int| 0 <= k < subs.drop_last().len() implies (#[trigger] subs.drop_last()[k]).role_key@.len()
            == dim by {
            assert(subs.drop_last()[k] == subs[k]);
        }
        lemma_contributions_keep_dim(subs.drop_last(), dim, results);
    }
}

/// A successful Stack-of-Stacks forward pass returns a blackboard of the
/// structure's dimension, when every role key has that dimension (which
/// `attach` ensures).
pub proof fn law_sos_forward_keeps_dim(
    subs: Seq<Substructure>,
    dim: nat,
    input: Seq<i8>,
    results: Seq<Result<Seq<i8>, StackErrorView>>,
)
    requires
        forall|k: int| 0 <= k < subs.len() ==> (#[trigger] subs[k]).role_key@.len() == dim,
        sos_outcome(subs, dim, input, results) is Ok,
    ensures
        sos_outcome(subs, dim, input, results)->Ok_0.len() == dim,
{
    lemma_contributions_keep_dim(subs, dim, results);
    let bs = bound_contributions(subs, dim, results)->Ok_0;
    assert(bs[0].len() == dim);
}

/// What operation `op` contributes at dimension `j` when applied to
/// `input`, where `a` is the spectral binder's answer for it: the input
/// element itself, its product with the key element, or the answer element.
pub open spec fn op_term(op: OpView, input: Seq<i8>, a: Seq<i8>, j: int) -> int {
    match op {
        OpView::Identity => input[j] as int,
        OpView::Dense(key) => input[j] * key[j],
        OpView::HrrBind(_) => a[j] as int,
    }
}

/// The sum at dimension `j` of what every operation of `ops` contributes,
/// operation `i` with the binder's answer `ans[i]`.
pub open spec fn ops_sum(ops: Seq<OpView>, input: Seq<i8>, ans: Seq<Seq<i8>>, j: int) -> int
    decreases ops.len(),
{
    if ops.len() == 0 {
        0
    } else {
        ops_sum(ops.drop_last(), input, ans, j) + op_term(ops.last(), input, ans[ops.len() - 1], j)
    }
}

/// Every key of `ops` (and every binder answer an HRR operation gets) is
/// bipolar of dimension `dim`.
pub open spec fn ops_well_keyed(ops: Seq<OpView>, dim: nat, ans: Seq<Seq<i8>>) -> bool {
    forall|i: int|
        0 <= i < ops.len() ==> match #[trigger] ops[i] {
            OpView::Identity => true,
            OpView::Dense(key) => key.len() == dim && is_bipolar(key),
            OpView::HrrBind(key) => key.len() == dim && is_bipolar(key) && ans[i].len() == dim && is_bipolar(
                ans[i],
            ),
        }
}

proof fn lemma_collect_sums(ops: Seq<OpView>, dim: nat, input: Seq<i8>, ans: Seq<Seq<i8>>)
    requires
        input.len() == dim,
        is_bipolar(input),
        ops_well_keyed(ops, dim, ans),
    ensures
        collect_outcomes(ops, input, ans) is Ok,
        collect_outcomes(ops, input, ans)->Ok_0.len() == ops.len(),
        forall|i: int|
            0 <= i < ops.len() ==> (#[trigger] collect_outcomes(ops, input, ans)->Ok_0[i]).len() == dim,
        forall|j: int|
            0 <= j < dim ==> #[trigger] col_sum(collect_outcomes(ops, input, ans)->Ok_0, j) == ops_sum(
                ops,
                input,
                ans,
                j,
            ),
    decreases ops.len(),
{
    if ops.len() == 0 {
        assert(collect_outcomes(ops, input, ans) == Ok::<Seq<Seq<i8>>, OperationError>(Seq::empty()));
    } else {
        let n = ops.len() - 1;
        let prev = ops.drop_last();
        assert forall|i: int| 0 <= i < prev.len() implies match #[trigger] prev[i] {
            OpView::Identity => true,
            OpView::Dense(key) => key.len() == dim && is_bipolar(key),
            OpView::HrrBind(key) => key.len() == dim && is_bipolar(key) && ans[i].len() == dim && is_bipolar(
                ans[i],
            ),
        } by {
            assert(prev[i] == ops[i]);
        }
        lemma_collect_sums(prev, dim, input, ans);
        let outs = collect_outcomes(prev, input, ans)->Ok_0;
        let op = ops.last();
        assert(op == ops[n]);
        let o = op_outcome(op, input, ans[n])->Ok_0;
        assert(op_outcome(op, input, ans[n]) is Ok && o.len() == dim && forall|j: int|
            0 <= j < dim ==> #[trigger] o[j] == op_term(op, input, ans[n], j)) by {
            match op {
                OpView::Identity => {},
                OpView::Dense(key) => {
                    assert forall|j: int| 0 <= j < dim implies #[trigger] bind_spec(input, key)[j] == input[j]
                        * key[j] by {
                        assert(input[j] == 1 || input[j] == -1);
                        assert(key[j] == 1 || key[j] == -1);
                    }
                },
                OpView::HrrBind(key) => {},
            }
        }
        let all = outs.push(o);
        assert(collect_outcomes(ops, input, ans) == Ok::<Seq<Seq<i8>>, OperationError>(all));
        assert(all.drop_last() =~= outs);
        assert(all.last() == o);
        assert forall|i: int| 0 <= i < ops.len() implies (#[trigger] all[i]).len() == dim by {
            if i < n {
                assert(all[i] == outs[i]);
            }
        }
        assert forall|j: int| 0 <= j < dim implies #[trigger] col_sum(all, j) == ops_sum(ops, input, ans, j) by {
            assert(col_sum(all, j) == col_sum(outs, j) + o[j]);
            assert(ops_sum(ops, input, ans, j) == ops_sum(prev, input, ans, j) + op_term(op, input, ans[n], j));
        }
    }
}

/// A Stack bundles the outputs of all its operations, however many: with
/// keys and binder answers of the right dimension, a forward pass succeeds
/// and each element of the result is the sign (ties to `+1`) of the sum,
/// over every operation, of what that operation makes of the input there.
pub proof fn law_forward_is_majority_of_all_ops(ops: Seq<OpView>, dim: nat, input: Seq<i8>, ans: Seq<Seq<i8>>)
    requires
        ops.len() > 0,
        input.len() == dim,
        is_bipolar(input),
        ops_well_keyed(ops, dim, ans),
    ensures
        forward_outcome(ops, dim, input, ans) is Ok,
        forward_outcome(ops, dim, input, ans)->Ok_0.len() == dim,
        forall|j: int|
            0 <= j < dim ==> #[trigger] forward_outcome(ops, dim, input, ans)->Ok_0[j] == if ops_sum(
                ops,
                input,
                ans,
                j,
            ) >= 0 {
                1i8
            } else {
                -1i8
            },
{
    lemma_collect_sums(ops, dim, input, ans);
    let outs = collect_outcomes(ops, input, ans)->Ok_0;
    lemma_first_len_mismatch_none(outs, dim, 0);
    lemma_first_len_mismatch_none(outs, dim, 1);
    assert(outs[0].len() == dim);
}

/// The sum at dimension `j`, over the substructures, of the role key
/// element times the element of that substructure's Stack result.
pub open spec fn blackboard_sum(subs: Seq<Substructure>, results: Seq<Result<Seq<i8>, StackErrorView>>, j: int) -> int
    decreases subs.len(),
{
    if subs.len() == 0 {
        0
    } else {
        blackboard_sum(subs.drop_last(), results, j) + subs.last().role_key@[j] * results[subs.len()
            - 1]->Ok_0[j]
    }
}

/// Every role key is bipolar of dimension `dim`, and every substructure's
/// Stack returned a bipolar vector of that dimension.
pub open spec fn subs_well_formed(subs: Seq<Substructure>, dim: nat, results: Seq<Result<Seq<i8>, StackErrorView>>) -> bool {
    forall|i: int|
        0 <= i < subs.len() ==> {
            &&& (#[trigger] subs[i]).role_key@.len() == dim
            &&& is_bipolar(subs[i].role_key@)
            &&& results[i] is Ok
            &&& results[i]->Ok_0.len() == dim
            &&& is_bipolar(results[i]->Ok_0)
        }
}

proof fn lemma_contribution_sums(subs: Seq<Substructure>, dim: nat, results: Seq<Result<Seq<i8>, StackErrorView>>)
    requires
        subs_well_formed(subs, dim, results),
    ensures
        bound_contributions(subs, dim, results) is Ok,
        bound_contributions(subs, dim, results)->Ok_0.len() == subs.len(),
        forall|i: int|
            0 <= i < subs.len() ==> (#[trigger] bound_contributions(subs, dim, results)->Ok_0[i]).len() == dim,
        forall|j: int|
            0 <= j < dim ==> #[trigger] col_sum(bound_contributions(subs, dim, results)->Ok_0, j)
                == blackboard_sum(subs, results, j),
    decreases subs.len(),
{
    if subs.len() == 0 {
        assert(bound_contributions(subs, dim, results) == Ok::<Seq<Seq<i8>>, SosErrorView>(Seq::empty()));
    } else {
        let n = subs.len() - 1;
        let prev = subs.drop_last();
        assert forall|i: int| 0 <= i < prev.len() implies {
            &&& (#[trigger] prev[i]).role_key@.len() == dim
            &&& is_bipolar(prev[i].role_key@)
            &&& results[i] is Ok
            &&& results[i]->Ok_0.len() == dim
            &&& is_bipolar(results[i]->Ok_0)
        } by {
            assert(prev[i] == subs[i]);
        }
        lemma_contribution_sums(prev, dim, results);
        let bs = bound_contributions(prev, dim, results)->Ok_0;
        let sub = subs[n];
        assert(subs.last() == sub);
        let k = sub.role_key@;
        let c = results[n]->Ok_0;
        let b = bind_spec(k, c);
        assert forall|j: int| 0 <= j < dim implies #[trigger] b[j] == k[j] * c[j] by {
            assert(k[j] == 1 || k[j] == -1);
            assert(c[j] == 1 || c[j] == -1);
        }
        let all = bs.push(b);
        assert(bound_contributions(subs, dim, results) == Ok::<Seq<Seq<i8>>, SosErrorView>(all));
        assert(all.drop_last() =~= bs);
        assert(all.last() == b);
        assert forall|i: int| 0 <= i < subs.len() implies (#[trigger] all[i]).len() == dim by {
            if i < n {
                assert(all[i] == bs[i]);
            }
        }
        assert forall|j: int| 0 <= j < dim implies #[trigger] col_sum(all, j) == blackboard_sum(subs, results, j) by {
            assert(col_sum(all, j) == col_sum(bs, j) + b[j]);
            assert(blackboard_sum(subs, results, j) == blackboard_sum(prev, results, j) + k[j] * c[j]);
        }
    }
}

/// The blackboard binds every substructure's output to its own role key
/// and bundles all of them, however many: with bipolar role keys and Stack
/// results of the blackboard's dimension, each element of the blackboard is
/// the sign (ties to `+1`) of the sum, over every substructure, of role key
/// element times result element there.
pub proof fn law_blackboard_is_majority_of_bound_outputs(
    subs: Seq<Substructure>,
    dim: nat,
    input: Seq<i8>,
    results: Seq<Result<Seq<i8>, StackErrorView>>,
)
    requires
        subs.len() > 0,
        input.len() == dim,
        subs_well_formed(subs, dim, results),
    ensures
        sos_outcome(subs, dim, input, results) is Ok,
        sos_outcome(subs, dim, input, results)->Ok_0.len() == dim,
        forall|j: int|
            0 <= j < dim ==> #[trigger] sos_outcome(subs, dim, input, results)->Ok_0[j] == if blackboard_sum(
                subs,
                results,
                j,
            ) >= 0 {
                1i8
            } else {
                -1i8
            },
{
    lemma_contribution_sums(subs, dim, results);
    let bs = bound_contributions(subs, dim, results)->Ok_0;
    lemma_first_len_mismatch_none(bs, dim, 1);
    assert(bs[0].len() == dim);
}

} // verus!
