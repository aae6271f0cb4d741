//! The algebraic laws of the HDC primitives, stated over the specifications
//! that the operations' contracts use.
use vstd::prelude::*;
use vstd::arithmetic::div_mod::{
    lemma_add_mod_noop_right, lemma_mod_add_multiples_vanish, lemma_small_mod,
};

use crate::hdc::{
    bind_outcome, bind_spec, bundle_outcome, col_sum, diff_count, dot_spec, first_len_mismatch,
    is_bipolar, lemma_dot_diff, lemma_first_len_mismatch_none, majority, permute_spec,
};

verus! {

/// Binding is self-inverse: binding twice with the same bipolar key gives
/// back the original vector, so `unbind(bind(a, k), k) == a`.
pub proof fn law_bind_self_inverse(a: Seq<i8>, k: Seq<i8>)
    requires
        is_bipolar(a),
        is_bipolar(k),
        a.len() == k.len(),
    ensures
        bind_outcome(a, k) == Ok::<Seq<i8>, crate::hdc::HdcError>(bind_spec(a, k)),
        bind_outcome(bind_spec(a, k), k) == Ok::<Seq<i8>, crate::hdc::HdcError>(a),
{
    assert forall|i: int| 0 <= i < a.len() implies #[trigger] bind_spec(bind_spec(a, k), k)[i] == a[i] by {
        assert(k[i] == 1 || k[i] == -1);
        assert(a[i] == 1 || a[i] == -1);
        let p = bind_spec(a, k)[i];
        if k[i] == 1 {
            assert(a[i] * k[i] == a[i]);
            assert(p == a[i]);
            assert(p * k[i] == a[i]);
        } else {
            assert(a[i] * k[i] == -a[i]);
            assert(p == -a[i]);
            assert(p * k[i] == a[i]);
        }
    }
    assert(bind_spec(bind_spec(a, k), k) =~= a);
}

/// Binding is commutative.
pub proof fn law_bind_commutative(a: Seq<i8>, b: Seq<i8>)
    requires
        a.len() == b.len(),
    ensures
        bind_spec(a, b) == bind_spec(b, a),
{
    assert forall|i: int| 0 <= i < a.len() implies #[trigger] bind_spec(a, b)[i] == bind_spec(b, a)[i] by {
        assert(a[i] * b[i] == b[i] * a[i]) by (nonlinear_arith);
    }
    assert(bind_spec(a, b) =~= bind_spec(b, a));
}

/// Bundling two operands of equal dimension is commutative:
/// `bundle(a, b) == bundle(b, a)`.
pub proof fn law_bundle_commutative(a: Seq<i8>, b: Seq<i8>)
    requires
        a.len() == b.len(),
    ensures
        bundle_outcome(seq![a, b]) == bundle_outcome(seq![b, a]),
{
    let ab = seq![a, b];
    let ba = seq![b, a];
    reveal_with_fuel(first_len_mismatch, 3);
    assert(ab.drop_last() =~= seq![a]);
    assert(ba.drop_last() =~= seq![b]);
    assert(seq![a].drop_last() =~= Seq::<Seq<i8>>::empty());
    assert(seq![b].drop_last() =~= Seq::<Seq<i8>>::empty());
    assert forall|i: int| 0 <= i < a.len() implies #[trigger] col_sum(ab, i) == col_sum(ba, i) by {
        assert(seq![a].last() == a);
        assert(seq![b].last() == b);
        assert(ab.last() == b);
        assert(ba.last() == a);
        assert(col_sum(Seq::<Seq<i8>>::empty(), i) == 0);
        assert(col_sum(seq![a], i) == a[i]);
        assert(col_sum(seq![b], i) == b[i]);
    }
    assert(majority(ab, a.len()) =~= majority(ba, b.len()));
}

proof fn lemma_col_sum_remove(ws: Seq<Seq<i8>>, j: int, i: int)
    requires
        0 <= j < ws.len(),
    ensures
        col_sum(ws, i) == col_sum(ws.remove(j), i) + ws[j][i],
    decreases ws.len(),
{
    if j == ws.len() - 1 {
        assert(ws.remove(j) =~= ws.drop_last());
    } else {
        let w2 = ws.remove(j);
        assert(w2.drop_last() =~= ws.drop_last().remove(j));
        assert(w2.last() == ws.last());
        assert(ws.drop_last()[j] == ws[j]);
        lemma_col_sum_remove(ws.drop_last(), j, i);
    }
}

proof fn lemma_col_sum_reorder(vs: Seq<Seq<i8>>, ws: Seq<Seq<i8>>, i: int)
    requires
        vs.to_multiset() == ws.to_multiset(),
    ensures
        col_sum(vs, i) == col_sum(ws, i),
    decreases vs.len(),
{
    broadcast use vstd::seq_lib::group_to_multiset_ensures, vstd::multiset::group_multiset_axioms;

    if vs.len() == 0 {
        assert(ws.to_multiset().len() == 0);
        assert(ws.len() == 0);
    } else {
        let x = vs.last();
        let v2 = vs.drop_last();
        assert(vs =~= v2.push(x));
        assert(vs.to_multiset() == v2.to_multiset().insert(x));
        assert(ws.to_multiset().count(x) > 0);
        assert(ws.contains(x));
        let j = choose|j: int| 0 <= j < ws.len() && ws[j] == x;
        let w2 = ws.remove(j);
        assert(w2.to_multiset() == ws.to_multiset().remove(x));
        assert(w2.to_multiset() =~= v2.to_multiset());
        lemma_col_sum_reorder(v2, w2, i);
        lemma_col_sum_remove(ws, j, i);
    }
}

/// Bundling is insensitive to the order of its operands: any reordering
/// of operands that all have the same dimension gives the same bundle.
pub proof fn law_bundle_reorder(vs: Seq<Seq<i8>>, ws: Seq<Seq<i8>>)
    requires
        vs.to_multiset() == ws.to_multiset(),
        forall|k: int| 0 <= k < vs.len() ==> (#[trigger] vs[k]).len() == vs[0].len(),
    ensures
        bundle_outcome(vs) == bundle_outcome(ws),
{
    broadcast use vstd::seq_lib::group_to_multiset_ensures;

    vstd::seq_lib::to_multiset_len(vs);
    vstd::seq_lib::to_multiset_len(ws);
    if vs.len() > 0 {
        let dim = vs[0].len();
        assert forall|k: int| 0 <= k < ws.len() implies (#[trigger] ws[k]).len() == dim by {
            assert(ws.contains(ws[k]));
            vstd::seq_lib::to_multiset_contains(ws, ws[k]);
            vstd::seq_lib::to_multiset_contains(vs, ws[k]);
            assert(vs.contains(ws[k]));
        }
        lemma_first_len_mismatch_none(vs, dim, 1);
        lemma_first_len_mismatch_none(ws, dim, 1);
        assert forall|i: int| 0 <= i < dim implies #[trigger] majority(vs, dim)[i] == majority(ws, dim)[i] by {
            lemma_col_sum_reorder(vs, ws, i);
        }
        assert(majority(vs, dim) =~= majority(ws, dim));
    }
}

/// The majority of rows that all equal the same bipolar `v` is `v`; in
/// particular bundling a vector with itself, any number of times, gives it
/// back.
pub proof fn law_bundle_of_copies(vs: Seq<Seq<i8>>, v: Seq<i8>)
    requires
        vs.len() > 0,
        is_bipolar(v),
        forall|k: int| 0 <= k < vs.len() ==> #[trigger] vs[k] == v,
    ensures
        bundle_outcome(vs) == Ok::<Seq<i8>, crate::hdc::HdcError>(v),
{
    lemma_first_len_mismatch_none(vs, v.len(), 1);
    assert forall|i: int| 0 <= i < v.len() implies #[trigger] majority(vs, v.len())[i] == v[i] by {
        lemma_col_sum_copies(vs, v, i);
    }
    assert(majority(vs, v.len()) =~= v);
}

proof fn lemma_col_sum_copies(vs: Seq<Seq<i8>>, v: Seq<i8>, i: int)
    requires
        0 <= i < v.len(),
        forall|k: int| 0 <= k < vs.len() ==> #[trigger] vs[k] == v,
    ensures
        col_sum(vs, i) == vs.len() * v[i],
    decreases vs.len(),
{
    if vs.len() > 0 {
        assert(vs.last() == vs[vs.len() - 1]);
        assert forall|k: int| 0 <= k < vs.drop_last().len() implies #[trigger] vs.drop_last()[k] == v by {
            assert(vs.drop_last()[k] == vs[k]);
        }
        lemma_col_sum_copies(vs.drop_last(), v, i);
        assert((vs.len() - 1) * v[i] + v[i] == vs.len() * v[i]) by (nonlinear_arith);
    }
}

/// Permutation composes: `permute(permute(v, n), m) == permute(v, n + m)`.
pub proof fn law_permute_composes(v: Seq<i8>, n: int, m: int)
    ensures
        permute_spec(permute_spec(v, n), m) == permute_spec(v, n + m),
{
    if v.len() > 0 {
        let d = v.len() as int;
        let p = permute_spec(v, n);
        assert forall|j: int| 0 <= j < d implies #[trigger] permute_spec(p, m)[j] == permute_spec(v, n + m)[j] by {
            lemma_add_mod_noop_right(-n, j - m, d);
            assert((-n + (j - m)) == j - (n + m));
        }
        assert(permute_spec(p, m) =~= permute_spec(v, n + m));
    }
}

/// A shift by a whole number of cycles is the identity:
/// `permute(v, k * D) == v`, and `permute(v, n)` only depends on `n mod D`.
#[verifier::rlimit(40)]
pub proof fn law_permute_full_cycle(v: Seq<i8>, n: int)
    ensures
        permute_spec(v, v.len() as int) == v,
        permute_spec(v, 0) == v,
        v.len() > 0 ==> permute_spec(v, n + v.len()) == permute_spec(v, n),
{
    if v.len() > 0 {
        let d = v.len() as int;
        assert forall|j: int| 0 <= j < d implies #[trigger] permute_spec(v, d)[j] == v[j] by {
            lemma_mod_add_multiples_vanish(j - d, d);
            lemma_small_mod(j as nat, d as nat);
        }
        assert(permute_spec(v, d) =~= v);
        assert forall|j: int| 0 <= j < d implies #[trigger] permute_spec(v, 0)[j] == v[j] by {
            lemma_small_mod(j as nat, d as nat);
        }
        assert(permute_spec(v, 0) =~= v);
        assert forall|j: int| 0 <= j < d implies #[trigger] permute_spec(v, n + d)[j] == permute_spec(v, n)[j] by {
            lemma_mod_add_multiples_vanish(j - (n + d), d);
            assert(j - (n + d) + d == j - n);
        }
        assert(permute_spec(v, n + d) =~= permute_spec(v, n));
    }
}

/// Cosine similarity lies in `[-1, 1]` and hamming distance in `[0, 1]`,
/// and for bipolar vectors `cos_sim == 1 - 2 * hamming` exactly: the dot
/// product is `D - 2 * (number of differing dimensions)`.
pub proof fn law_similarity_ranges(a: Seq<i8>, b: Seq<i8>)
    requires
        is_bipolar(a),
        is_bipolar(b),
        a.len() == b.len(),
    ensures
        -(a.len() as int) <= dot_spec(a, b, a.len() as int) <= a.len(),
        0 <= diff_count(a, b, a.len() as int) <= a.len(),
        dot_spec(a, b, a.len() as int) == a.len() - 2 * diff_count(a, b, a.len() as int),
{
    lemma_dot_diff(a, b, a.len() as int);
}

/// A vector is at cosine similarity 1 and hamming distance 0 from itself.
pub proof fn law_self_similarity(v: Seq<i8>)
    requires
        is_bipolar(v),
    ensures
        dot_spec(v, v, v.len() as int) == v.len(),
        diff_count(v, v, v.len() as int) == 0,
{
    lemma_self_diff(v, v.len() as int);
    lemma_dot_diff(v, v, v.len() as int);
}

proof fn lemma_self_diff(v: Seq<i8>, n: int)
    requires
        0 <= n <= v.len(),
    ensures
        diff_count(v, v, n) == 0,
    decreases n,
{
    if n > 0 {
        lemma_self_diff(v, n - 1);
    }
}

/// Both similarity probes are symmetric in their operands.
pub proof fn law_similarity_symmetric(a: Seq<i8>, b: Seq<i8>, n: int)
    requires
        0 <= n <= a.len(),
        n <= b.len(),
    ensures
        dot_spec(a, b, n) == dot_spec(b, a, n),
        diff_count(a, b, n) == diff_count(b, a, n),
    decreases n,
{
    if n > 0 {
        law_similarity_symmetric(a, b, n - 1);
        assert(a[n - 1] * b[n - 1] == b[n - 1] * a[n - 1]) by (nonlinear_arith);
    }
}

} // verus!
