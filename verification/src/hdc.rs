//! Hyperdimensional computing primitives.
//!
//! A [`Hypervector`] is a fixed-length vector whose every element is `+1`
//! or `-1`. The canonical operations are binding (elementwise product,
//! self-inverse), bundling (elementwise majority), permutation (circular
//! shift) and two exact similarity probes.
use rand::distributions::Standard;
use rand::Rng;
use rand_chacha::rand_core::SeedableRng;
use rand_chacha::ChaCha8Rng;
use vstd::prelude::*;
use vstd::arithmetic::div_mod::{
    lemma_mod_add_multiples_vanish, lemma_small_mod, lemma_sub_mod_noop_right,
};

verus! {

/// Default hypervector dimensionality (Kanerva's recommended baseline).
pub const DEFAULT_DIM: usize = 10_000;

/// Errors that can occur in HDC operations.
#[derive(Debug, PartialEq, Eq, Structural)]
pub enum HdcError {
    /// Two hypervectors have incompatible dimensionality for the requested op.
    DimMismatch {
        /// Left operand dimensionality.
        a: usize,
        /// Right operand dimensionality.
        b: usize,
    },
    /// `bundle` was given an empty input slice.
    EmptyBundle,
}

/// Every element of `s` is `+1` or `-1`.
pub open spec fn is_bipolar(s: Seq<i8>) -> bool {
    forall|i: int| 0 <= i < s.len() ==> #[trigger] s[i] == 1 || s[i] == -1
}

/// A bipolar hypervector: each element is `+1` or `-1`.
#[derive(Debug, PartialEq, Eq)]
pub struct Hypervector {
    data: Vec<i8>,
}

impl View for Hypervector {
    type V = Seq<i8>;

    closed spec fn view(&self) -> Seq<i8> {
        self.data@
    }
}

/// The ChaCha8 generator that seeds reproducible hypervectors.
#[verifier::external_type_specification]
#[verifier::external_body]
pub struct ExChaCha8Rng(ChaCha8Rng);

/// The first `n` booleans that `Rng::sample_iter(Standard)` yields from a
/// `ChaCha8Rng` seeded by `SeedableRng::seed_from_u64(seed)`. Seeded
/// generators are reproducible: the same seed gives the same sequence on
/// every run, version and architecture.
pub uninterp spec fn seeded_bits(seed: u64, n: nat) -> Seq<bool>;

/// Seeds a `ChaCha8Rng` from `seed` (`SeedableRng::seed_from_u64`) and
/// collects the first `n` booleans of `Rng::sample_iter(Standard)`, an
/// endless iterator of uniform booleans (the sign bit of each next
/// `u32`). The contract names them `seeded_bits(seed, n)`.
#[verifier::external_body]
fn chacha8_seeded_bits(seed: u64, n: usize) -> (r: Vec<bool>)
    ensures
        r@.len() == n,
        r@ == seeded_bits(seed, n as nat),
{
    ChaCha8Rng::seed_from_u64(seed).sample_iter(Standard).take(n).collect()
}

/// `+1` for each `true` and `-1` for each `false`.
pub open spec fn signs_of(bits: Seq<bool>) -> Seq<i8> {
    Seq::new(bits.len(), |i: int| if bits[i] { 1i8 } else { -1i8 })
}

/// Calls `Rng::gen::<bool>` on the generator (the sign bit of its next
/// `u32`). The drawn value depends on the opaque generator state, so
/// nothing is stated of it.
#[verifier::external_body]
fn gen_bool(rng: &mut ChaCha8Rng) -> bool {
    rng.gen::<bool>()
}

impl Hypervector {
    #[verifier::type_invariant]
    spec fn bipolar_inv(self) -> bool {
        is_bipolar(self.data@)
    }

    /// Construct a fresh random hypervector of dimensionality `dim`.
    ///
    /// Each element is `+1` or `-1`, decided by one draw of a uniform
    /// boolean from `rng`.
    pub fn random(dim: usize, rng: &mut ChaCha8Rng) -> (r: Hypervector)
        ensures
            r@.len() == dim,
            is_bipolar(r@),
    {
        let mut data: Vec<i8> = Vec::with_capacity(dim);
        let mut i: usize = 0;
        while i < dim
            invariant
                i <= dim,
                data@.len() == i,
                is_bipolar(data@),
            decreases dim - i,
        {
            if gen_bool(rng) {
                data.push(1);
            } else {
                data.push(-1);
            }
            i += 1;
        }
        Hypervector { data }
    }

    /// Construct a random hypervector from a ChaCha8 generator seeded with
    /// `seed`, for reproducible tests and benchmarks: the result depends on
    /// `(dim, seed)` alone.
    pub fn random_seeded(dim: usize, seed: u64) -> (r: Hypervector)
        ensures
            r@ == signs_of(seeded_bits(seed, dim as nat)),
            r@.len() == dim,
    {
        let bits = chacha8_seeded_bits(seed, dim);
        Self::from_draws(bits.as_slice())
    }

    /// The hypervector with `+1` where `bits` is `true` and `-1` where it is
    /// `false`.
    pub fn from_draws(bits: &[bool]) -> (r: Hypervector)
        ensures
            r@ == signs_of(bits@),
    {
        let n = bits.len();
        let mut data: Vec<i8> = Vec::with_capacity(n);
        let mut i: usize = 0;
        while i < n
            invariant
                n == bits@.len(),
                i <= n,
                data@ =~= signs_of(bits@).take(i as int),
            decreases n - i,
        {
            if bits[i] {
                data.push(1);
            } else {
                data.push(-1);
            }
            i += 1;
        }
        assert(signs_of(bits@).take(n as int) =~= signs_of(bits@));
        Hypervector { data }
    }

    /// Construct from raw bipolar data. Returns `None` if any element is not
    /// in `{-1, +1}`.
    pub fn from_bipolar(data: Vec<i8>) -> (r: Option<Hypervector>)
        ensures
            r.is_some() <==> is_bipolar(data@),
            r matches Some(h) ==> h@ == data@,
    {
        let n = data.len();
        let mut i: usize = 0;
        while i < n
            invariant
                n == data.len(),
                i <= n,
                is_bipolar(data@.take(i as int)),
            decreases n - i,
        {
            let x = data[i];
            if !(x == 1 || x == -1) {
                assert(!is_bipolar(data@) ) by {
                    assert(!(data@[i as int] == 1 || data@[i as int] == -1));
                }
                return None;
            }
            assert(data@.take(i as int + 1) =~= data@.take(i as int).push(x));
            i += 1;
        }
        assert(data@.take(n as int) =~= data@);
        Some(Hypervector { data })
    }

    /// Returns the dimensionality of this hypervector.
    ///
    /// Also states that the hypervector is bipolar, which every
    /// hypervector is.
    pub fn dim(&self) -> (d: usize)
        ensures
            d == self@.len(),
            is_bipolar(self@),
    {
        proof {
            use_type_invariant(self);
        }
        self.data.len()
    }

    /// Returns a view of the underlying bipolar data.
    pub fn as_slice(&self) -> (s: &[i8])
        ensures
            s@ == self@,
    {
        self.data.as_slice()
    }
}

impl Clone for Hypervector {
    fn clone(&self) -> (r: Self)
        ensures
            r@ == self@,
    {
        proof {
            use_type_invariant(self);
        }
        let n = self.data.len();
        let mut data: Vec<i8> = Vec::with_capacity(n);
        let mut i: usize = 0;
        while i < n
            invariant
                n == self@.len(),
                i <= n,
                is_bipolar(self@),
                data@ =~= self@.take(i as int),
            decreases n - i,
        {
            data.push(self.data[i]);
            i += 1;
        }
        assert(self@.take(n as int) =~= self@);
        Hypervector { data }
    }
}

/// The value view of a fallible hypervector result.
pub open spec fn res_view<E>(r: Result<Hypervector, E>) -> Result<Seq<i8>, E> {
    match r {
        Ok(h) => Ok(h@),
        Err(e) => Err(e),
    }
}

/// Elementwise product of two sequences of equal length.
pub open spec fn bind_spec(a: Seq<i8>, b: Seq<i8>) -> Seq<i8> {
    Seq::new(a.len(), |i: int| (a[i] * b[i]) as i8)
}

/// What `bind` returns: the elementwise product, or a dimension mismatch.
pub open spec fn bind_outcome(a: Seq<i8>, b: Seq<i8>) -> Result<Seq<i8>, HdcError> {
    if a.len() != b.len() {
        Err(HdcError::DimMismatch { a: a.len() as usize, b: b.len() as usize })
    } else {
        Ok(bind_spec(a, b))
    }
}

/// Bind two hypervectors via elementwise multiplication.
///
/// For bipolar vectors `bind` is self-inverse: `bind(bind(a, k), k) == a`.
/// Returns `Err(DimMismatch)` if the dimensions differ.
pub fn bind(a: &Hypervector, b: &Hypervector) -> (r: Result<Hypervector, HdcError>)
    ensures
        res_view(r) == bind_outcome(a@, b@),
{
    proof {
        use_type_invariant(a);
        use_type_invariant(b);
    }
    if a.dim() != b.dim() {
        return Err(HdcError::DimMismatch { a: a.dim(), b: b.dim() });
    }
    let n = a.data.len();
    let mut data: Vec<i8> = Vec::with_capacity(n);
    let mut i: usize = 0;
    while i < n
        invariant
            n == a@.len(),
            n == b@.len(),
            i <= n,
            is_bipolar(a@),
            is_bipolar(b@),
            data@ =~= bind_spec(a@, b@).take(i as int),
        decreases n - i,
    {
        let x = a.data[i];
        let y = b.data[i];
        assert(x == 1 || x == -1);
        assert(y == 1 || y == -1);
        data.push(x * y);
        i += 1;
    }
    assert(bind_spec(a@, b@).take(n as int) =~= bind_spec(a@, b@));
    assert(is_bipolar(data@));
    Ok(Hypervector { data })
}

/// Unbind: given a bound `c = bind(a, k)`, recover `a` by binding with `k`.
///
/// For bipolar vectors this is just `bind` (self-inverse property).
pub fn unbind(c: &Hypervector, k: &Hypervector) -> (r: Result<Hypervector, HdcError>)
    ensures
        res_view(r) == bind_outcome(c@, k@),
{
    bind(c, k)
}

/// Sum of column `i` over the rows of `vs`.
pub open spec fn col_sum(vs: Seq<Seq<i8>>, i: int) -> int
    decreases vs.len(),
{
    if vs.len() == 0 {
        0
    } else {
        col_sum(vs.drop_last(), i) + vs.last()[i]
    }
}

/// Elementwise majority of `vs` at dimension `dim`; ties resolve to `+1`.
pub open spec fn majority(vs: Seq<Seq<i8>>, dim: nat) -> Seq<i8> {
    Seq::new(dim, |i: int| if col_sum(vs, i) >= 0 { 1i8 } else { -1i8 })
}

/// Index of the first row at or after `from` whose length is not `dim`,
/// or `vs.len()` if there is none.
pub open spec fn first_len_mismatch(vs: Seq<Seq<i8>>, dim: nat, from: int) -> int
    decreases vs.len() - from,
{
    if from >= vs.len() {
        vs.len() as int
    } else if vs[from].len() != dim {
        from
    } else {
        first_len_mismatch(vs, dim, from + 1)
    }
}

/// What `bundle` returns for operands with views `vs`.
pub open spec fn bundle_outcome(vs: Seq<Seq<i8>>) -> Result<Seq<i8>, HdcError> {
    if vs.len() == 0 {
        Err(HdcError::EmptyBundle)
    } else {
        let dim = vs[0].len();
        let k = first_len_mismatch(vs, dim, 1);
        if k < vs.len() {
            Err(HdcError::DimMismatch { a: dim as usize, b: vs[k].len() as usize })
        } else {
            Ok(majority(vs, dim))
        }
    }
}

/// Every row of `vs` has the length of the first.
pub open spec fn same_lens(vs: Seq<Seq<i8>>) -> bool {
    forall|k: int| 0 <= k < vs.len() ==> (#[trigger] vs[k]).len() == vs[0].len()
}

/// The views of a sequence of hypervector references.
pub open spec fn views(vs: Seq<&Hypervector>) -> Seq<Seq<i8>> {
    Seq::new(vs.len(), |k: int| vs[k]@)
}

/// Every row of `vs` is bipolar and has length `dim`.
pub open spec fn rows_bipolar(vs: Seq<Seq<i8>>, dim: nat) -> bool {
    forall|k: int| 0 <= k < vs.len() ==> (#[trigger] vs[k]).len() == dim && is_bipolar(vs[k])
}

/// Bounds on the index of the first row of the wrong length.
pub proof fn lemma_first_len_mismatch(vs: Seq<Seq<i8>>, dim: nat, from: int)
    requires
        0 <= from <= vs.len(),
    ensures
        from <= first_len_mismatch(vs, dim, from) <= vs.len(),
        forall|k: int| from <= k < first_len_mismatch(vs, dim, from) ==> (#[trigger] vs[k]).len() == dim,
        first_len_mismatch(vs, dim, from) < vs.len() ==> vs[first_len_mismatch(vs, dim, from)].len() != dim,
    decreases vs.len() - from,
{
    if from < vs.len() && vs[from].len() == dim {
        lemma_first_len_mismatch(vs, dim, from + 1);
    }
}

/// The first row of the wrong length is the one at `k` when all rows
/// from `from` up to `k` have length `dim` and row `k` does not.
pub proof fn lemma_first_len_mismatch_at(vs: Seq<Seq<i8>>, dim: nat, from: int, k: int)
    requires
        0 <= from <= k < vs.len(),
        forall|j: int| from <= j < k ==> (#[trigger] vs[j]).len() == dim,
        vs[k].len() != dim,
    ensures
        first_len_mismatch(vs, dim, from) == k,
    decreases k - from,
{
    if from < k {
        lemma_first_len_mismatch_at(vs, dim, from + 1, k);
    }
}

proof fn lemma_col_sum_bound(vs: Seq<Seq<i8>>, dim: nat, i: int)
    requires
        rows_bipolar(vs, dim),
        0 <= i < dim,
    ensures
        -(vs.len() as int) <= col_sum(vs, i) <= vs.len(),
    decreases vs.len(),
{
    if vs.len() > 0 {
        let last = vs.last();
        assert(last == vs[vs.len() - 1]);
        assert(last[i] == 1 || last[i] == -1);
        assert forall|k: int| 0 <= k < vs.drop_last().len() implies (#[trigger] vs.drop_last()[k]).len() == dim
            && is_bipolar(vs.drop_last()[k]) by {
            assert(vs.drop_last()[k] == vs[k]);
        }
        lemma_col_sum_bound(vs.drop_last(), dim, i);
    }
}

/// No row has the wrong length when every row has length `dim`.
pub proof fn lemma_first_len_mismatch_none(vs: Seq<Seq<i8>>, dim: nat, from: int)
    requires
        0 <= from <= vs.len(),
        forall|k: int| 0 <= k < vs.len() ==> (#[trigger] vs[k]).len() == dim,
    ensures
        first_len_mismatch(vs, dim, from) == vs.len(),
    decreases vs.len() - from,
{
    if from < vs.len() {
        lemma_first_len_mismatch_none(vs, dim, from + 1);
    }
}

/// Bundle: additive superposition of N hypervectors with majority threshold.
///
/// Sums elementwise, then takes the sign; ties (sum == 0) resolve to `+1`.
/// Returns `Err(EmptyBundle)` for an empty slice and `Err(DimMismatch)` at
/// the first operand whose dimension differs from the first one's.
pub fn bundle(vectors: &[&Hypervector]) -> (r: Result<Hypervector, HdcError>)
    requires
        same_lens(views(vectors@)) ==> vectors@.len() <= i32::MAX,
    ensures
        res_view(r) == bundle_outcome(views(vectors@)),
{
    let ghost vs = views(vectors@);
    if vectors.len() == 0 {
        return Err(HdcError::EmptyBundle);
    }
    let first = vectors[0];
    let dim = first.dim();
    let count = vectors.len();
    proof {
        lemma_first_len_mismatch(vs, dim as nat, 1);
    }
    let mut k: usize = 1;
    while k < count
        invariant
            count == vectors@.len(),
            vs == views(vectors@),
            dim == vs[0].len(),
            1 <= k <= count,
            forall|j: int| 1 <= j < k ==> (#[trigger] vs[j]).len() == dim,
        decreases count - k,
    {
        let v = vectors[k];
        if v.dim() != dim {
            proof {
                assert(vs[k as int] == v@);
                lemma_first_len_mismatch_at(vs, dim as nat, 1, k as int);
            }
            return Err(HdcError::DimMismatch { a: dim, b: v.dim() });
        }
        k += 1;
    }
    proof {
        lemma_first_len_mismatch(vs, dim as nat, 1);
        assert forall|j: int| 0 <= j < vs.len() implies (#[trigger] vs[j]).len() == dim by {
            if j == 0 {
                assert(vs[0] == first@);
            }
        }
        assert(same_lens(vs));
    }
    let mut sums: Vec<i32> = Vec::with_capacity(dim);
    let mut i: usize = 0;
    while i < dim
        invariant
            i <= dim,
            sums@.len() == i,
            forall|x: int| 0 <= x < i ==> #[trigger] sums@[x] == 0,
        decreases dim - i,
    {
        sums.push(0);
        i += 1;
    }
    let mut t: usize = 0;
    while t < count
        invariant
            count == vectors@.len(),
            count <= i32::MAX,
            vs == views(vectors@),
            t <= count,
            sums@.len() == dim,
            forall|j: int| 0 <= j < vs.len() ==> (#[trigger] vs[j]).len() == dim,
            rows_bipolar(vs.take(t as int), dim as nat),
            forall|x: int| 0 <= x < dim ==> #[trigger] sums@[x] == col_sum(vs.take(t as int), x),
        decreases count - t,
    {
        let v = vectors[t];
        proof {
            use_type_invariant(v);
            assert(vs.take(t as int + 1).drop_last() =~= vs.take(t as int));
            assert(vs.take(t as int + 1).last() == vs[t as int]);
            assert(vs[t as int] == v@);
        }
        let mut i: usize = 0;
        while i < dim
            invariant
                count <= i32::MAX,
                t < count,
                i <= dim,
                sums@.len() == dim,
                v@.len() == dim,
                v@ == vs[t as int],
                is_bipolar(v@),
                rows_bipolar(vs.take(t as int), dim as nat),
                vs.take(t as int).len() == t,
                forall|x: int| 0 <= x < i ==> #[trigger] sums@[x] == col_sum(vs.take(t as int + 1), x),
                forall|x: int| i <= x < dim ==> #[trigger] sums@[x] == col_sum(vs.take(t as int), x),
                forall|x: int| #![trigger col_sum(vs.take(t as int + 1), x)] 0 <= x < dim ==> col_sum(vs.take(t as int + 1), x)
                    == col_sum(vs.take(t as int), x) + v@[x],
            decreases dim - i,
        {
            proof {
                lemma_col_sum_bound(vs.take(t as int), dim as nat, i as int);
            }
            let x = v.data[i];
            let cur = sums[i];
            sums.set(i, cur + x as i32);
            i += 1;
        }
        proof {
            assert forall|k: int| 0 <= k < vs.take(t as int + 1).len() implies (#[trigger] vs.take(
                t as int + 1,
            )[k]).len() == dim && is_bipolar(vs.take(t as int + 1)[k]) by {
                if k < t {
                    assert(vs.take(t as int + 1)[k] == vs.take(t as int)[k]);
                }
            }
        }
        t += 1;
    }
    assert(vs.take(count as int) =~= vs);
    let mut data: Vec<i8> = Vec::with_capacity(dim);
    let mut i: usize = 0;
    while i < dim
        invariant
            i <= dim,
            sums@.len() == dim,
            vs.len() == count,
            forall|x: int| 0 <= x < dim ==> #[trigger] sums@[x] == col_sum(vs, x),
            data@ =~= majority(vs, dim as nat).take(i as int),
        decreases dim - i,
    {
        if sums[i] >= 0 {
            data.push(1);
        } else {
            data.push(-1);
        }
        i += 1;
    }
    assert(majority(vs, dim as nat).take(dim as int) =~= majority(vs, dim as nat));
    Ok(Hypervector { data })
}

/// Circular shift of `v` by `shift` positions: element `i` moves to
/// position `(i + shift) mod D`. The empty vector is left as it is.
pub open spec fn permute_spec(v: Seq<i8>, shift: int) -> Seq<i8> {
    if v.len() == 0 {
        v
    } else {
        Seq::new(v.len(), |j: int| v[(j - shift) % (v.len() as int)])
    }
}

/// Permute a hypervector by circular shift of `shift` positions.
///
/// Used for role-tagging in sequence and set encodings.
pub fn permute(v: &Hypervector, shift: usize) -> (r: Hypervector)
    ensures
        r@ == permute_spec(v@, shift as int),
{
    proof {
        use_type_invariant(v);
    }
    let dim = v.dim();
    if dim == 0 {
        return v.clone();
    }
    let shift_r = shift % dim;
    if shift_r == 0 {
        proof {
            assert forall|j: int| 0 <= j < dim implies #[trigger] permute_spec(v@, shift as int)[j] == v@[j] by {
                lemma_sub_mod_noop_right(j, shift as int, dim as int);
                lemma_small_mod(j as nat, dim as nat);
            }
            assert(permute_spec(v@, shift as int) =~= v@);
        }
        return v.clone();
    }
    let mut data: Vec<i8> = Vec::with_capacity(dim);
    let mut j: usize = 0;
    while j < dim
        invariant
            dim == v@.len(),
            dim > 0,
            shift_r == shift % dim,
            j <= dim,
            is_bipolar(v@),
            data@ =~= permute_spec(v@, shift as int).take(j as int),
        decreases dim - j,
    {
        let src = if j >= shift_r {
            j - shift_r
        } else {
            j + (dim - shift_r)
        };
        proof {
            lemma_sub_mod_noop_right(j as int, shift as int, dim as int);
            if j >= shift_r {
                lemma_small_mod((j - shift_r) as nat, dim as nat);
            } else {
                lemma_mod_add_multiples_vanish(j - shift_r, dim as int);
                lemma_small_mod((j - shift_r + dim) as nat, dim as nat);
            }
            assert(src as int == (j as int - shift as int) % (dim as int));
        }
        data.push(v.data[src]);
        j += 1;
    }
    assert(permute_spec(v@, shift as int).take(dim as int) =~= permute_spec(v@, shift as int));
    Hypervector { data }
}

/// Dot product of the first `n` elements of `a` and `b`.
pub open spec fn dot_spec(a: Seq<i8>, b: Seq<i8>, n: int) -> int
    decreases n,
{
    if n <= 0 {
        0
    } else {
        dot_spec(a, b, n - 1) + a[n - 1] * b[n - 1]
    }
}

/// Number of positions among the first `n` where `a` and `b` differ.
pub open spec fn diff_count(a: Seq<i8>, b: Seq<i8>, n: int) -> int
    decreases n,
{
    if n <= 0 {
        0
    } else {
        diff_count(a, b, n - 1) + if a[n - 1] != b[n - 1] { 1int } else { 0int }
    }
}

/// For bipolar sequences every position contributes `+1` to the dot product
/// where they agree and `-1` where they differ.
pub proof fn lemma_dot_diff(a: Seq<i8>, b: Seq<i8>, n: int)
    requires
        is_bipolar(a),
        is_bipolar(b),
        0 <= n <= a.len(),
        n <= b.len(),
    ensures
        dot_spec(a, b, n) == n - 2 * diff_count(a, b, n),
        0 <= diff_count(a, b, n) <= n,
    decreases n,
{
    if n > 0 {
        lemma_dot_diff(a, b, n - 1);
        assert(a[n - 1] == 1 || a[n - 1] == -1);
        assert(b[n - 1] == 1 || b[n - 1] == -1);
    }
}

/// An exact fraction `num / den`.
#[derive(Debug, Clone, Copy, PartialEq, Eq, Structural)]
pub struct Ratio {
    /// Numerator.
    pub num: i128,
    /// Denominator; positive in every value this library returns.
    pub den: usize,
}

/// Number of dimensions where `a` and `b` differ; both have length `n`.
fn count_diffs(a: &Hypervector, b: &Hypervector) -> (d: usize)
    requires
        a@.len() == b@.len(),
    ensures
        d == diff_count(a@, b@, a@.len() as int),
        d <= a@.len(),
{
    let n = a.data.len();
    let mut d: usize = 0;
    let mut i: usize = 0;
    while i < n
        invariant
            n == a@.len(),
            n == b@.len(),
            i <= n,
            d == diff_count(a@, b@, i as int),
            d <= i,
        decreases n - i,
    {
        if a.data[i] != b.data[i] {
            d += 1;
        }
        i += 1;
    }
    d
}

/// Cosine similarity between two hypervectors, as the exact fraction
/// `dot(a, b) / D`, in `[-1, 1]`. Returns `0 / 1` for empty operands.
///
/// For bipolar vectors of equal dimension `D`, `|a| = |b| = sqrt(D)`, so the
/// cosine is the dot product divided by `D`.
pub fn cos_sim(a: &Hypervector, b: &Hypervector) -> (r: Result<Ratio, HdcError>)
    ensures
        a@.len() != b@.len() ==> r == Err::<Ratio, HdcError>(
            HdcError::DimMismatch { a: a@.len() as usize, b: b@.len() as usize },
        ),
        a@.len() == b@.len() && a@.len() == 0 ==> r == Ok::<Ratio, HdcError>(Ratio { num: 0, den: 1 }),
        a@.len() == b@.len() && a@.len() > 0 ==> r == Ok::<Ratio, HdcError>(
            Ratio { num: dot_spec(a@, b@, a@.len() as int) as i128, den: a@.len() as usize },
        ),
{
    proof {
        use_type_invariant(a);
        use_type_invariant(b);
    }
    if a.dim() != b.dim() {
        return Err(HdcError::DimMismatch { a: a.dim(), b: b.dim() });
    }
    let n = a.dim();
    if n == 0 {
        return Ok(Ratio { num: 0, den: 1 });
    }
    let mut dot: i128 = 0;
    let mut i: usize = 0;
    while i < n
        invariant
            n == a@.len(),
            n == b@.len(),
            i <= n,
            is_bipolar(a@),
            is_bipolar(b@),
            dot == dot_spec(a@, b@, i as int),
            -(i as int) <= dot <= i,
        decreases n - i,
    {
        let x = a.data[i];
        let y = b.data[i];
        assert(x == 1 || x == -1);
        assert(y == 1 || y == -1);
        assert((x as i128) * (y as i128) == 1 || (x as i128) * (y as i128) == -1) by (nonlinear_arith)
            requires
                x == 1 || x == -1,
                y == 1 || y == -1,
        ;
        let prod = (x as i128) * (y as i128);
        dot = dot + prod;
        i += 1;
    }
    Ok(Ratio { num: dot, den: n })
}

/// Hamming distance: the fraction of dimensions where two hypervectors
/// differ, as an exact fraction in `[0, 1]`. Returns `0 / 1` for empty
/// operands.
pub fn hamming(a: &Hypervector, b: &Hypervector) -> (r: Result<Ratio, HdcError>)
    ensures
        a@.len() != b@.len() ==> r == Err::<Ratio, HdcError>(
            HdcError::DimMismatch { a: a@.len() as usize, b: b@.len() as usize },
        ),
        a@.len() == b@.len() && a@.len() == 0 ==> r == Ok::<Ratio, HdcError>(Ratio { num: 0, den: 1 }),
        a@.len() == b@.len() && a@.len() > 0 ==> r == Ok::<Ratio, HdcError>(
            Ratio { num: diff_count(a@, b@, a@.len() as int) as i128, den: a@.len() as usize },
        ),
{
    if a.dim() != b.dim() {
        return Err(HdcError::DimMismatch { a: a.dim(), b: b.dim() });
    }
    let n = a.dim();
    if n == 0 {
        return Ok(Ratio { num: 0, den: 1 });
    }
    let d = count_diffs(a, b);
    Ok(Ratio { num: d as i128, den: n })
}

} // verus!
