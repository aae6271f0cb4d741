//! Stack: a heterogeneous bundle of operations on a shared hypervector.
use vstd::prelude::*;

use crate::hdc::{
    bundle, bundle_outcome, first_len_mismatch, lemma_first_len_mismatch_at,
    lemma_first_len_mismatch_none, res_view, views, HdcError, Hypervector,
};
use crate::op::{
    answer_ok, op_outcome, op_view, tag_view, total_binder, OpView, Operation, OperationError,
};

verus! {

/// Errors during Stack execution.
#[derive(Debug)]
pub enum StackError {
    /// A nested operation failed.
    Op(OperationError),
    /// HDC primitive failure.
    Hdc(HdcError),
    /// `forward` was called on an empty Stack.
    Empty,
    /// An operation produced output of incompatible dimensionality.
    DimMismatch {
        /// Operation tag.
        op: &'static str,
        /// Actual output dimensionality.
        got: usize,
        /// Expected dimensionality (the Stack's `dim`).
        expected: usize,
    },
}

/// The mathematical content of a [`StackError`].
pub enum StackErrorView {
    /// See [`StackError::Op`].
    Op(OperationError),
    /// See [`StackError::Hdc`].
    Hdc(HdcError),
    /// See [`StackError::Empty`].
    Empty,
    /// See [`StackError::DimMismatch`].
    DimMismatch { op: Seq<char>, got: nat, expected: nat },
}

/// The view of a stack error.
pub open spec fn stack_err_view(e: StackError) -> StackErrorView {
    match e {
        StackError::Op(o) => StackErrorView::Op(o),
        StackError::Hdc(h) => StackErrorView::Hdc(h),
        StackError::Empty => StackErrorView::Empty,
        StackError::DimMismatch { op, got, expected } => StackErrorView::DimMismatch {
            op: op@,
            got: got as nat,
            expected: expected as nat,
        },
    }
}

/// The view of a fallible stack result.
pub open spec fn stack_res_view(r: Result<Hypervector, StackError>) -> Result<Seq<i8>, StackErrorView> {
    match r {
        Ok(h) => Ok(h@),
        Err(e) => Err(stack_err_view(e)),
    }
}

/// The views of a sequence of operations.
pub open spec fn op_views(ops: Seq<Operation>) -> Seq<OpView> {
    Seq::new(ops.len(), |i: int| op_view(ops[i]))
}

/// The outputs of applying `ops` in order to `input`, stopping at the
/// first error; `ans[i]` is the spectral binder's answer for `ops[i]`.
pub open spec fn collect_outcomes(ops: Seq<OpView>, input: Seq<i8>, ans: Seq<Seq<i8>>) -> Result<
    Seq<Seq<i8>>,
    OperationError,
>
    decreases ops.len(),
{
    if ops.len() == 0 {
        Ok(Seq::empty())
    } else {
        match collect_outcomes(ops.drop_last(), input, ans) {
            Err(e) => Err(e),
            Ok(outs) => match op_outcome(ops.last(), input, ans[ops.len() - 1]) {
                Ok(o) => Ok(outs.push(o)),
                Err(e) => Err(e),
            },
        }
    }
}

/// Every answer the spectral binder gave while `ops` were applied in order
/// to `input` is one it can give.
pub open spec fn answers_ok<F: Fn(&Hypervector, &Hypervector) -> Vec<i8>>(
    f: F,
    ops: Seq<Operation>,
    input: Hypervector,
    ans: Seq<Seq<i8>>,
) -> bool {
    forall|i: int|
        0 <= i < ops.len() && collect_outcomes(op_views(ops).take(i), input@, ans) is Ok ==> answer_ok(
            f,
            ops[i],
            input,
            #[trigger] ans[i],
        )
}

/// What `Stack::forward` returns for a stack of dimension `dim` holding
/// `ops`, given the spectral binder's answers `ans`.
pub open spec fn forward_outcome(ops: Seq<OpView>, dim: nat, input: Seq<i8>, ans: Seq<Seq<i8>>) -> Result<
    Seq<i8>,
    StackErrorView,
> {
    if ops.len() == 0 {
        Err(StackErrorView::Empty)
    } else if input.len() != dim {
        Err(StackErrorView::DimMismatch { op: "stack.input"@, got: input.len(), expected: dim })
    } else {
        match collect_outcomes(ops, input, ans) {
            Err(e) => Err(StackErrorView::Op(e)),
            Ok(outs) => {
                let k = first_len_mismatch(outs, dim, 0);
                if k < outs.len() {
                    Err(
                        StackErrorView::DimMismatch {
                            op: tag_view(ops[k]),
                            got: outs[k].len(),
                            expected: dim,
                        },
                    )
                } else {
                    match bundle_outcome(outs) {
                        Ok(s) => Ok(s),
                        Err(e) => Err(StackErrorView::Hdc(e)),
                    }
                }
            },
        }
    }
}

/// `r` is what `Stack::forward` returns for a stack of dimension `dim`
/// holding `ops` when the spectral binder `f` answers `ans`, and every
/// answer it consulted is one `f` can give.
pub open spec fn forward_result<F: Fn(&Hypervector, &Hypervector) -> Vec<i8>>(
    f: F,
    ops: Seq<Operation>,
    dim: nat,
    input: Hypervector,
    ans: Seq<Seq<i8>>,
    r: Result<Seq<i8>, StackErrorView>,
) -> bool {
    &&& ops.len() > 0 && input@.len() == dim ==> answers_ok(f, ops, input, ans)
    &&& r == forward_outcome(op_views(ops), dim, input@, ans)
}

/// With the spectral binder's answers `ans`, the forward pass gets as far
/// as bundling: the Stack is not empty, the input has its dimension, every
/// operation succeeds and every output has the Stack's dimension.
pub open spec fn reaches_bundle(ops: Seq<OpView>, dim: nat, input: Seq<i8>, ans: Seq<Seq<i8>>) -> bool {
    &&& ops.len() > 0
    &&& input.len() == dim
    &&& collect_outcomes(ops, input, ans) matches Ok(outs) && first_len_mismatch(outs, dim, 0) >= outs.len()
}

/// Whenever a forward pass of `stack` on `input` gets as far as bundling,
/// the number of outputs fits the bundle's `i32` column sums.
pub open spec fn bundle_fits(stack: Stack, input: Seq<i8>) -> bool {
    forall|ans: Seq<Seq<i8>>|
        #[trigger] reaches_bundle(op_views(stack.ops()), stack.dim_spec(), input, ans) ==> stack.ops().len()
            <= i32::MAX
}

/// Once applying a prefix of the operations fails, applying any longer
/// prefix fails with the same error.
pub proof fn lemma_collect_err_persists(ops: Seq<OpView>, input: Seq<i8>, ans: Seq<Seq<i8>>, i: int, j: int)
    requires
        0 <= i <= j <= ops.len(),
        collect_outcomes(ops.take(i), input, ans) is Err,
    ensures
        collect_outcomes(ops.take(j), input, ans) == collect_outcomes(ops.take(i), input, ans),
    decreases j - i,
{
    if j > i {
        lemma_collect_err_persists(ops, input, ans, i, j - 1);
        assert(ops.take(j).drop_last() =~= ops.take(j - 1));
    }
}

/// Applying a prefix of the operations only consults the answers for that
/// prefix.
pub proof fn lemma_collect_ans_prefix(ops: Seq<OpView>, input: Seq<i8>, a1: Seq<Seq<i8>>, a2: Seq<Seq<i8>>)
    requires
        forall|k: int| 0 <= k < ops.len() ==> a1[k] == a2[k],
    ensures
        collect_outcomes(ops, input, a1) == collect_outcomes(ops, input, a2),
    decreases ops.len(),
{
    if ops.len() > 0 {
        lemma_collect_ans_prefix(ops.drop_last(), input, a1, a2);
    }
}

/// Applying one more operation extends the collected outputs, or fails.
pub proof fn lemma_collect_step(ops: Seq<OpView>, input: Seq<i8>, ans: Seq<Seq<i8>>, a: Seq<i8>, i: int)
    requires
        0 <= i < ops.len(),
        ans.len() == i,
    ensures
        collect_outcomes(ops.take(i + 1), input, ans.push(a)) == match collect_outcomes(
            ops.take(i),
            input,
            ans,
        ) {
            Err(e) => Err(e),
            Ok(outs) => match op_outcome(ops[i], input, a) {
                Ok(o) => Ok(outs.push(o)),
                Err(e) => Err(e),
            },
        },
        forall|k: int|
            0 <= k <= i ==> #[trigger] collect_outcomes(ops.take(k), input, ans.push(a))
                == collect_outcomes(ops.take(k), input, ans),
{
    assert(ops.take(i + 1).drop_last() =~= ops.take(i));
    assert(ops.take(i + 1).last() == ops[i]);
    lemma_collect_ans_prefix(ops.take(i), input, ans, ans.push(a));
    assert forall|k: int| 0 <= k <= i implies #[trigger] collect_outcomes(ops.take(k), input, ans.push(a))
        == collect_outcomes(ops.take(k), input, ans) by {
        lemma_collect_ans_prefix(ops.take(k), input, ans, ans.push(a));
    }
}

/// When the operation at `i` is the first to fail, applying all of them
/// fails with its error, and the answers consulted are the ones up to `i`.
pub proof fn lemma_first_op_err<F: Fn(&Hypervector, &Hypervector) -> Vec<i8>>(
    f: F,
    ops: Seq<Operation>,
    input: Hypervector,
    ans: Seq<Seq<i8>>,
    i: int,
    e: OperationError,
)
    requires
        0 <= i < ops.len(),
        collect_outcomes(op_views(ops).take(i + 1), input@, ans) == Err::<Seq<Seq<i8>>, OperationError>(e),
        forall|k: int|
            0 <= k <= i && collect_outcomes(op_views(ops).take(k), input@, ans) is Ok ==> answer_ok(
                f,
                ops[k],
                input,
                #[trigger] ans[k],
            ),
    ensures
        answers_ok(f, ops, input, ans),
        collect_outcomes(op_views(ops), input@, ans) == Err::<Seq<Seq<i8>>, OperationError>(e),
{
    let vs = op_views(ops);
    lemma_collect_err_persists(vs, input@, ans, i + 1, ops.len() as int);
    assert(vs.take(ops.len() as int) =~= vs);
    assert forall|k: int|
        0 <= k < ops.len() && collect_outcomes(vs.take(k), input@, ans) is Ok implies answer_ok(
        f,
        ops[k],
        input,
        #[trigger] ans[k],
    ) by {
        if k > i {
            lemma_collect_err_persists(vs, input@, ans, i + 1, k);
        }
    }
}

/// When the operation at `i` is the first to fail, the whole forward pass
/// fails with its error.
proof fn lemma_forward_op_err<F: Fn(&Hypervector, &Hypervector) -> Vec<i8>>(
    f: F,
    ops: Seq<Operation>,
    dim: nat,
    input: Hypervector,
    ans: Seq<Seq<i8>>,
    i: int,
    e: OperationError,
)
    requires
        0 <= i < ops.len(),
        input@.len() == dim,
        collect_outcomes(op_views(ops).take(i + 1), input@, ans) == Err::<Seq<Seq<i8>>, OperationError>(e),
        forall|k: int|
            0 <= k <= i && collect_outcomes(op_views(ops).take(k), input@, ans) is Ok ==> answer_ok(
                f,
                ops[k],
                input,
                #[trigger] ans[k],
            ),
    ensures
        answers_ok(f, ops, input, ans),
        forward_outcome(op_views(ops), dim, input@, ans) == Err::<Seq<i8>, StackErrorView>(
            StackErrorView::Op(e),
        ),
{
    lemma_first_op_err(f, ops, input, ans, i, e);
}

/// The elements of `items` from index `start` on, in order, leaving out
/// those at indices `i < n` with `flags[i]` set.
pub open spec fn unflagged_from<T>(items: Seq<T>, flags: Seq<bool>, n: int, start: int) -> Seq<T>
    decreases items.len() - start,
{
    if start < 0 || start >= items.len() {
        Seq::empty()
    } else {
        let rest = unflagged_from(items, flags, n, start + 1);
        if start < n && flags[start] {
            rest
        } else {
            seq![items[start]].add(rest)
        }
    }
}

/// The indices `i` with `start <= i < n` and `flags[i]` set, largest first.
pub open spec fn flagged_desc(flags: Seq<bool>, start: int, n: int) -> Seq<usize>
    decreases n - start,
{
    if start < 0 || start >= n {
        Seq::empty()
    } else {
        let rest = flagged_desc(flags, start + 1, n);
        if flags[start] {
            rest.push(start as usize)
        } else {
            rest
        }
    }
}

proof fn lemma_unflagged_tail<T>(items: Seq<T>, flags: Seq<bool>, n: int, start: int)
    requires
        0 <= n <= start <= items.len(),
    ensures
        unflagged_from(items, flags, n, start) == items.skip(start),
    decreases items.len() - start,
{
    if start < items.len() {
        lemma_unflagged_tail(items, flags, n, start + 1);
        assert(items.skip(start) =~= seq![items[start]].add(items.skip(start + 1)));
    } else {
        assert(items.skip(start) =~= Seq::<T>::empty());
    }
}

/// Remove, back to front, the elements at the indices `i` below both
/// lengths with `flags[i]` set; returns the removed indices, largest first.
pub fn remove_flagged<T>(items: &mut Vec<T>, flags: &[bool]) -> (removed: Vec<usize>)
    ensures
        final(items)@ == unflagged_from(
            old(items)@,
            flags@,
            if flags@.len() < old(items)@.len() { flags@.len() as int } else { old(items)@.len() as int },
            0,
        ),
        removed@ == flagged_desc(
            flags@,
            0,
            if flags@.len() < old(items)@.len() { flags@.len() as int } else { old(items)@.len() as int },
        ),
{
    let ghost orig = items@;
    let n = if flags.len() < items.len() {
        flags.len()
    } else {
        items.len()
    };
    let mut removed: Vec<usize> = Vec::new();
    proof {
        lemma_unflagged_tail(orig, flags@, n as int, n as int);
        assert(orig =~= orig.take(n as int).add(orig.skip(n as int)));
    }
    let mut i: usize = n;
    while i > 0
        invariant
            n <= orig.len(),
            n <= flags@.len(),
            i <= n,
            items@ == orig.take(i as int).add(unflagged_from(orig, flags@, n as int, i as int)),
            removed@ == flagged_desc(flags@, i as int, n as int),
        decreases i,
    {
        let j = i - 1;
        proof {
            assert(orig.take(i as int) =~= orig.take(j as int).push(orig[j as int]));
        }
        if flags[j] {
            items.remove(j);
            removed.push(j);
            proof {
                assert(items@ =~= orig.take(j as int).add(unflagged_from(orig, flags@, n as int, j as int)));
            }
        } else {
            proof {
                assert(items@ =~= orig.take(j as int).add(unflagged_from(orig, flags@, n as int, j as int)));
            }
        }
        i = j;
    }
    assert(orig.take(0) =~= Seq::<T>::empty());
    assert(items@ =~= unflagged_from(orig, flags@, n as int, 0));
    removed
}

/// A Stack: N operations sharing a hypervector input.
#[derive(Debug)]
pub struct Stack {
    dim: usize,
    operations: Vec<Operation>,
}

impl Clone for Stack {
    fn clone(&self) -> (r: Self)
        ensures
            r.dim_spec() == self.dim_spec(),
            op_views(r.ops()) == op_views(self.ops()),
    {
        let n = self.operations.len();
        let mut ops: Vec<Operation> = Vec::with_capacity(n);
        let mut i: usize = 0;
        while i < n
            invariant
                n == self.ops().len(),
                i <= n,
                ops@.len() == i,
                forall|k: int| 0 <= k < i ==> op_view(#[trigger] ops@[k]) == op_view(self.ops()[k]),
            decreases n - i,
        {
            ops.push(self.operations[i].clone());
            i += 1;
        }
        let r = Stack { dim: self.dim, operations: ops };
        assert(op_views(r.ops()) =~= op_views(self.ops()));
        r
    }
}

impl Stack {
    /// The Stack's dimensionality.
    pub closed spec fn dim_spec(&self) -> nat {
        self.dim as nat
    }

    /// The Stack's operations, in order.
    pub closed spec fn ops(&self) -> Seq<Operation> {
        self.operations@
    }

    /// Create an empty Stack at dimensionality `dim`.
    pub fn new(dim: usize) -> (s: Stack)
        ensures
            s.dim_spec() == dim,
            s.ops() == Seq::<Operation>::empty(),
    {
        Stack { dim, operations: Vec::new() }
    }

    /// Builder: append `op` to this Stack.
    pub fn with_operation(self, op: Operation) -> (s: Stack)
        ensures
            s.dim_spec() == self.dim_spec(),
            s.ops() == self.ops().push(op),
    {
        let mut s = self;
        s.operations.push(op);
        s
    }

    /// Add `op` in place; returns the Stack for chaining.
    pub fn add_operation(&mut self, op: Operation) -> (r: &mut Self)
        ensures
            r.dim_spec() == old(self).dim_spec(),
            r.ops() == old(self).ops().push(op),
            *final(self) == *final(r),
    {
        self.operations.push(op);
        self
    }

    /// Insert `op` at `index`, shifting later ops back.
    pub fn insert_operation(&mut self, index: usize, op: Operation)
        requires
            index <= old(self).ops().len(),
        ensures
            final(self).dim_spec() == old(self).dim_spec(),
            final(self).ops() == old(self).ops().insert(index as int, op),
    {
        self.operations.insert(index, op);
    }

    /// Remove and return the op at `index`.
    pub fn remove_operation(&mut self, index: usize) -> (r: Operation)
        requires
            index < old(self).ops().len(),
        ensures
            r == old(self).ops()[index as int],
            final(self).dim_spec() == old(self).dim_spec(),
            final(self).ops() == old(self).ops().remove(index as int),
    {
        self.operations.remove(index)
    }

    /// Replace the op at `index`, returning the previous occupant.
    pub fn replace_operation(&mut self, index: usize, op: Operation) -> (r: Operation)
        requires
            index < old(self).ops().len(),
        ensures
            r == old(self).ops()[index as int],
            final(self).dim_spec() == old(self).dim_spec(),
            final(self).ops() == old(self).ops().update(index as int, op),
    {
        let prev = self.operations.remove(index);
        self.operations.insert(index, op);
        proof {
            assert(self.operations@ =~= old(self).ops().update(index as int, op));
        }
        prev
    }

    /// Remove, back to front, the operations at the indices `i` below both
    /// lengths with `flags[i]` set; returns the removed indices, largest
    /// first.
    pub fn remove_flagged(&mut self, flags: &[bool]) -> (removed: Vec<usize>)
        ensures
            final(self).dim_spec() == old(self).dim_spec(),
            final(self).ops() == unflagged_from(
                old(self).ops(),
                flags@,
                if flags@.len() < old(self).ops().len() { flags@.len() as int } else { old(self).ops().len() as int },
                0,
            ),
            removed@ == flagged_desc(
                flags@,
                0,
                if flags@.len() < old(self).ops().len() { flags@.len() as int } else { old(self).ops().len() as int },
            ),
    {
        remove_flagged(&mut self.operations, flags)
    }

    /// Returns the Stack's dimensionality.
    pub fn dim(&self) -> (d: usize)
        ensures
            d == self.dim_spec(),
    {
        self.dim
    }

    /// Returns the number of operations in the Stack.
    pub fn len(&self) -> (n: usize)
        ensures
            n == self.ops().len(),
    {
        self.operations.len()
    }

    /// Returns true if no operations have been added.
    pub fn is_empty(&self) -> (b: bool)
        ensures
            b == (self.ops().len() == 0),
    {
        self.operations.len() == 0
    }

    /// Read-only access to operations.
    pub fn operations(&self) -> (s: &[Operation])
        ensures
            s@ == self.ops(),
    {
        self.operations.as_slice()
    }

    /// Apply all operations to `input`, then bundle the outputs.
    ///
    /// Errors, in the order they are checked: `Empty` for a Stack without
    /// operations; `DimMismatch` tagged `"stack.input"` when the input's
    /// dimension is not the Stack's; `Op` for the first operation that
    /// fails; `DimMismatch` tagged with the operation's tag for the first
    /// output whose dimension is not the Stack's.
    pub fn forward<F: Fn(&Hypervector, &Hypervector) -> Vec<i8>>(
        &self,
        input: &Hypervector,
        spectral: &F,
    ) -> (r: Result<Hypervector, StackError>)
        requires
            total_binder(*spectral),
            bundle_fits(*self, input@),
        ensures
            exists|ans: Seq<Seq<i8>>|
                #[trigger] forward_result(
                    *spectral,
                    self.ops(),
                    self.dim_spec(),
                    *input,
                    ans,
                    stack_res_view(r),
                ),
    {
        let ghost ops = op_views(self.ops());
        if self.operations.len() == 0 {
            let r = Err(StackError::Empty);
            let ghost w: Seq<Seq<i8>> = Seq::empty();
            assert(forward_result(*spectral, self.ops(), self.dim_spec(), *input, w, stack_res_view(r)));
            return r;
        }
        if input.dim() != self.dim {
            let r = Err(StackError::DimMismatch { op: "stack.input", got: input.dim(), expected: self.dim });
            let ghost w: Seq<Seq<i8>> = Seq::empty();
            assert(forward_result(*spectral, self.ops(), self.dim_spec(), *input, w, stack_res_view(r)));
            return r;
        }
        let n = self.operations.len();
        let mut outs: Vec<Hypervector> = Vec::new();
        let ghost mut ans: Seq<Seq<i8>> = Seq::empty();
        let mut i: usize = 0;
        proof {
            assert(ops.take(0) =~= Seq::<OpView>::empty());
            assert(Seq::new(0, |k: int| outs@[k]@) =~= Seq::<Seq<i8>>::empty());
        }
        while i < n
            invariant
                n == self.ops().len(),
                ops == op_views(self.ops()),
                total_binder(*spectral),
                i <= n,
                input@.len() == self.dim_spec(),
                ans.len() == i,
                outs@.len() == i,
                collect_outcomes(ops.take(i as int), input@, ans) == Ok::<Seq<Seq<i8>>, OperationError>(
                    Seq::new(i as nat, |k: int| outs@[k]@),
                ),
                forall|k: int|
                    0 <= k < i && collect_outcomes(ops.take(k), input@, ans) is Ok ==> answer_ok(
                        *spectral,
                        self.ops()[k],
                        *input,
                        #[trigger] ans[k],
                    ),
            decreases n - i,
        {
            let res = self.operations[i].apply(input, spectral);
            let ghost a = choose|a: Seq<i8>|
                answer_ok(*spectral, self.ops()[i as int], *input, a) && res_view(res)
                    == op_outcome(op_view(self.ops()[i as int]), input@, a);
            let ghost ans2 = ans.push(a);
            proof {
                lemma_collect_step(ops, input@, ans, a, i as int);
            }
            let ghost outv0 = Seq::new(i as nat, |k: int| outs@[k]@);
            match res {
                Ok(h) => {
                    outs.push(h);
                    proof {
                        assert(Seq::new(i as nat + 1, |k: int| outs@[k]@) =~= outv0.push(h@));
                    }
                },
                Err(e) => {
                    let r = Err(StackError::Op(e));
                    proof {
                        lemma_forward_op_err(*spectral, self.ops(), self.dim_spec(), *input, ans2, i as int, e);
                        assert(forward_result(*spectral, self.ops(), self.dim_spec(), *input, ans2, stack_res_view(r)));
                    }
                    return r;
                },
            }
            proof {
                ans = ans2;
            }
            i += 1;
        }
        let ghost outv = Seq::new(n as nat, |k: int| outs@[k]@);
        proof {
            assert(ops.take(n as int) =~= ops);
            assert(answers_ok(*spectral, self.ops(), *input, ans));
        }
        let mut k: usize = 0;
        while k < n
            invariant
                n == outs@.len(),
                n == self.ops().len(),
                n > 0,
                k <= n,
                outv == Seq::new(n as nat, |j: int| outs@[j]@),
                ops == op_views(self.ops()),
                input@.len() == self.dim_spec(),
                collect_outcomes(ops, input@, ans) == Ok::<Seq<Seq<i8>>, OperationError>(outv),
                answers_ok(*spectral, self.ops(), *input, ans),
                forall|j: int| 0 <= j < k ==> (#[trigger] outv[j]).len() == self.dim_spec(),
            decreases n - k,
        {
            if outs[k].dim() != self.dim {
                let r = Err(
                    StackError::DimMismatch {
                        op: self.operations[k].tag(),
                        got: outs[k].dim(),
                        expected: self.dim,
                    },
                );
                proof {
                    lemma_first_len_mismatch_at(outv, self.dim_spec(), 0, k as int);
                    assert(forward_result(*spectral, self.ops(), self.dim_spec(), *input, ans, stack_res_view(r)));
                }
                return r;
            }
            k += 1;
        }
        proof {
            lemma_first_len_mismatch_none(outv, self.dim_spec(), 0);
            assert(reaches_bundle(ops, self.dim_spec(), input@, ans));
            assert(n <= i32::MAX);
        }
        let mut refs: Vec<&Hypervector> = Vec::new();
        let mut k: usize = 0;
        while k < n
            invariant
                n == outs@.len(),
                n <= i32::MAX,
                k <= n,
                refs@.len() == k,
                forall|j: int| 0 <= j < k ==> refs@[j] == outs@[j],
            decreases n - k,
        {
            refs.push(&outs[k]);
            k += 1;
        }
        proof {
            assert(views(refs@) =~= outv);
        }
        let r = match bundle(refs.as_slice()) {
            Ok(h) => Ok(h),
            Err(e) => Err(StackError::Hdc(e)),
        };
        assert(forward_result(*spectral, self.ops(), self.dim_spec(), *input, ans, stack_res_view(r)));
        r
    }
}

} // verus!
