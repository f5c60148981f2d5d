use vstd::prelude::*;
use crate::symbol::Symbol;
use crate::runtime_types::{RuntimeType, RuntimeTypeContext, spec_contains, sum_spec, tid, NONE_ID, lemma_sum_spec_extend, kind_ok, lemma_wf_kinds};

verus! {

/// Kind of an operator: a core operator, or one of a user namespace.
#[derive(Debug)]
pub enum OpKind {
    Core,
    User(Symbol),
}

/// Mathematical value of an [`OpKind`].
pub enum OpKindSpec {
    Core,
    User((Seq<u8>, u32)),
}

impl View for OpKind {
    type V = OpKindSpec;

    open spec fn view(&self) -> OpKindSpec {
        match self {
            OpKind::Core => OpKindSpec::Core,
            OpKind::User(s) => OpKindSpec::User(s@),
        }
    }
}

/// Key of an operator: its kind and its symbol.
#[derive(Debug)]
pub struct OpKey(pub OpKind, pub Symbol);

impl View for OpKey {
    type V = (OpKindSpec, (Seq<u8>, u32));

    open spec fn view(&self) -> (OpKindSpec, (Seq<u8>, u32)) {
        (self.0@, self.1@)
    }
}

impl OpKey {
    /// Keys are equal when their kinds and symbols are.
    pub fn same(&self, other: &OpKey) -> (r: bool)
        ensures
            r == (self@ == other@),
    {
        let kinds = match (&self.0, &other.0) {
            (OpKind::Core, OpKind::Core) => true,
            (OpKind::User(a), OpKind::User(b)) => a.same(b),
            _ => false,
        };
        kinds && self.1.same(&other.1)
    }

    pub fn duplicate(&self) -> (r: OpKey)
        ensures
            r@ == self@,
    {
        let kind = match &self.0 {
            OpKind::Core => OpKind::Core,
            OpKind::User(s) => OpKind::User(s.duplicate()),
        };
        OpKey(kind, self.1.duplicate())
    }
}

impl Default for OpKey {
    fn default() -> (r: OpKey)
        ensures
            r@ == (OpKindSpec::Core, (Seq::<u8>::empty(), 0u32)),
    {
        OpKey(OpKind::Core, Symbol::empty())
    }
}

/// The core operator `+`.
pub fn op_add() -> (r: OpKey)
    ensures
        r@ == (OpKindSpec::Core, (seq![43u8], 0u32)),
{
    OpKey(OpKind::Core, Symbol::get(&[43u8]))
}

/// The core operator `*`.
pub fn op_mul() -> (r: OpKey)
    ensures
        r@ == (OpKindSpec::Core, (seq![42u8], 0u32)),
{
    OpKey(OpKind::Core, Symbol::get(&[42u8]))
}

/// The core operator `in`.
pub fn op_in() -> (r: OpKey)
    ensures
        r@ == (OpKindSpec::Core, (seq![105u8, 110u8], 0u32)),
{
    let r = OpKey(OpKind::Core, Symbol::get(&[105u8, 110u8]));
    r
}

/// The core operator `..`.
pub fn op_range() -> (r: OpKey)
    ensures
        r@ == (OpKindSpec::Core, (seq![46u8, 46u8], 0u32)),
{
    OpKey(OpKind::Core, Symbol::get(&[46u8, 46u8]))
}

/// An operator taking no argument, with its output type.
#[derive(Copy, Clone, Debug, PartialEq, Eq, Structural)]
pub struct Nullary {
    table: usize,
    index: usize,
    out: RuntimeType,
}

/// An operator taking one argument, with its output and argument types.
#[derive(Copy, Clone, Debug, PartialEq, Eq, Structural)]
pub struct Unary {
    table: usize,
    index: usize,
    out: RuntimeType,
    arg: RuntimeType,
}

/// An operator taking two arguments, with its output and argument types.
#[derive(Copy, Clone, Debug, PartialEq, Eq, Structural)]
pub struct Binary {
    table: usize,
    index: usize,
    out: RuntimeType,
    lhs: RuntimeType,
    rhs: RuntimeType,
}

impl Nullary {
    pub closed spec fn spec_out(&self) -> RuntimeType {
        self.out
    }

    pub fn out(&self) -> (r: RuntimeType)
        ensures
            r == self.spec_out(),
    {
        self.out
    }
}

impl Unary {
    pub closed spec fn spec_out(&self) -> RuntimeType {
        self.out
    }

    pub closed spec fn spec_arg(&self) -> RuntimeType {
        self.arg
    }

    pub fn out(&self) -> (r: RuntimeType)
        ensures
            r == self.spec_out(),
    {
        self.out
    }

    pub fn arg(&self) -> (r: RuntimeType)
        ensures
            r == self.spec_arg(),
    {
        self.arg
    }
}

/// The operator of signature `(lhs, rhs) -> out` can be used where an output
/// of type `want` is expected for arguments of types `args`.
pub open spec fn binary_matches(
    k: Seq<crate::runtime_types::TypeKind>,
    sig: (RuntimeType, RuntimeType, RuntimeType),
    want: RuntimeType,
    args: (RuntimeType, RuntimeType),
) -> bool {
    &&& spec_contains(k, tid(want), tid(sig.0))
    &&& spec_contains(k, tid(sig.1), tid(args.0))
    &&& spec_contains(k, tid(sig.2), tid(args.1))
}

impl Binary {
    pub closed spec fn spec_out(&self) -> RuntimeType {
        self.out
    }

    pub closed spec fn spec_lhs(&self) -> RuntimeType {
        self.lhs
    }

    pub closed spec fn spec_rhs(&self) -> RuntimeType {
        self.rhs
    }

    pub open spec fn spec_sig(&self) -> (RuntimeType, RuntimeType, RuntimeType) {
        (self.spec_out(), self.spec_lhs(), self.spec_rhs())
    }

    /// The table this definition belongs to.
    pub closed spec fn spec_table(&self) -> OpTable {
        OpTable { id: self.table }
    }

    pub fn out(&self) -> (r: RuntimeType)
        ensures
            r == self.spec_out(),
    {
        self.out
    }

    pub fn lhs(&self) -> (r: RuntimeType)
        ensures
            r == self.spec_lhs(),
    {
        self.lhs
    }

    pub fn rhs(&self) -> (r: RuntimeType)
        ensures
            r == self.spec_rhs(),
    {
        self.rhs
    }

    /// Sets how this definition is evaluated, in `ops`, the operators it
    /// belongs to.
    pub fn set_eval(&self, ops: &mut OpContext, eval: BinaryEval)
        requires
            old(ops).has(self.spec_table()),
        ensures
            final(ops).same_except(old(ops), self.spec_table()),
            final(ops).spec_binary(self.spec_table()) == old(ops).spec_binary(self.spec_table()),
            final(ops).spec_unary(self.spec_table()) == old(ops).spec_unary(self.spec_table()),
            final(ops).spec_nullary(self.spec_table()) == old(ops).spec_nullary(self.spec_table()),
            final(ops).spec_binary_eval(self.spec_table(), self.spec_sig()) == Some(eval),
            forall|sig: BinarySig| sig != self.spec_sig() ==> #[trigger] final(ops).spec_binary_eval(self.spec_table(), sig)
                == old(ops).spec_binary_eval(self.spec_table(), sig),
            old(ops).wf() ==> final(ops).wf(),
    {
        ops.set_binary_eval(*self, eval);
    }

    /// Applies this definition, as evaluated in `ops`, to `lhs` and `rhs`;
    /// an error when no evaluation was set for it.
    pub fn eval(&self, ops: &OpContext, lhs: Value, rhs: Value) -> (r: Result<Value, OpEvalError>)
        requires
            ops.has(self.spec_table()),
            eval_accepts(ops.spec_binary_eval(self.spec_table(), self.spec_sig()), lhs, rhs),
        ensures
            r == eval_result(ops.spec_binary_eval(self.spec_table(), self.spec_sig()), lhs, rhs),
    {
        match ops.find_binary_eval(*self) {
            Some(BinaryEval::SIntMul) => match (lhs, rhs) {
                (Value::SInt(a), Value::SInt(b)) => Ok(Value::SInt(a * b)),
                _ => Err(OpEvalError::NotDefined),
            },
            Some(BinaryEval::SIntAdd) => match (lhs, rhs) {
                (Value::SInt(a), Value::SInt(b)) => Ok(Value::SInt(a + b)),
                _ => Err(OpEvalError::NotDefined),
            },
            None => Err(OpEvalError::NotDefined),
        }
    }

    /// Can this operator be used where an output of type `out` is expected,
    /// for arguments of types `args`?
    pub fn matches(&self, out: RuntimeType, args: (RuntimeType, RuntimeType), types: &RuntimeTypeContext) -> (r: bool)
        requires
            types.wf(),
            types.has(out),
            types.has(args.0),
            types.has(args.1),
            types.has(self.spec_out()),
            types.has(self.spec_lhs()),
            types.has(self.spec_rhs()),
        ensures
            r == binary_matches(types.kinds(), self.spec_sig(), out, args),
    {
        let (lhs, rhs) = args;
        out.contains(self.out, types) && self.lhs.contains(lhs, types) && self.rhs.contains(rhs, types)
    }
}

/// A value that operators take and give.
#[derive(Copy, Clone, Debug, PartialEq, Eq, Structural)]
pub enum Value {
    /// No value.
    Nothing,
    Unit,
    Bool(bool),
    SInt(i64),
    UInt(u64),
}

/// How a binary definition computes its result from its two arguments.
#[derive(Copy, Clone, Debug, PartialEq, Eq, Structural)]
pub enum BinaryEval {
    /// The product of two signed integers.
    SIntMul,
    /// The sum of two signed integers.
    SIntAdd,
}

/// Why an operator could not be evaluated.
#[derive(Copy, Clone, Debug, PartialEq, Eq, Structural)]
pub enum OpEvalError {
    /// The definition has no evaluation.
    NotDefined,
}

/// Signature of a binary definition: output, left and right argument types.
pub type BinarySig = (RuntimeType, RuntimeType, RuntimeType);

/// The evaluation `e` can be applied to `lhs` and `rhs`: signed integer
/// arithmetic takes two signed integers whose result is a signed integer;
/// a definition without evaluation takes anything.
pub open spec fn eval_accepts(e: Option<BinaryEval>, lhs: Value, rhs: Value) -> bool {
    match e {
        Some(BinaryEval::SIntMul) => lhs is SInt && rhs is SInt && i64::MIN <= lhs->SInt_0 * rhs->SInt_0
            <= i64::MAX,
        Some(BinaryEval::SIntAdd) => lhs is SInt && rhs is SInt && i64::MIN <= lhs->SInt_0 + rhs->SInt_0
            <= i64::MAX,
        None => true,
    }
}

/// The result of applying the evaluation `e` to `lhs` and `rhs`.
pub open spec fn eval_result(e: Option<BinaryEval>, lhs: Value, rhs: Value) -> Result<Value, OpEvalError> {
    match e {
        Some(BinaryEval::SIntMul) => Ok(Value::SInt((lhs->SInt_0 * rhs->SInt_0) as i64)),
        Some(BinaryEval::SIntAdd) => Ok(Value::SInt((lhs->SInt_0 + rhs->SInt_0) as i64)),
        None => Err(OpEvalError::NotDefined),
    }
}

/// The evaluation recorded for `sig` in `evals`: that of its first entry.
pub open spec fn first_eval(evals: Seq<(BinarySig, BinaryEval)>, sig: BinarySig) -> Option<BinaryEval>
    decreases evals.len(),
{
    if evals.len() == 0 {
        None
    } else if evals[0].0 == sig {
        Some(evals[0].1)
    } else {
        first_eval(evals.drop_first(), sig)
    }
}

proof fn lemma_first_eval_update(evals: Seq<(BinarySig, BinaryEval)>, k: int, sig: BinarySig, e: BinaryEval, other: BinarySig)
    requires
        0 <= k < evals.len(),
        evals[k].0 == sig,
        forall|j: int| 0 <= j < k ==> (#[trigger] evals[j]).0 != sig,
    ensures
        first_eval(evals.update(k, (sig, e)), other) == if other == sig {
            Some(e)
        } else {
            first_eval(evals, other)
        },
    decreases k,
{
    let u = evals.update(k, (sig, e));
    if k == 0 {
        assert(u.drop_first() =~= evals.drop_first());
    } else {
        assert(evals[0].0 != sig);
        assert(u.drop_first() =~= evals.drop_first().update(k - 1, (sig, e)));
        assert forall|j: int| 0 <= j < k - 1 implies (#[trigger] evals.drop_first()[j]).0 != sig by {
            assert(evals.drop_first()[j] == evals[j + 1]);
        }
        lemma_first_eval_update(evals.drop_first(), k - 1, sig, e, other);
    }
}

proof fn lemma_first_eval_push(evals: Seq<(BinarySig, BinaryEval)>, sig: BinarySig, e: BinaryEval, other: BinarySig)
    requires
        forall|j: int| 0 <= j < evals.len() ==> (#[trigger] evals[j]).0 != sig,
    ensures
        first_eval(evals.push((sig, e)), other) == if other == sig {
            Some(e)
        } else {
            first_eval(evals, other)
        },
    decreases evals.len(),
{
    let u = evals.push((sig, e));
    if evals.len() == 0 {
        assert(u.drop_first() =~= Seq::<(BinarySig, BinaryEval)>::empty());
        assert(u[0] == (sig, e));
    } else {
        assert(u.drop_first() =~= evals.drop_first().push((sig, e)));
        assert forall|j: int| 0 <= j < evals.drop_first().len() implies (#[trigger] evals.drop_first()[j]).0
            != sig by {
            assert(evals.drop_first()[j] == evals[j + 1]);
        }
        lemma_first_eval_push(evals.drop_first(), sig, e, other);
        assert(u[0] == evals[0]);
        assert(evals[0].0 != sig);
        if evals[0].0 == other {
            assert(first_eval(u, other) == Some(evals[0].1));
        } else {
            assert(first_eval(u, other) == first_eval(u.drop_first(), other));
            assert(first_eval(evals, other) == first_eval(evals.drop_first(), other));
        }
    }
}

/// Definitions of one operator, by signature, in the order they were made,
/// and the evaluations set for binary signatures.
pub struct OpTableData {
    key: OpKey,
    nullary: Vec<RuntimeType>,
    unary: Vec<(RuntimeType, RuntimeType)>,
    binary: Vec<(RuntimeType, (RuntimeType, RuntimeType))>,
    binary_eval: Vec<(BinarySig, BinaryEval)>,
}

/// Handle of the definitions of one operator in an [`OpContext`].
#[derive(Copy, Clone, Debug, PartialEq, Eq, Structural)]
pub struct OpTable {
    id: usize,
}

/// The operators of a runtime.
pub struct OpContext {
    tables: Vec<OpTableData>,
}

/// Why an operator could not be chosen for a signature.
#[derive(Debug)]
pub enum OpLookupError {
    /// No definition matches.
    NotDefined,
    /// Several definitions match; they are listed.
    Ambiguous(Vec<Binary>),
}

impl OpTable {
    pub closed spec fn spec_id(&self) -> int {
        self.id as int
    }
}

/// Tables of the same index are the same table.
pub proof fn lemma_op_table_eq(a: OpTable, b: OpTable)
    requires
        a.spec_id() == b.spec_id(),
    ensures
        a == b,
{
}

impl OpContext {
    pub closed spec fn spec_len(&self) -> nat {
        self.tables@.len()
    }

    pub closed spec fn spec_key(&self, t: OpTable) -> (OpKindSpec, (Seq<u8>, u32)) {
        self.tables@[t.spec_id()].key@
    }

    /// Binary signatures `(out, lhs, rhs)` of a table, in definition order.
    pub closed spec fn spec_binary(&self, t: OpTable) -> Seq<(RuntimeType, RuntimeType, RuntimeType)> {
        self.tables@[t.spec_id()].binary@.map_values(
            |e: (RuntimeType, (RuntimeType, RuntimeType))| (e.0, e.1.0, e.1.1),
        )
    }

    /// Unary signatures `(out, arg)` of a table, in definition order.
    pub closed spec fn spec_unary(&self, t: OpTable) -> Seq<(RuntimeType, RuntimeType)> {
        self.tables@[t.spec_id()].unary@
    }

    /// Output types of the nullary definitions of a table.
    pub closed spec fn spec_nullary(&self, t: OpTable) -> Seq<RuntimeType> {
        self.tables@[t.spec_id()].nullary@
    }

    pub open spec fn has(&self, t: OpTable) -> bool {
        0 <= t.spec_id() < self.spec_len()
    }

    /// Evaluations set for the binary signatures of a table, first entry
    /// first.
    pub closed spec fn spec_evals(&self, t: OpTable) -> Seq<(BinarySig, BinaryEval)> {
        self.tables@[t.spec_id()].binary_eval@
    }

    /// How the binary definition of `t` with signature `sig` is evaluated;
    /// `None` when no evaluation was set for it.
    pub open spec fn spec_binary_eval(&self, t: OpTable, sig: BinarySig) -> Option<BinaryEval> {
        first_eval(self.spec_evals(t), sig)
    }

    /// No two tables have the same key.
    pub open spec fn wf(&self) -> bool {
        forall|u: OpTable, v: OpTable|
            self.has(u) && self.has(v) && #[trigger] self.spec_key(u) == #[trigger] self.spec_key(v) ==> u == v
    }

    proof fn lemma_same_keys_wf(&self, old: &OpContext, t: OpTable)
        requires
            old.wf(),
            self.same_except(old, t),
        ensures
            self.wf(),
    {
        assert forall|u: OpTable, v: OpTable|
            self.has(u) && self.has(v) && #[trigger] self.spec_key(u) == #[trigger] self.spec_key(v) implies u
            == v by {
            if u != t {
                assert(self.spec_binary(u) == old.spec_binary(u));
            }
            if v != t {
                assert(self.spec_binary(v) == old.spec_binary(v));
            }
            assert(old.spec_key(u) == self.spec_key(u));
            assert(old.spec_key(v) == self.spec_key(v));
        }
    }

    /// Other tables are unchanged.
    pub open spec fn same_except(&self, old: &OpContext, t: OpTable) -> bool {
        &&& self.spec_len() == old.spec_len()
        &&& forall|u: OpTable| old.has(u) && u != t ==> #[trigger] self.spec_binary(u) == old.spec_binary(u)
            && self.spec_unary(u) == old.spec_unary(u) && self.spec_nullary(u) == old.spec_nullary(u)
            && self.spec_key(u) == old.spec_key(u) && self.spec_evals(u) == old.spec_evals(u)
        &&& self.spec_key(t) == old.spec_key(t)
    }

    pub fn new() -> (r: OpContext)
        ensures
            r.spec_len() == 0,
            r.wf(),
    {
        OpContext { tables: Vec::new() }
    }

    /// The table of the operator `key`, made empty when there is none yet.
    #[verifier::spinoff_prover]
    #[verifier::rlimit(30)]
    pub fn get(&mut self, key: &OpKey) -> (r: OpTable)
        ensures
            old(self).wf() ==> final(self).wf(),
            old(self).wf() ==> forall|u: OpTable| #[trigger] old(self).has(u) && old(self).spec_key(u) == key@ ==> r == u,
            final(self).spec_evals(r) == (if final(self).spec_len() == old(self).spec_len() {
                old(self).spec_evals(r)
            } else {
                Seq::empty()
            }),
            forall|u: OpTable| #[trigger] old(self).has(u) ==> final(self).spec_evals(u) == old(self).spec_evals(u),
            final(self).has(r),
            final(self).spec_key(r) == key@,
            old(self).spec_len() <= final(self).spec_len() <= old(self).spec_len() + 1,
            forall|u: OpTable| #[trigger] old(self).has(u) ==> final(self).spec_binary(u) == old(self).spec_binary(u)
                && final(self).spec_unary(u) == old(self).spec_unary(u) && final(self).spec_nullary(u) == old(
                self,
            ).spec_nullary(u) && final(self).spec_key(u) == old(self).spec_key(u),
            final(self).spec_len() == old(self).spec_len() + 1 ==> tid_op(r) == old(self).spec_len()
                && final(self).spec_binary(r).len() == 0 && final(self).spec_unary(r).len() == 0
                && final(self).spec_nullary(r).len() == 0 && forall|u: OpTable| #[trigger] old(self).has(u)
                ==> old(self).spec_key(u) != key@,
    {
        let n = self.tables.len();
        let mut i: usize = 0;
        while i < n
            invariant
                0 <= i <= n,
                n == self.tables@.len(),
                forall|j: int| 0 <= j < i ==> #[trigger] self.tables@[j].key@ != key@,
            decreases n - i,
        {
            if self.tables[i].key.same(key) {
                let r = OpTable { id: i };
                assert(self.spec_key(r) == key@);
                return r;
            }
            i = i + 1;
        }
        self.tables.push(
            OpTableData {
                key: key.duplicate(),
                nullary: Vec::new(),
                unary: Vec::new(),
                binary: Vec::new(),
                binary_eval: Vec::new(),
            },
        );
        let r = OpTable { id: n };
        assert forall|u: OpTable| #[trigger] old(self).has(u) implies old(self).spec_key(u) != key@ by {
            assert(self.tables@[u.spec_id()].key@ != key@);
        }
        proof {
            if old(self).wf() {
                assert forall|u: OpTable, v: OpTable|
                    self.has(u) && self.has(v) && #[trigger] self.spec_key(u) == #[trigger] self.spec_key(v) implies u
                    == v by {
                    assert(self.spec_key(r) == key@);
                    if u.spec_id() < n && v.spec_id() < n {
                        assert(old(self).spec_key(u) == self.spec_key(u));
                        assert(old(self).spec_key(v) == self.spec_key(v));
                    } else if u.spec_id() < n {
                        assert(old(self).has(u));
                        assert(old(self).spec_key(u) == self.spec_key(u));
                    } else if v.spec_id() < n {
                        assert(old(self).has(v));
                        assert(old(self).spec_key(v) == self.spec_key(v));
                    }
                }
            }
        }
        r
    }

    /// The key of a table.
    pub fn key(&self, table: OpTable) -> (r: OpKey)
        requires
            self.has(table),
        ensures
            r@ == self.spec_key(table),
    {
        self.tables[table.id].key.duplicate()
    }

    /// The binary definition of `table` with the signature `(lhs, rhs) -> out`,
    /// made when there is none yet.
    #[verifier::spinoff_prover]
    #[verifier::rlimit(30)]
    pub fn define_binary(&mut self, table: OpTable, out: RuntimeType, args: (RuntimeType, RuntimeType)) -> (r: Binary)
        requires
            old(self).has(table),
        ensures
            final(self).same_except(old(self), table),
            final(self).spec_evals(table) == old(self).spec_evals(table),
            old(self).wf() ==> final(self).wf(),
            r.spec_sig() == (out, args.0, args.1),
            r.spec_table() == table,
            final(self).spec_unary(table) == old(self).spec_unary(table),
            final(self).spec_nullary(table) == old(self).spec_nullary(table),
            old(self).spec_binary(table).contains((out, args.0, args.1)) ==> final(self).spec_binary(table) == old(
                self,
            ).spec_binary(table),
            !old(self).spec_binary(table).contains((out, args.0, args.1)) ==> final(self).spec_binary(table) == old(
                self,
            ).spec_binary(table).push((out, args.0, args.1)),
    {
        let t = table.id;
        let n = self.tables[t].binary.len();
        let mut i: usize = 0;
        while i < n
            invariant
                0 <= i <= n,
                0 <= t < self.tables@.len(),
                t == table.spec_id(),
                n == self.spec_binary(table).len(),
                forall|j: int| 0 <= j < i ==> #[trigger] self.spec_binary(table)[j] != (out, args.0, args.1),
            decreases n - i,
        {
            let e = self.tables[t].binary[i];
            if e.0 == out && e.1.0 == args.0 && e.1.1 == args.1 {
                assert(self.spec_binary(table)[i as int] == (out, args.0, args.1));
                return Binary { table: t, index: i, out, lhs: args.0, rhs: args.1 };
            }
            i = i + 1;
        }
        let ghost old_sigs = self.spec_binary(table);
        assert(!old_sigs.contains((out, args.0, args.1)));
        let mut data = self.take_table(t);
        data.binary.push((out, args));
        self.put_table(t, data);
        proof {
            if old(self).wf() {
                assert(self.same_except(old(self), table));
                self.lemma_same_keys_wf(old(self), table);
            }
        }
        assert(self.spec_binary(table) =~= old_sigs.push((out, args.0, args.1)));
        Binary { table: t, index: n, out, lhs: args.0, rhs: args.1 }
    }

    /// The unary definition of `table` with the signature `arg -> out`, made
    /// when there is none yet.
    #[verifier::spinoff_prover]
    #[verifier::rlimit(30)]
    pub fn define_unary(&mut self, table: OpTable, out: RuntimeType, arg: RuntimeType) -> (r: Unary)
        requires
            old(self).has(table),
        ensures
            final(self).same_except(old(self), table),
            final(self).spec_evals(table) == old(self).spec_evals(table),
            old(self).wf() ==> final(self).wf(),
            r.spec_out() == out && r.spec_arg() == arg,
            old(self).spec_unary(table).contains((out, arg)) ==> final(self).spec_unary(table) == old(self).spec_unary(
                table,
            ),
            !old(self).spec_unary(table).contains((out, arg)) ==> final(self).spec_unary(table) == old(
                self,
            ).spec_unary(table).push((out, arg)),
    {
        let t = table.id;
        let n = self.tables[t].unary.len();
        let mut i: usize = 0;
        while i < n
            invariant
                0 <= i <= n,
                0 <= t < self.tables@.len(),
                t == table.spec_id(),
                n == self.spec_unary(table).len(),
                forall|j: int| 0 <= j < i ==> #[trigger] self.spec_unary(table)[j] != (out, arg),
            decreases n - i,
        {
            let e = self.tables[t].unary[i];
            if e.0 == out && e.1 == arg {
                assert(self.spec_unary(table)[i as int] == (out, arg));
                return Unary { table: t, index: i, out, arg };
            }
            i = i + 1;
        }
        let ghost old_sigs = self.spec_unary(table);
        let mut data = self.take_table(t);
        data.unary.push((out, arg));
        self.put_table(t, data);
        proof {
            if old(self).wf() {
                assert(self.same_except(old(self), table));
                self.lemma_same_keys_wf(old(self), table);
            }
        }
        Unary { table: t, index: n, out, arg }
    }

    /// The nullary definition of `table` with output `out`, made when there is
    /// none yet.
    #[verifier::spinoff_prover]
    #[verifier::rlimit(30)]
    pub fn define_nullary(&mut self, table: OpTable, out: RuntimeType) -> (r: Nullary)
        requires
            old(self).has(table),
        ensures
            final(self).same_except(old(self), table),
            final(self).spec_evals(table) == old(self).spec_evals(table),
            old(self).wf() ==> final(self).wf(),
            r.spec_out() == out,
            old(self).spec_nullary(table).contains(out) ==> final(self).spec_nullary(table) == old(self).spec_nullary(
                table,
            ),
            !old(self).spec_nullary(table).contains(out) ==> final(self).spec_nullary(table) == old(
                self,
            ).spec_nullary(table).push(out),
    {
        let t = table.id;
        let n = self.tables[t].nullary.len();
        let mut i: usize = 0;
        while i < n
            invariant
                0 <= i <= n,
                0 <= t < self.tables@.len(),
                t == table.spec_id(),
                n == self.spec_nullary(table).len(),
                forall|j: int| 0 <= j < i ==> #[trigger] self.spec_nullary(table)[j] != out,
            decreases n - i,
        {
            let e = self.tables[t].nullary[i];
            if e == out {
                assert(self.spec_nullary(table)[i as int] == out);
                return Nullary { table: t, index: i, out };
            }
            i = i + 1;
        }
        let mut data = self.take_table(t);
        data.nullary.push(out);
        self.put_table(t, data);
        proof {
            if old(self).wf() {
                assert(self.same_except(old(self), table));
                self.lemma_same_keys_wf(old(self), table);
            }
        }
        Nullary { table: t, index: n, out }
    }

    /// The evaluation set for the binary definition `op`.
    fn find_binary_eval(&self, op: Binary) -> (r: Option<BinaryEval>)
        requires
            self.has(op.spec_table()),
        ensures
            r == self.spec_binary_eval(op.spec_table(), op.spec_sig()),
    {
        let t = op.table;
        let sig: BinarySig = (op.out, op.lhs, op.rhs);
        let ghost evals = self.spec_evals(op.spec_table());
        let n = self.tables[t].binary_eval.len();
        let mut k: usize = 0;
        assert(evals.skip(0) =~= evals);
        while k < n
            invariant
                0 <= k <= n,
                0 <= t < self.tables@.len(),
                evals == self.tables@[t as int].binary_eval@,
                n == evals.len(),
                first_eval(evals, sig) == first_eval(evals.skip(k as int), sig),
                sig == op.spec_sig(),
                t == op.spec_table().spec_id(),
                evals == self.spec_evals(op.spec_table()),
            decreases n - k,
        {
            let e = self.tables[t].binary_eval[k];
            if (e.0).0 == sig.0 && (e.0).1 == sig.1 && (e.0).2 == sig.2 {
                assert(evals.skip(k as int)[0] == e);
                assert(e.0 == sig);
                assert(first_eval(evals.skip(k as int), sig) == Some(e.1));
                return Some(e.1);
            }
            assert(evals.skip(k as int).drop_first() =~= evals.skip(k + 1));
            k = k + 1;
        }
        None
    }

    /// Sets how the binary definition `op` is evaluated.
    #[verifier::spinoff_prover]
    #[verifier::rlimit(30)]
    pub fn set_binary_eval(&mut self, op: Binary, eval: BinaryEval)
        requires
            old(self).has(op.spec_table()),
        ensures
            final(self).same_except(old(self), op.spec_table()),
            final(self).spec_binary(op.spec_table()) == old(self).spec_binary(op.spec_table()),
            final(self).spec_unary(op.spec_table()) == old(self).spec_unary(op.spec_table()),
            final(self).spec_nullary(op.spec_table()) == old(self).spec_nullary(op.spec_table()),
            final(self).spec_binary_eval(op.spec_table(), op.spec_sig()) == Some(eval),
            forall|sig: BinarySig| sig != op.spec_sig() ==> #[trigger] final(self).spec_binary_eval(op.spec_table(), sig)
                == old(self).spec_binary_eval(op.spec_table(), sig),
            old(self).wf() ==> final(self).wf(),
    {
        let t = op.table;
        let sig: BinarySig = (op.out, op.lhs, op.rhs);
        let ghost evals = self.spec_evals(op.spec_table());
        let n = self.tables[t].binary_eval.len();
        let mut k: usize = 0;
        while k < n
            invariant
                0 <= k <= n,
                0 <= t < self.tables@.len(),
                evals == self.tables@[t as int].binary_eval@,
                n == evals.len(),
                forall|j: int| 0 <= j < k ==> (#[trigger] evals[j]).0 != sig,
            ensures
                0 <= k <= n,
                k < n ==> evals[k as int].0 == sig,
                forall|j: int| 0 <= j < k ==> (#[trigger] evals[j]).0 != sig,
            decreases n - k,
        {
            let e = self.tables[t].binary_eval[k].0;
            if e.0 == sig.0 && e.1 == sig.1 && e.2 == sig.2 {
                break;
            }
            k = k + 1;
        }
        let mut data = self.take_table(t);
        if k < n {
            data.binary_eval.set(k, (sig, eval));
            proof {
                assert forall|other: BinarySig| #[trigger] first_eval(data.binary_eval@, other) == if other == sig {
                    Some(eval)
                } else {
                    first_eval(evals, other)
                } by {
                    lemma_first_eval_update(evals, k as int, sig, eval, other);
                }
            }
        } else {
            data.binary_eval.push((sig, eval));
            proof {
                assert forall|other: BinarySig| #[trigger] first_eval(data.binary_eval@, other) == if other == sig {
                    Some(eval)
                } else {
                    first_eval(evals, other)
                } by {
                    lemma_first_eval_push(evals, sig, eval, other);
                }
            }
        }
        self.put_table(t, data);
        proof {
            assert(self.tables@ =~= old(self).tables@.update(t as int, data));
            assert(first_eval(data.binary_eval@, sig) == Some(eval));
            if old(self).wf() {
                self.lemma_same_keys_wf(old(self), op.spec_table());
            }
        }
    }

    fn take_table(&mut self, t: usize) -> (r: OpTableData)
        requires
            t < old(self).tables@.len(),
        ensures
            r == old(self).tables@[t as int],
            final(self).tables@ == old(self).tables@.remove(t as int),
    {
        self.tables.remove(t)
    }

    fn put_table(&mut self, t: usize, data: OpTableData)
        requires
            t <= old(self).tables@.len(),
        ensures
            final(self).tables@ == old(self).tables@.insert(t as int, data),
    {
        self.tables.insert(t, data);
    }

    /// The nullary definitions whose output fits where `op_out` is expected.
    #[verifier::spinoff_prover]
    #[verifier::rlimit(30)]
    pub fn get_nullary(&self, table: OpTable, op_out: RuntimeType, types: &RuntimeTypeContext) -> (r: Vec<Nullary>)
        requires
            self.has(table),
            types.wf(),
            types.has(op_out),
            forall|i: int| 0 <= i < self.spec_nullary(table).len() ==> types.has(#[trigger] self.spec_nullary(table)[i]),
        ensures
            nullary_outs(r@) == self.spec_nullary(table).filter(nullary_fits(types.kinds(), op_out)),
    {
        let t = table.id;
        let n = self.tables[t].nullary.len();
        let ghost pred = nullary_fits(types.kinds(), op_out);
        let mut list: Vec<Nullary> = Vec::new();
        let mut i: usize = 0;
        while i < n
            invariant
                0 <= i <= n,
                0 <= t < self.tables@.len(),
                t == table.spec_id(),
                n == self.spec_nullary(table).len(),
                types.wf(),
                types.has(op_out),
                forall|j: int| 0 <= j < n ==> types.has(#[trigger] self.spec_nullary(table)[j]),
                pred == nullary_fits(types.kinds(), op_out),
                nullary_outs(list@) == self.spec_nullary(table).take(i as int).filter(pred),
            decreases n - i,
        {
            let out = self.tables[t].nullary[i];
            assert(self.spec_nullary(table)[i as int] == out);
            let ghost before = list@;
            proof {
                lemma_filter_step(self.spec_nullary(table), i as int, pred);
            }
            if op_out.contains(out, types) {
                list.push(Nullary { table: t, index: i, out });
                assert(nullary_outs(list@) =~= nullary_outs(before).push(out));
            }
            i = i + 1;
        }
        assert(self.spec_nullary(table).take(n as int) =~= self.spec_nullary(table));
        list
    }

    /// The unary definitions whose output fits where `op_out` is expected and
    /// whose argument type contains `op_arg`.
    #[verifier::spinoff_prover]
    #[verifier::rlimit(30)]
    pub fn get_unary(&self, table: OpTable, op_out: RuntimeType, op_arg: RuntimeType, types: &RuntimeTypeContext) -> (r: Vec<Unary>)
        requires
            self.has(table),
            types.wf(),
            types.has(op_out),
            types.has(op_arg),
            forall|i: int| 0 <= i < self.spec_unary(table).len() ==> types.has(#[trigger] self.spec_unary(table)[i].0)
                && types.has(self.spec_unary(table)[i].1),
        ensures
            unary_sigs(r@) == self.spec_unary(table).filter(unary_fits(types.kinds(), op_out, op_arg)),
    {
        let t = table.id;
        let n = self.tables[t].unary.len();
        assert(n == self.spec_unary(table).len());
        assert(forall|j: int| 0 <= j < n ==> types.has(#[trigger] self.spec_unary(table)[j].0) && types.has(
            self.spec_unary(table)[j].1,
        ));
        let ghost pred = unary_fits(types.kinds(), op_out, op_arg);
        let mut list: Vec<Unary> = Vec::new();
        let mut i: usize = 0;
        while i < n
            invariant
                0 <= i <= n,
                0 <= t < self.tables@.len(),
                t == table.spec_id(),
                n == self.spec_unary(table).len(),
                types.wf(),
                types.has(op_out),
                types.has(op_arg),
                forall|j: int| 0 <= j < n ==> types.has(#[trigger] self.spec_unary(table)[j].0) && types.has(
                    self.spec_unary(table)[j].1,
                ),
                pred == unary_fits(types.kinds(), op_out, op_arg),
                unary_sigs(list@) == self.spec_unary(table).take(i as int).filter(pred),
            decreases n - i,
        {
            let (out, arg) = self.tables[t].unary[i];
            assert(self.spec_unary(table)[i as int] == (out, arg));
            let ghost before = list@;
            proof {
                lemma_filter_step(self.spec_unary(table), i as int, pred);
                assert(types.has(self.spec_unary(table)[i as int].0));
            }
            if op_out.contains(out, types) && arg.contains(op_arg, types) {
                list.push(Unary { table: t, index: i, out, arg });
                assert(unary_sigs(list@) =~= unary_sigs(before).push((out, arg)));
            }
            i = i + 1;
        }
        assert(self.spec_unary(table).take(n as int) =~= self.spec_unary(table));
        list
    }

    /// The binary definitions that match `out` and `args`, in definition
    /// order.
    #[verifier::spinoff_prover]
    #[verifier::rlimit(30)]
    pub fn matching_binary(&self, table: OpTable, out: RuntimeType, args: (RuntimeType, RuntimeType), types: &RuntimeTypeContext) -> (r: Vec<Binary>)
        requires
            self.has(table),
            types.wf(),
            types.has(out),
            types.has(args.0),
            types.has(args.1),
            self.types_known(table, types),
        ensures
            binary_sigs(r@) == self.spec_binary(table).filter(binary_fits(types.kinds(), out, args)),
            forall|i: int| 0 <= i < r@.len() ==> types.has(#[trigger] r@[i].spec_out()) && types.has(r@[i].spec_lhs())
                && types.has(r@[i].spec_rhs()),
            forall|i: int| 0 <= i < r@.len() ==> (#[trigger] r@[i]).spec_table() == table,
    {
        let t = table.id;
        let n = self.tables[t].binary.len();
        let ghost pred = binary_fits(types.kinds(), out, args);
        let mut list: Vec<Binary> = Vec::new();
        let mut i: usize = 0;
        while i < n
            invariant
                0 <= i <= n,
                0 <= t < self.tables@.len(),
                t == table.spec_id(),
                n == self.spec_binary(table).len(),
                types.wf(),
                types.has(out),
                types.has(args.0),
                types.has(args.1),
                self.types_known(table, types),
                pred == binary_fits(types.kinds(), out, args),
                binary_sigs(list@) == self.spec_binary(table).take(i as int).filter(pred),
                forall|j: int| 0 <= j < list@.len() ==> types.has(#[trigger] list@[j].spec_out()) && types.has(list@[j].spec_lhs())
                    && types.has(list@[j].spec_rhs()),
                forall|j: int| 0 <= j < list@.len() ==> (#[trigger] list@[j]).spec_table() == table,
            decreases n - i,
        {
            let (o, (l, r)) = self.tables[t].binary[i];
            assert(self.spec_binary(table)[i as int] == (o, l, r));
            assert(types.has(self.spec_binary(table)[i as int].0));
            assert(types.has(self.spec_binary(table)[i as int].1));
            assert(types.has(self.spec_binary(table)[i as int].2));
            let op = Binary { table: t, index: i, out: o, lhs: l, rhs: r };
            assert(op.spec_table() == table);
            let ghost before = list@;
            proof {
                lemma_filter_step(self.spec_binary(table), i as int, pred);
            }
            if op.matches(out, args, types) {
                list.push(op);
                assert(binary_sigs(list@) =~= binary_sigs(before).push((o, l, r)));
                assert forall|j: int| 0 <= j < list@.len() implies types.has(#[trigger] list@[j].spec_out())
                    && types.has(list@[j].spec_lhs()) && types.has(list@[j].spec_rhs()) by {
                    if j < before.len() {
                        assert(list@[j] == before[j]);
                    }
                }
                assert forall|j: int| 0 <= j < list@.len() implies (#[trigger] list@[j]).spec_table() == table by {
                    if j < before.len() {
                        assert(list@[j] == before[j]);
                    }
                }
            }
            assert(forall|j: int| 0 <= j < list@.len() ==> types.has(#[trigger] list@[j].spec_out()) && types.has(list@[j].spec_lhs())
                    && types.has(list@[j].spec_rhs()));
            i = i + 1;
        }
        assert(self.spec_binary(table).take(n as int) =~= self.spec_binary(table));
        list
    }

    /// Every type of the binary definitions of `table` is a type of `types`.
    pub open spec fn types_known(&self, table: OpTable, types: &RuntimeTypeContext) -> bool {
        forall|i: int| 0 <= i < self.spec_binary(table).len() ==> types.has(#[trigger] self.spec_binary(table)[i].0)
            && types.has(self.spec_binary(table)[i].1) && types.has(self.spec_binary(table)[i].2)
    }

    /// The single binary definition that matches `out` and `args`; an error
    /// when there is none, or more than one.
    pub fn get_binary(&self, table: OpTable, out: RuntimeType, args: (RuntimeType, RuntimeType), types: &RuntimeTypeContext) -> (r: Result<Binary, OpLookupError>)
        requires
            self.has(table),
            types.wf(),
            types.has(out),
            types.has(args.0),
            types.has(args.1),
            self.types_known(table, types),
        ensures
            ({
                let found = self.spec_binary(table).filter(binary_fits(types.kinds(), out, args));
                &&& (found.len() == 0) == (r is Err && r->Err_0 is NotDefined)
                &&& (found.len() == 1) == (r is Ok)
                &&& (r is Ok ==> r->Ok_0.spec_sig() == found[0] && r->Ok_0.spec_table() == table)
                &&& (found.len() > 1) == (r is Err && r->Err_0 is Ambiguous)
                &&& (r is Err && r->Err_0 is Ambiguous ==> binary_sigs(r->Err_0->Ambiguous_0@) == found)
            }),
    {
        let list = self.matching_binary(table, out, args, types);
        let ghost found = binary_sigs(list@);
        if list.len() == 0 {
            Err(OpLookupError::NotDefined)
        } else if list.len() == 1 {
            assert(found[0] == list@[0].spec_sig());
            Ok(list[0])
        } else {
            Err(OpLookupError::Ambiguous(list))
        }
    }

    /// The sum of the outputs of the binary definitions that match `out` and
    /// `args`, taken in definition order starting from the none type.
    #[verifier::spinoff_prover]
    #[verifier::rlimit(30)]
    pub fn get_binary_output(&self, table: OpTable, out: RuntimeType, args: (RuntimeType, RuntimeType), types: &mut RuntimeTypeContext) -> (r: RuntimeType)
        requires
            self.has(table),
            old(types).wf(),
            old(types).has(out),
            old(types).has(args.0),
            old(types).has(args.1),
            self.types_known(table, old(types)),
        ensures
            final(types).wf(),
            final(types).extends(old(types)),
            final(types).has(r),
            output_fold(
                final(types).kinds(),
                self.spec_binary(table).filter(binary_fits(old(types).kinds(), out, args)).map_values(
                    |s: (RuntimeType, RuntimeType, RuntimeType)| s.0,
                ),
                r,
            ),
    {
        let list = self.matching_binary(table, out, args, types);
        let ghost outs = list@.map_values(|b: Binary| b.spec_out());
        let ghost k0 = types.kinds();
        proof {
            lemma_wf_kinds(types);
        }
        let mut op_out = types.none();
        let ghost mut accs: Seq<RuntimeType> = seq![op_out];
        let mut i: usize = 0;
        assert(outs.take(0) =~= Seq::<RuntimeType>::empty());
        while i < list.len()
            invariant
                0 <= i <= list@.len(),
                types.wf(),
                types.extends(old(types)),
                types.has(op_out),
                outs == list@.map_values(|b: Binary| b.spec_out()),
                forall|j: int| 0 <= j < list@.len() ==> #[trigger] old(types).has(list@[j].spec_out()),
                output_chain(types.kinds(), outs.take(i as int), accs),
                accs.last() == op_out,
            decreases list@.len() - i,
        {
            let o = list[i].out();
            let ghost k1 = types.kinds();
            let ghost prev = op_out;
            proof {
                lemma_wf_kinds(types);
                assert(old(types).has(list@[i as int].spec_out()));
            }
            op_out = op_out.sum(o, types);
            proof {
                assert forall|j: int| 0 <= j < outs.take(i as int).len() implies 0 <= tid(#[trigger] outs.take(i as int)[j]) < k1.len() by {
                    assert(outs.take(i as int)[j] == list@[j].spec_out());
                    assert(old(types).has(list@[j].spec_out()));
                }
                lemma_output_chain_extend(k1, types.kinds(), outs.take(i as int), accs);
                let new_accs = accs.push(op_out);
                assert(outs.take(i + 1) =~= outs.take(i as int).push(o));
                assert forall|j: int| 0 <= j < new_accs.len() implies 0 <= #[trigger] tid(new_accs[j]) < types.kinds().len() by {
                    if j < accs.len() {
                        assert(new_accs[j] == accs[j]);
                    }
                }
                assert forall|j: int| 0 <= j < outs.take(i + 1).len() implies #[trigger] sum_spec(types.kinds(), new_accs[j], outs.take(i + 1)[j], new_accs[j + 1]) by {
                    if j < i {
                        assert(new_accs[j] == accs[j]);
                        assert(new_accs[j + 1] == accs[j + 1]);
                        assert(outs.take(i + 1)[j] == outs.take(i as int)[j]);
                    } else {
                        assert(new_accs[j] == prev);
                    }
                }
                accs = new_accs;
            }
            i = i + 1;
        }
        proof {
            assert(outs.take(list@.len() as int) =~= outs);
            let f = self.spec_binary(table).filter(binary_fits(old(types).kinds(), out, args));
            assert(outs =~= f.map_values(|s: (RuntimeType, RuntimeType, RuntimeType)| s.0));
            assert(output_chain(types.kinds(), outs, accs));
        }
        op_out
    }
}

/// Output types of a list of nullary operators.
pub open spec fn nullary_outs(s: Seq<Nullary>) -> Seq<RuntimeType> {
    s.map_values(|n: Nullary| n.spec_out())
}

/// Signatures `(out, arg)` of a list of unary operators.
pub open spec fn unary_sigs(s: Seq<Unary>) -> Seq<(RuntimeType, RuntimeType)> {
    s.map_values(|u: Unary| (u.spec_out(), u.spec_arg()))
}

/// Signatures `(out, lhs, rhs)` of a list of binary operators.
pub open spec fn binary_sigs(s: Seq<Binary>) -> Seq<(RuntimeType, RuntimeType, RuntimeType)> {
    s.map_values(|b: Binary| b.spec_sig())
}

/// A nullary output fits where `op_out` is expected.
pub open spec fn nullary_fits(k: Seq<crate::runtime_types::TypeKind>, op_out: RuntimeType) -> spec_fn(RuntimeType) -> bool {
    |o: RuntimeType| spec_contains(k, tid(op_out), tid(o))
}

/// A unary signature fits where `op_out` is expected, for an argument of
/// type `op_arg`.
pub open spec fn unary_fits(
    k: Seq<crate::runtime_types::TypeKind>,
    op_out: RuntimeType,
    op_arg: RuntimeType,
) -> spec_fn((RuntimeType, RuntimeType)) -> bool {
    |s: (RuntimeType, RuntimeType)| spec_contains(k, tid(op_out), tid(s.0)) && spec_contains(k, tid(s.1), tid(op_arg))
}

/// A binary signature fits where `out` is expected, for arguments `args`.
pub open spec fn binary_fits(
    k: Seq<crate::runtime_types::TypeKind>,
    out: RuntimeType,
    args: (RuntimeType, RuntimeType),
) -> spec_fn((RuntimeType, RuntimeType, RuntimeType)) -> bool {
    |s: (RuntimeType, RuntimeType, RuntimeType)| binary_matches(k, s, out, args)
}

pub open spec fn tid_op(t: OpTable) -> int {
    t.spec_id()
}

/// `accs` are the partial sums of `outs` taken in order, starting from the
/// none type: each is the sum of the one before and the next output.
pub open spec fn output_chain(k: Seq<crate::runtime_types::TypeKind>, outs: Seq<RuntimeType>, accs: Seq<RuntimeType>) -> bool {
    &&& accs.len() == outs.len() + 1
    &&& tid(accs[0]) == NONE_ID
    &&& forall|i: int| 0 <= i < accs.len() ==> 0 <= #[trigger] tid(accs[i]) < k.len()
    &&& forall|i: int| 0 <= i < outs.len() ==> #[trigger] sum_spec(k, accs[i], outs[i], accs[i + 1])
}

/// `r` is the sum of `outs` taken in order, starting from the none type.
pub open spec fn output_fold(k: Seq<crate::runtime_types::TypeKind>, outs: Seq<RuntimeType>, r: RuntimeType) -> bool {
    exists|accs: Seq<RuntimeType>| #[trigger] output_chain(k, outs, accs) && accs.last() == r
}

pub proof fn lemma_output_chain_extend(
    a: Seq<crate::runtime_types::TypeKind>,
    b: Seq<crate::runtime_types::TypeKind>,
    outs: Seq<RuntimeType>,
    accs: Seq<RuntimeType>,
)
    requires
        a.len() <= b.len(),
        forall|i: int| 0 <= i < a.len() ==> #[trigger] b[i] == a[i],
        forall|i: int| 0 <= i < a.len() ==> #[trigger] kind_ok(a, i),
        forall|i: int| 0 <= i < outs.len() ==> 0 <= tid(#[trigger] outs[i]) < a.len(),
        output_chain(a, outs, accs),
    ensures
        output_chain(b, outs, accs),
{
    assert forall|i: int| 0 <= i < outs.len() implies #[trigger] sum_spec(b, accs[i], outs[i], accs[i + 1]) by {
        assert(sum_spec(a, accs[i], outs[i], accs[i + 1]));
        assert(0 <= tid(accs[i]) < a.len());
        lemma_sum_spec_extend(a, b, accs[i], outs[i], accs[i + 1]);
    }
}

/// Filtering the first `i + 1` items adds the item at `i` when it passes.
pub proof fn lemma_filter_step<A>(s: Seq<A>, i: int, pred: spec_fn(A) -> bool)
    requires
        0 <= i < s.len(),
    ensures
        s.take(i + 1).filter(pred) == (if pred(s[i]) {
            s.take(i).filter(pred).push(s[i])
        } else {
            s.take(i).filter(pred)
        }),
{
    reveal_with_fuel(Seq::filter, 1);
    assert(s.take(i + 1).drop_last() =~= s.take(i));
    assert(s.take(i + 1).last() == s[i]);
}
/// The table `t` holds the same key, definitions and evaluations in `a`
/// and `b`.
pub open spec fn same_table(a: OpContext, b: OpContext, t: OpTable) -> bool {
    &&& b.spec_key(t) == a.spec_key(t)
    &&& b.spec_binary(t) == a.spec_binary(t)
    &&& b.spec_unary(t) == a.spec_unary(t)
    &&& b.spec_nullary(t) == a.spec_nullary(t)
    &&& b.spec_evals(t) == a.spec_evals(t)
}

/// `b` is `a` after the binary definition `sig` of the operator `key` was
/// made in the table `t`, when missing, and set to be evaluated by `e`. The
/// table is the one of `key` in `a`, or else a new one after all others,
/// with no definition before. Its binary signatures are those it had, with
/// `sig` added last when missing; `sig` is evaluated by `e` and the other
/// signatures as before; every other table is unchanged.
pub open spec fn binary_defined_in(
    a: OpContext,
    b: OpContext,
    t: OpTable,
    key: (OpKindSpec, (Seq<u8>, u32)),
    sig: BinarySig,
    e: BinaryEval,
) -> bool {
    let had = a.has(t);
    let before = if had { a.spec_binary(t) } else { Seq::empty() };
    &&& b.has(t)
    &&& b.spec_key(t) == key
    &&& had ==> a.spec_key(t) == key
    &&& b.spec_len() == (if had { a.spec_len() } else { a.spec_len() + 1 })
    &&& !had ==> tid_op(t) == a.spec_len() && forall|u: OpTable| #[trigger] a.has(u) ==> a.spec_key(u) != key
    &&& b.spec_binary(t) == (if before.contains(sig) { before } else { before.push(sig) })
    &&& b.spec_unary(t) == (if had { a.spec_unary(t) } else { Seq::empty() })
    &&& b.spec_nullary(t) == (if had { a.spec_nullary(t) } else { Seq::empty() })
    &&& b.spec_binary_eval(t, sig) == Some(e)
    &&& forall|s: BinarySig| s != sig ==> #[trigger] b.spec_binary_eval(t, s) == (if had {
        a.spec_binary_eval(t, s)
    } else {
        None
    })
    &&& forall|u: OpTable| a.has(u) && u != t ==> #[trigger] same_table(a, b, u)
}

/// `b` is `a` after the binary definition `sig` of the operator `key` was
/// made, when missing, and set to be evaluated by `e`; see
/// [`binary_defined_in`].
pub open spec fn binary_defined(
    a: OpContext,
    b: OpContext,
    key: (OpKindSpec, (Seq<u8>, u32)),
    sig: BinarySig,
    e: BinaryEval,
) -> bool {
    exists|t: OpTable| #[trigger] binary_defined_in(a, b, t, key, sig, e)
}

/// Two different builtin types (string, boolean, signed or unsigned
/// integer) do not contain one another.
pub proof fn lemma_builtins_apart(k: Seq<crate::runtime_types::TypeKind>, x: int, y: int)
    requires
        0 <= x < k.len(),
        0 <= y < k.len(),
        k[x] is Builtin,
        k[y] is Builtin,
        x != y,
    ensures
        !spec_contains(k, x, y),
{
}

/// A definition matches only where its output fits the expected type and
/// each argument fits its parameter: where a parameter and its argument,
/// or the expected type and the output, are builtin types, they are the
/// same type.
pub proof fn lemma_match_builtin_exact(
    k: Seq<crate::runtime_types::TypeKind>,
    sig: (RuntimeType, RuntimeType, RuntimeType),
    want: RuntimeType,
    args: (RuntimeType, RuntimeType),
)
    requires
        binary_matches(k, sig, want, args),
    ensures
        0 <= tid(sig.1) < k.len() && 0 <= tid(args.0) < k.len(),
        0 <= tid(sig.2) < k.len() && 0 <= tid(args.1) < k.len(),
        0 <= tid(want) < k.len() && 0 <= tid(sig.0) < k.len(),
        k[tid(sig.1)] is Builtin && k[tid(args.0)] is Builtin ==> tid(sig.1) == tid(args.0),
        k[tid(sig.2)] is Builtin && k[tid(args.1)] is Builtin ==> tid(sig.2) == tid(args.1),
        k[tid(want)] is Builtin && k[tid(sig.0)] is Builtin ==> tid(want) == tid(sig.0),
{
}

/// A lookup in a table finds no definition when the right argument is of a
/// builtin type and every binary signature of the table takes another
/// builtin type on the right.
pub proof fn lemma_lookup_rhs_mismatch(
    ops: OpContext,
    table: OpTable,
    k: Seq<crate::runtime_types::TypeKind>,
    out: RuntimeType,
    args: (RuntimeType, RuntimeType),
)
    requires
        0 <= tid(args.1) < k.len(),
        k[tid(args.1)] is Builtin,
        forall|i: int|
            0 <= i < ops.spec_binary(table).len() ==> {
                let r = tid((#[trigger] ops.spec_binary(table)[i]).2);
                0 <= r < k.len() && k[r] is Builtin && r != tid(args.1)
            },
    ensures
        ops.spec_binary(table).filter(binary_fits(k, out, args)).len() == 0,
{
    let sigs = ops.spec_binary(table);
    let pred = binary_fits(k, out, args);
    assert forall|i: int| 0 <= i < sigs.len() implies !pred(#[trigger] sigs[i]) by {
        if pred(sigs[i]) {
            lemma_match_builtin_exact(k, sigs[i], out, args);
        }
    }
    lemma_filter_none(sigs, pred);
}

/// A filter keeps nothing of a sequence none of whose items is kept.
proof fn lemma_filter_none<A>(s: Seq<A>, pred: spec_fn(A) -> bool)
    requires
        forall|i: int| 0 <= i < s.len() ==> !pred(#[trigger] s[i]),
    ensures
        s.filter(pred).len() == 0,
    decreases s.len(),
{
    reveal(Seq::filter);
    if s.len() > 0 {
        assert forall|i: int| 0 <= i < s.drop_last().len() implies !pred(#[trigger] s.drop_last()[i]) by {
            assert(s.drop_last()[i] == s[i]);
        }
        lemma_filter_none(s.drop_last(), pred);
        assert(!pred(s.last()));
    }
}

} // verus!
