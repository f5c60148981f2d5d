use vstd::prelude::*;

pub mod arity;
pub mod kind;
pub mod matching;
pub mod writer;
pub mod symbol;
pub mod source;
pub mod lexer;
pub mod runtime_types;
pub mod types;
pub mod ops;
pub mod text;
pub mod result;
pub mod mem;
pub mod code;
pub mod context;
pub mod eval;
pub mod nodes;
pub mod evaluators;
pub mod binding;
pub mod vars;
pub mod expr;
pub mod typing;

use crate::context::Context;
use crate::lexer::{DefaultGrammar, Lexer};
use crate::ops::{binary_fits, lemma_lookup_rhs_mismatch, lemma_op_table_eq, tid_op, binary_defined, binary_defined_in, op_add, op_mul, same_table, BinaryEval, BinarySig, OpContext, OpKey, OpKindSpec, OpTable};
use crate::result::Result;
use crate::runtime_types::{lemma_runtime_type_of, lemma_tid_injective, tid, RuntimeType, TypeKind, SINT_ID};

verus! {

/// Version string of the library.
pub fn version() -> (v: &'static str)
    ensures
        v@ == "0.1.0"@,
{
    "0.1.0"
}

/// Order in which the rules of the language apply, first to last.
#[derive(Copy, Clone, Debug, PartialEq, Eq, Structural, PartialOrd, Ord, Hash)]
pub enum Precedence {
    First,
    LineSplit,
    Indent,
    Let,
    BlockParse,
    VarBinding,
    OpIn,
    OpRange,
    OpAdd,
    OpMul,
    Print,
    BlockEval,
    Output,
    Last,
}

/// The symbols of the language: brackets `( ) [ ] { } < >`, punctuation
/// `, ; . : ..` and operators `+ - * / =`, as bytes.
pub open spec fn core_symbols() -> Set<Seq<u8>> {
    core_symbol_list().to_set()
}

/// Key of the core operator written `bytes`.
pub open spec fn core_key(bytes: Seq<u8>) -> (OpKindSpec, (Seq<u8>, u32)) {
    (OpKindSpec::Core, (bytes, 0u32))
}

/// The signature `(sint, sint) -> sint` of the signed integer operators.
pub open spec fn sint_sig() -> BinarySig {
    let t = RuntimeType::spec_of(SINT_ID);
    (t, t, t)
}

/// The operators of `new` are those of `old` after `*` and then `+` were
/// defined on signed integers, as their product and their sum; see
/// [`binary_defined`].
pub open spec fn core_ops_defined(old: OpContext, new: OpContext) -> bool {
    exists|mid: OpContext|
        binary_defined(old, mid, core_key(seq![42u8]), sint_sig(), BinaryEval::SIntMul) && #[trigger] binary_defined(
            mid,
            new,
            core_key(seq![43u8]),
            sint_sig(),
            BinaryEval::SIntAdd,
        )
}

/// On a context without operators, [`init_context`] leaves two operator
/// tables, `*` and `+`, and no other: each has the one binary signature
/// `(sint, sint) -> sint` and no unary or nullary one, and evaluates it as
/// the product and the sum.
pub proof fn lemma_core_ops_fresh(old: OpContext, new: OpContext)
    requires
        old.spec_len() == 0,
        core_ops_defined(old, new),
    ensures
        new.spec_len() == 2,
        exists|tm: OpTable, ta: OpTable|
            {
                &&& new.has(tm) && new.has(ta)
                &&& forall|u: OpTable| new.has(u) ==> u == tm || u == ta
                &&& new.spec_key(tm) == core_key(seq![42u8])
                &&& new.spec_key(ta) == core_key(seq![43u8])
                &&& new.spec_binary(tm) == seq![sint_sig()]
                &&& new.spec_binary(ta) == seq![sint_sig()]
                &&& new.spec_unary(tm).len() == 0 && new.spec_nullary(tm).len() == 0
                &&& new.spec_unary(ta).len() == 0 && new.spec_nullary(ta).len() == 0
                &&& new.spec_binary_eval(tm, sint_sig()) == Some(BinaryEval::SIntMul)
                &&& new.spec_binary_eval(ta, sint_sig()) == Some(BinaryEval::SIntAdd)
            },
{
    let mid = choose|mid: OpContext|
        binary_defined(old, mid, core_key(seq![42u8]), sint_sig(), BinaryEval::SIntMul) && #[trigger] binary_defined(
            mid,
            new,
            core_key(seq![43u8]),
            sint_sig(),
            BinaryEval::SIntAdd,
        );
    let tm = choose|t: OpTable| #[trigger] binary_defined_in(old, mid, t, core_key(seq![42u8]), sint_sig(), BinaryEval::SIntMul);
    let ta = choose|t: OpTable| #[trigger] binary_defined_in(mid, new, t, core_key(seq![43u8]), sint_sig(), BinaryEval::SIntAdd);
    assert(!old.has(tm));
    assert(Seq::<BinarySig>::empty().push(sint_sig()) =~= seq![sint_sig()]);
    assert(core_key(seq![42u8]) != core_key(seq![43u8])) by {
        assert(seq![42u8][0] != seq![43u8][0]);
    }
    if mid.has(ta) {
        lemma_op_table_eq(ta, tm);
        assert(false);
    }
    assert(same_table(mid, new, tm));
    assert forall|u: OpTable| new.has(u) implies u == tm || u == ta by {
        if u.spec_id() == tm.spec_id() {
            lemma_op_table_eq(u, tm);
        } else {
            lemma_op_table_eq(u, ta);
        }
    }
}

/// After [`init_context`] on a context without operators, looking up `+` or
/// `*` with a right argument of a builtin type other than the signed
/// integer finds no definition.
pub proof fn lemma_fresh_lookup_rhs(
    old: OpContext,
    new: OpContext,
    k: Seq<TypeKind>,
    out: RuntimeType,
    args: (RuntimeType, RuntimeType),
)
    requires
        old.spec_len() == 0,
        core_ops_defined(old, new),
        SINT_ID < k.len(),
        k[SINT_ID as int] is Builtin,
        0 <= tid(args.1) < k.len(),
        k[tid(args.1)] is Builtin,
        tid(args.1) != SINT_ID,
    ensures
        forall|t: OpTable| #[trigger] new.has(t) ==> new.spec_binary(t).filter(binary_fits(k, out, args)).len() == 0,
{
    lemma_core_ops_fresh(old, new);
    lemma_runtime_type_of(SINT_ID);
    assert forall|t: OpTable| #[trigger] new.has(t) implies new.spec_binary(t).filter(binary_fits(k, out, args)).len() == 0 by {
        assert(new.spec_binary(t) == seq![sint_sig()]);
        lemma_lookup_rhs_mismatch(new, t, k, out, args);
    }
}

/// Defines the operator `key` on `t`, `(t, t) -> t`, evaluated by `e`.
fn define_evaluated(ops: &mut OpContext, key: &OpKey, t: RuntimeType, e: BinaryEval)
    ensures
        binary_defined(*old(ops), *final(ops), key@, (t, t, t), e),
        old(ops).wf() ==> final(ops).wf(),
{
    let ghost a = *ops;
    let table = ops.get(key);
    let ghost g = *ops;
    let def = ops.define_binary(table, t, (t, t));
    let ghost d = *ops;
    def.set_eval(ops, e);
    proof {
        let b = *ops;
        let sig = (t, t, t);
        let had = a.has(table);
        if !had {
            assert(g.spec_len() == a.spec_len() + 1);
            assert(g.spec_binary(table) =~= Seq::<BinarySig>::empty());
            assert(g.spec_unary(table) =~= Seq::<(RuntimeType, RuntimeType)>::empty());
            assert(g.spec_nullary(table) =~= Seq::<RuntimeType>::empty());
            assert(g.spec_evals(table) =~= Seq::<(BinarySig, BinaryEval)>::empty());
        } else {
            assert(g.spec_len() == a.spec_len());
        }
        assert forall|s: BinarySig| s != sig implies #[trigger] b.spec_binary_eval(table, s) == (if had {
            a.spec_binary_eval(table, s)
        } else {
            None
        }) by {
            assert(b.spec_binary_eval(table, s) == d.spec_binary_eval(table, s));
        }
        assert forall|u: OpTable| a.has(u) && u != table implies #[trigger] same_table(a, b, u) by {
            assert(g.spec_binary(u) == a.spec_binary(u));
            assert(d.spec_binary(u) == g.spec_binary(u));
            assert(b.spec_binary(u) == d.spec_binary(u));
        }
        let before = if had { a.spec_binary(table) } else { Seq::empty() };
        assert(b.has(table));
        assert(b.spec_key(table) == key@);
        assert(had ==> a.spec_key(table) == key@);
        assert(b.spec_len() == (if had { a.spec_len() } else { a.spec_len() + 1 }));
        assert(!had ==> tid_op(table) == a.spec_len() && forall|u: OpTable| #[trigger] a.has(u) ==> a.spec_key(u) != key@);
        assert(g.spec_binary(table) == before);
        assert(b.spec_binary(table) == (if before.contains(sig) { before } else { before.push(sig) }));
        assert(b.spec_unary(table) == (if had { a.spec_unary(table) } else { Seq::empty() }));
        assert(b.spec_nullary(table) == (if had { a.spec_nullary(table) } else { Seq::empty() }));
        assert(b.spec_binary_eval(table, sig) == Some(e));
        assert(binary_defined_in(a, b, table, key@, sig, e));
    }
}

/// The symbols of the language, in the order they are added.
pub open spec fn core_symbol_list() -> Seq<Seq<u8>> {
    seq![
        seq![40u8], seq![41u8], seq![91u8], seq![93u8], seq![123u8], seq![125u8], seq![60u8], seq![62u8],
        seq![44u8], seq![59u8], seq![46u8], seq![58u8], seq![46u8, 46u8],
        seq![43u8], seq![45u8], seq![42u8], seq![47u8], seq![61u8],
    ]
}

/// Set up the context for the language: a lexer with the symbols of the
/// language, and the operators `*` and `+` on signed integers, evaluated as
/// their product and their sum. The types and sources are unchanged; every
/// other operator table is unchanged (see [`core_ops_defined`]).
pub fn init_context(ctx: &mut Context) -> (r: Result<()>)
    requires
        old(ctx).wf(),
    ensures
        r is Ok,
        final(ctx).wf(),
        final(ctx).spec_lexer().spec_symbols() == core_symbols(),
        final(ctx).spec_types() == old(ctx).spec_types(),
        final(ctx).spec_sources() == old(ctx).spec_sources(),
        old(ctx).spec_ops().wf() ==> final(ctx).spec_ops().wf(),
        core_ops_defined(old(ctx).spec_ops(), final(ctx).spec_ops()),
{
    let syms: [&[u8]; 18] = [
        &[40u8], &[41u8], &[91u8], &[93u8], &[123u8], &[125u8], &[60u8], &[62u8],
        &[44u8], &[59u8], &[46u8], &[58u8], &[46u8, 46u8],
        &[43u8], &[45u8], &[42u8], &[47u8], &[61u8],
    ];
    assert(forall|j: int| 0 <= j < 18 ==> (#[trigger] syms@[j])@ == core_symbol_list()[j]);
    let mut lexer = Lexer::new(DefaultGrammar);
    let mut i: usize = 0;
    while i < 18
        invariant
            0 <= i <= 18,
            lexer.wf(),
            forall|j: int| 0 <= j < 18 ==> (#[trigger] syms@[j])@ == core_symbol_list()[j],
            lexer.spec_symbols() == core_symbol_list().take(i as int).to_set(),
        decreases 18 - i,
    {
        let ghost before = lexer.spec_symbols();
        lexer.add_symbol_bytes(syms[i]);
        proof {
            assert(core_symbol_list().take(i + 1) =~= core_symbol_list().take(i as int).push(core_symbol_list()[i as int]));
            core_symbol_list().take(i as int).lemma_push_to_set_commute(core_symbol_list()[i as int]);
        }
        i = i + 1;
    }
    assert(core_symbol_list().take(18) =~= core_symbol_list());
    ctx.set_lexer(lexer);

    let t_sint = ctx.types().sint();
    proof {
        lemma_runtime_type_of(SINT_ID);
        lemma_tid_injective(t_sint, RuntimeType::spec_of(SINT_ID));
    }
    let ghost o = ctx.spec_ops();
    let ops = ctx.ops_mut();
    define_evaluated(ops, &op_mul(), t_sint, BinaryEval::SIntMul);
    let ghost mid = *ops;
    define_evaluated(ops, &op_add(), t_sint, BinaryEval::SIntAdd);
    assert(binary_defined(o, mid, core_key(seq![42u8]), sint_sig(), BinaryEval::SIntMul));
    assert(binary_defined(mid, *ops, core_key(seq![43u8]), sint_sig(), BinaryEval::SIntAdd));
    Ok(())
}

} // verus!
