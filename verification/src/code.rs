use vstd::prelude::*;
use vstd::string::StringExecFns;
use crate::result::{Error, ErrorSpec, Result};
use crate::ops::Value;
use crate::source::Span;
use crate::text::{decimal, push_decimal};
use crate::vars::{Var, VariablesContext};
use crate::typing::{eval_type, type_spec, vars_ok};
use crate::lexer::Token;
use crate::nodes::{Node, NodeTree};
use crate::ops::OpKey;
use crate::source::{Source, SourceMap};
use crate::symbol::{utf8_str, Symbol};
use crate::eval::{pending_report, pending_report_spec};
use vstd::utf8::{decode_utf8, encode_utf8_decode_utf8, valid_utf8};

verus! {

broadcast use vstd::string::axiom_spec_iter;

/// Value of a digit of a numeric literal: `0`-`9`, then `a`-`f` or `A`-`F`
/// for ten to fifteen.
pub open spec fn digit_value(c: char) -> Option<int> {
    if '0' <= c <= '9' {
        Some(c as int - '0' as int)
    } else if 'a' <= c <= 'f' {
        Some(10 + (c as int - 'a' as int))
    } else if 'A' <= c <= 'F' {
        Some(10 + (c as int - 'A' as int))
    } else {
        None
    }
}

/// The character may stand in a numeric literal: a digit or `_`.
pub open spec fn literal_char(c: char) -> bool {
    c == '_' || digit_value(c) is Some
}

/// Value of the digits of `cs` in `base`, skipping `_`.
pub open spec fn literal_value(cs: Seq<char>, base: int) -> int
    decreases cs.len(),
{
    if cs.len() == 0 {
        0
    } else {
        let v = literal_value(cs.drop_last(), base);
        match digit_value(cs.last()) {
            Some(d) => v * base + d,
            None => v,
        }
    }
}

/// Number of leading characters of `cs` that may stand in a literal.
pub open spec fn literal_prefix(cs: Seq<char>) -> nat
    decreases cs.len(),
{
    if cs.len() == 0 {
        0
    } else if literal_char(cs[0]) {
        1 + literal_prefix(cs.drop_first())
    } else {
        0
    }
}

/// Reading the character at `i` of `cs` stays in the range of `i64`: the
/// value so far times the base, and plus the digit.
pub open spec fn step_fits(cs: Seq<char>, base: int, i: int) -> bool {
    let v = literal_value(cs.take(i), base);
    digit_value(cs[i]) is Some ==> i64::MIN <= v * base <= i64::MAX && i64::MIN <= v * base + digit_value(
        cs[i],
    )->0 <= i64::MAX
}

/// Every step of reading the literal part of `cs` stays in the range of
/// `i64`.
pub open spec fn literal_fits(cs: Seq<char>, base: int) -> bool {
    forall|i: int| 0 <= i < literal_prefix(cs) ==> #[trigger] step_fits(cs, base, i)
}

/// The message of the error on an invalid digit.
pub open spec fn invalid_digit_text(c: char) -> Seq<char> {
    "invalid digit `"@ + seq![c] + "` in numeric literal"@
}

/// Calls `char::to_string`: the text of the single character `c`.
#[verifier::external_body]
fn char_string(c: char) -> (r: String)
    ensures
        r@ == seq![c],
{
    c.to_string()
}

proof fn lemma_prefix_step(cs: Seq<char>, i: int)
    requires
        0 <= i < cs.len(),
        forall|j: int| 0 <= j < i ==> #[trigger] literal_char(cs[j]),
    ensures
        literal_prefix(cs) >= i,
        literal_char(cs[i]) ==> literal_prefix(cs) >= i + 1,
        !literal_char(cs[i]) ==> literal_prefix(cs) == i,
    decreases i,
{
    if i > 0 {
        assert forall|j: int| 0 <= j < i - 1 implies #[trigger] literal_char(cs.drop_first()[j]) by {
            assert(cs.drop_first()[j] == cs[j + 1]);
        }
        lemma_prefix_step(cs.drop_first(), i - 1);
        assert(cs.drop_first()[i - 1] == cs[i]);
    }
}

proof fn lemma_prefix_all(cs: Seq<char>)
    requires
        forall|j: int| 0 <= j < cs.len() ==> #[trigger] literal_char(cs[j]),
    ensures
        literal_prefix(cs) == cs.len(),
    decreases cs.len(),
{
    if cs.len() > 0 {
        assert forall|j: int| 0 <= j < cs.len() - 1 implies #[trigger] literal_char(cs.drop_first()[j]) by {
            assert(cs.drop_first()[j] == cs[j + 1]);
        }
        lemma_prefix_all(cs.drop_first());
    }
}

/// The integer written in `value` in `base`, skipping `_`; an error naming
/// the first character that is neither a digit nor `_`. Digits are not
/// checked against the base.
pub fn parse_int(value: &str, base: i64) -> (r: Result<i64>)
    requires
        literal_fits(value@, base as int),
    ensures
        literal_prefix(value@) == value@.len() ==> r is Ok && r->Ok_0 == literal_value(value@, base as int),
        literal_prefix(value@) < value@.len() ==> r is Err && r->Err_0@ == (ErrorSpec {
            message: invalid_digit_text(value@[literal_prefix(value@) as int]),
            file: Seq::empty(),
            line: 0,
            detailed: false,
        }),
{
    let ghost cs = value@;
    let mut out: i64 = 0;
    for chr in it: value.chars()
        invariant
            cs == value@,
            it.seq() == cs,
            literal_fits(cs, base as int),
            forall|j: int| 0 <= j < it.index() ==> #[trigger] literal_char(cs[j]),
            out == literal_value(cs.take(it.index() as int), base as int),
    {
        let ghost i = it.index() as int;
        proof {
            lemma_prefix_step(cs, i);
            assert(literal_char(cs[i]) ==> step_fits(cs, base as int, i));
            assert(cs.take(i + 1).drop_last() =~= cs.take(i));
            assert(cs.take(i + 1).last() == chr);
        }
        let digit: i64 = if chr == '_' {
            -1
        } else if '0' <= chr && chr <= '9' {
            (chr as i64) - ('0' as i64)
        } else if 'a' <= chr && chr <= 'f' {
            10 + ((chr as i64) - ('a' as i64))
        } else if 'A' <= chr && chr <= 'F' {
            10 + ((chr as i64) - ('A' as i64))
        } else {
            proof {
                reveal_strlit("invalid digit `");
                reveal_strlit("` in numeric literal");
            }
            let mut msg = String::new();
            msg.append("invalid digit `");
            let c = char_string(chr);
            msg.append(c.as_str());
            msg.append("` in numeric literal");
            assert(msg@ =~= invalid_digit_text(chr));
            return Err(Error::new(msg.as_str()));
        };
        if digit >= 0 {
            proof {
                assert(digit_value(cs[i]) is Some);
            }
            out = out * base + digit;
        }
    }
    proof {
        lemma_prefix_all(cs);
        assert(cs.take(cs.len() as int) =~= cs);
    }
    Ok(out)
}

} // verus!

verus! {

/// An expression of compiled code.
pub enum Expr {
    /// No value.
    Nothing,
    /// The expressions, run in order; the value of the last one.
    Sequence(Vec<Code>),
    Unit,
    Bool(bool),
    SInt(i64),
    UInt(u64),
    /// Prints the values of the expressions.
    Print(Vec<Code>),
    /// Defines the variable with the value of the expression.
    Let(Var, Box<Code>),
    /// The value of the variable.
    Var(Var),
}

/// Compiled code: an expression and the source text it was made from.
pub struct Code {
    pub expr: Expr,
    pub span: Span,
}

/// Why running code failed.
#[derive(Copy, Clone, Debug, PartialEq, Eq, Structural)]
pub enum ExecError {
    /// The variable was defined a second time.
    AlreadyDefined(Var),
    /// The variable was read before it was defined.
    NotInitialized(Var),
}

/// The state code runs in: the values of the variables defined so far, and
/// the text printed so far.
pub struct Runtime {
    vars: Vec<(Var, Value)>,
    out: String,
}

/// Mathematical value of a [`Runtime`]: the variables with their values, in
/// definition order, and the printed text.
pub type RuntimeState = (Seq<(Var, Value)>, Seq<char>);

impl View for Runtime {
    type V = RuntimeState;

    closed spec fn view(&self) -> RuntimeState {
        (self.vars@, self.out@)
    }
}

/// The value of `v` among `vars`.
pub open spec fn var_value(vars: Seq<(Var, Value)>, v: Var) -> Option<Value>
    decreases vars.len(),
{
    if vars.len() == 0 {
        None
    } else if vars[0].0 == v {
        Some(vars[0].1)
    } else {
        var_value(vars.drop_first(), v)
    }
}

/// The printed text of a value.
pub open spec fn value_text(v: Value) -> Seq<char> {
    match v {
        Value::Nothing => Seq::empty(),
        Value::Unit => "()"@,
        Value::Bool(b) => if b {
            "true"@
        } else {
            "false"@
        },
        Value::SInt(n) => if n < 0 {
            seq!['-'] + decimal((-n) as nat)
        } else {
            decimal(n as nat)
        },
        Value::UInt(n) => decimal(n as nat),
    }
}

/// A value that `print` shows: all but nothing and the unit value.
pub open spec fn is_printed(v: Value) -> bool {
    !(v is Nothing) && !(v is Unit)
}

/// Running `c` from the state `st`: its value, or the error that stopped
/// it, and the state after.
pub open spec fn exec_code(c: Code, st: RuntimeState) -> (core::result::Result<Value, ExecError>, RuntimeState)
    decreases c, 0int,
{
    match c.expr {
        Expr::Nothing => (Ok(Value::Nothing), st),
        Expr::Sequence(list) => exec_seq(list@, list@.len() as int, st),
        Expr::Unit => (Ok(Value::Unit), st),
        Expr::Bool(b) => (Ok(Value::Bool(b)), st),
        Expr::SInt(n) => (Ok(Value::SInt(n)), st),
        Expr::UInt(n) => (Ok(Value::UInt(n)), st),
        Expr::Print(args) => {
            let (r, st2, _) = exec_print(args@, args@.len() as int, st);
            match r {
                Ok(_) => (Ok(Value::Unit), (st2.0, st2.1 + seq!['\n'])),
                Err(e) => (Err(e), st2),
            }
        },
        Expr::Let(v, code) => {
            let (r, st2) = exec_code(*code, st);
            match r {
                Ok(x) => if var_value(st2.0, v) is Some {
                    (Err(ExecError::AlreadyDefined(v)), st2)
                } else {
                    (Ok(x), (st2.0.push((v, x)), st2.1))
                },
                Err(e) => (Err(e), st2),
            }
        },
        Expr::Var(v) => match var_value(st.0, v) {
            Some(x) => (Ok(x), st),
            None => (Err(ExecError::NotInitialized(v)), st),
        },
    }
}

/// Running the first `n` of `list` in order from `st`: the value of the
/// last one run (nothing when none is), or the first error.
pub open spec fn exec_seq(list: Seq<Code>, n: int, st: RuntimeState) -> (core::result::Result<Value, ExecError>, RuntimeState)
    decreases list, n,
{
    if n <= 0 || n > list.len() {
        (Ok(Value::Nothing), st)
    } else {
        let (r, st1) = exec_seq(list, n - 1, st);
        match r {
            Ok(_) => exec_code(list[n - 1], st1),
            Err(e) => (Err(e), st1),
        }
    }
}

/// Running the first `n` arguments of a `print` from `st`: the first error
/// if any, the state after, with the printed values separated by spaces,
/// and whether a value was printed.
pub open spec fn exec_print(args: Seq<Code>, n: int, st: RuntimeState) -> (core::result::Result<(), ExecError>, RuntimeState, bool)
    decreases args, n,
{
    if n <= 0 || n > args.len() {
        (Ok(()), st, false)
    } else {
        let (r, st1, has) = exec_print(args, n - 1, st);
        match r {
            Ok(_) => {
                let (r2, st2) = exec_code(args[n - 1], st1);
                match r2 {
                    Ok(v) => if is_printed(v) {
                        (Ok(()), (st2.0, st2.1 + (if has { seq![' '] } else { Seq::empty() }) + value_text(v)), true)
                    } else {
                        (Ok(()), st2, has)
                    },
                    Err(e) => (Err(e), st2, has),
                }
            },
            Err(e) => (Err(e), st1, has),
        }
    }
}

proof fn lemma_seq_err(list: Seq<Code>, k: int, m: int, st: RuntimeState)
    requires
        0 <= k <= m <= list.len(),
        exec_seq(list, k, st).0 is Err,
    ensures
        exec_seq(list, m, st) == exec_seq(list, k, st),
    decreases m - k,
{
    if m > k {
        lemma_seq_err(list, k, m - 1, st);
    }
}

proof fn lemma_print_err(args: Seq<Code>, k: int, m: int, st: RuntimeState)
    requires
        0 <= k <= m <= args.len(),
        exec_print(args, k, st).0 is Err,
    ensures
        exec_print(args, m, st).0 == exec_print(args, k, st).0,
        exec_print(args, m, st).1 == exec_print(args, k, st).1,
    decreases m - k,
{
    if m > k {
        lemma_print_err(args, k, m - 1, st);
    }
}

impl Runtime {
    /// A runtime with no variable and nothing printed.
    pub fn new() -> (r: Runtime)
        ensures
            r@ == (Seq::<(Var, Value)>::empty(), Seq::<char>::empty()),
    {
        Runtime { vars: Vec::new(), out: String::new() }
    }

    /// The text printed so far.
    pub fn output(&self) -> (r: &str)
        ensures
            r@ == self@.1,
    {
        self.out.as_str()
    }

    /// The value of the variable `v`, if it is defined.
    pub fn get(&self, v: Var) -> (r: Option<Value>)
        ensures
            r == var_value(self@.0, v),
    {
        let n = self.vars.len();
        let mut i: usize = 0;
        assert(self.vars@.skip(0) =~= self.vars@);
        while i < n
            invariant
                0 <= i <= n,
                n == self.vars@.len(),
                var_value(self.vars@, v) == var_value(self.vars@.skip(i as int), v),
            decreases n - i,
        {
            let e = self.vars[i];
            if e.0 == v {
                assert(self.vars@.skip(i as int)[0] == e);
                return Some(e.1);
            }
            assert(self.vars@.skip(i as int).drop_first() =~= self.vars@.skip(i + 1));
            i = i + 1;
        }
        None
    }

    /// Prints the text of `v`.
    fn print_value(&mut self, v: Value)
        ensures
            final(self)@ == (old(self)@.0, old(self)@.1 + value_text(v)),
    {
        match v {
            Value::Nothing => {
                assert(self.out@ =~= self.out@ + Seq::<char>::empty());
            },
            Value::Unit => {
                proof {
                    reveal_strlit("()");
                }
                self.out.append("()");
            },
            Value::Bool(b) => {
                proof {
                    reveal_strlit("true");
                    reveal_strlit("false");
                }
                if b {
                    self.out.append("true");
                } else {
                    self.out.append("false");
                }
            },
            Value::SInt(n) => {
                if n < 0 {
                    proof {
                        reveal_strlit("-");
                    }
                    self.out.append("-");
                    let m: u64 = ((-(n + 1)) as u64) + 1;
                    assert(m == -n);
                    push_decimal(&mut self.out, m);
                    assert(self.out@ =~= old(self).out@ + (seq!['-'] + decimal((-n) as nat)));
                } else {
                    push_decimal(&mut self.out, n as u64);
                }
            },
            Value::UInt(n) => {
                push_decimal(&mut self.out, n);
            },
        }
    }
}

impl Code {
    /// Runs this code in `rt`: its value, or the error that stopped it.
    pub fn execute(&self, rt: &mut Runtime) -> (r: core::result::Result<Value, ExecError>)
        ensures
            (r, final(rt)@) == exec_code(*self, old(rt)@),
        decreases self,
    {
        match &self.expr {
            Expr::Nothing => Ok(Value::Nothing),
            Expr::Sequence(list) => {
                let ghost st0 = rt@;
                let n = list.len();
                let mut output = Value::Nothing;
                let mut i: usize = 0;
                while i < n
                    invariant
                        0 <= i <= n,
                        n == list@.len(),
                        exec_seq(list@, i as int, st0) == (Ok::<Value, ExecError>(output), rt@),
                        self.expr == Expr::Sequence(*list),
                        st0 == old(rt)@,
                    decreases n - i,
                {
                    proof {
                        assert(decreases_to!(*self => self.expr));
                        assert(decreases_to!(self.expr => self.expr->Sequence_0));
                        assert(self.expr->Sequence_0 == *list);
                        assert(decreases_to!(*list => list@));
                        assert(decreases_to!(list@ => list@[i as int]));
                        assert(decreases_to!(*self => list@[i as int]));
                    }
                    let r = list[i].execute(rt);
                    match r {
                        Ok(v) => {
                            output = v;
                        },
                        Err(e) => {
                            proof {
                                lemma_seq_err(list@, i + 1, n as int, st0);
                            }
                            return Err(e);
                        },
                    }
                    i = i + 1;
                }
                Ok(output)
            },
            Expr::Unit => Ok(Value::Unit),
            Expr::Bool(b) => Ok(Value::Bool(*b)),
            Expr::SInt(v) => Ok(Value::SInt(*v)),
            Expr::UInt(v) => Ok(Value::UInt(*v)),
            Expr::Print(args) => {
                let ghost st0 = rt@;
                let n = args.len();
                let mut has = false;
                let mut i: usize = 0;
                while i < n
                    invariant
                        0 <= i <= n,
                        n == args@.len(),
                        exec_print(args@, i as int, st0) == (Ok::<(), ExecError>(()), rt@, has),
                        self.expr == Expr::Print(*args),
                        st0 == old(rt)@,
                    decreases n - i,
                {
                    proof {
                        assert(decreases_to!(*self => self.expr));
                        assert(decreases_to!(self.expr => self.expr->Print_0));
                        assert(self.expr->Print_0 == *args);
                        assert(decreases_to!(*args => args@));
                        assert(decreases_to!(args@ => args@[i as int]));
                        assert(decreases_to!(*self => args@[i as int]));
                    }
                    let r = args[i].execute(rt);
                    match r {
                        Ok(v) => {
                            let shown = match v {
                                Value::Nothing => false,
                                Value::Unit => false,
                                _ => true,
                            };
                            if shown {
                                if has {
                                    proof {
                                        reveal_strlit(" ");
                                    }
                                    rt.out.append(" ");
                                }
                                let ghost before = rt@.1;
                                rt.print_value(v);
                                proof {
                                    let sep: Seq<char> = if has { seq![' '] } else { Seq::empty() };
                                    assert(rt@.1 =~= exec_code(args@[i as int], exec_print(args@, i as int, st0).1).1.1 + sep + value_text(v));
                                }
                                has = true;
                            }
                        },
                        Err(e) => {
                            proof {
                                lemma_print_err(args@, i + 1, n as int, st0);
                            }
                            return Err(e);
                        },
                    }
                    i = i + 1;
                }
                proof {
                    reveal_strlit("\n");
                }
                rt.out.append("\n");
                Ok(Value::Unit)
            },
            Expr::Let(v, code) => {
                let x = code.execute(rt)?;
                match rt.get(*v) {
                    Some(_) => Err(ExecError::AlreadyDefined(*v)),
                    None => {
                        rt.vars.push((*v, x));
                        Ok(x)
                    },
                }
            },
            Expr::Var(v) => match rt.get(*v) {
                Some(x) => Ok(x),
                None => Err(ExecError::NotInitialized(*v)),
            },
        }
    }
}

/// The state `b` extends `a`: the variables of `a` come first among those
/// of `b`, with the same values, and the text printed in `a` starts the
/// text printed in `b`.
pub open spec fn state_extends(a: RuntimeState, b: RuntimeState) -> bool {
    &&& a.0.len() <= b.0.len()
    &&& b.0.take(a.0.len() as int) == a.0
    &&& a.1.len() <= b.1.len()
    &&& b.1.take(a.1.len() as int) == a.1
}

proof fn lemma_extends_trans(a: RuntimeState, b: RuntimeState, c: RuntimeState)
    requires
        state_extends(a, b),
        state_extends(b, c),
    ensures
        state_extends(a, c),
{
    assert(c.0.take(a.0.len() as int) =~= c.0.take(b.0.len() as int).take(a.0.len() as int));
    assert(c.1.take(a.1.len() as int) =~= c.1.take(b.1.len() as int).take(a.1.len() as int));
}

proof fn lemma_extends_append(a: RuntimeState, vars: Seq<(Var, Value)>, text: Seq<char>)
    ensures
        state_extends(a, (a.0 + vars, a.1 + text)),
{
    assert((a.0 + vars).take(a.0.len() as int) =~= a.0);
    assert((a.1 + text).take(a.1.len() as int) =~= a.1);
}

/// Running code never forgets a variable or changes its value, and never
/// takes back printed text: the state after extends the state before,
/// whether the code succeeds or fails.
pub proof fn lemma_exec_extends(c: Code, st: RuntimeState)
    ensures
        state_extends(st, exec_code(c, st).1),
    decreases c, 0int,
{
    lemma_extends_append(st, Seq::empty(), Seq::empty());
    assert(st.0 + Seq::<(Var, Value)>::empty() =~= st.0);
    assert(st.1 + Seq::<char>::empty() =~= st.1);
    match c.expr {
        Expr::Sequence(list) => {
            lemma_exec_seq_extends(list@, list@.len() as int, st);
        },
        Expr::Print(args) => {
            lemma_exec_print_extends(args@, args@.len() as int, st);
            let st2 = exec_print(args@, args@.len() as int, st).1;
            lemma_extends_append(st2, Seq::empty(), seq!['\n']);
            assert(st2.0 + Seq::<(Var, Value)>::empty() =~= st2.0);
            lemma_extends_trans(st, st2, (st2.0, st2.1 + seq!['\n']));
        },
        Expr::Let(v, code) => {
            lemma_exec_extends(*code, st);
            let (r, st2) = exec_code(*code, st);
            if let Ok(x) = r {
                lemma_extends_append(st2, seq![(v, x)], Seq::empty());
                assert(st2.0 + seq![(v, x)] =~= st2.0.push((v, x)));
                assert(st2.1 + Seq::<char>::empty() =~= st2.1);
                lemma_extends_trans(st, st2, (st2.0.push((v, x)), st2.1));
            }
        },
        _ => {},
    }
}

proof fn lemma_exec_seq_extends(list: Seq<Code>, n: int, st: RuntimeState)
    ensures
        state_extends(st, exec_seq(list, n, st).1),
    decreases list, n,
{
    if n <= 0 || n > list.len() {
        lemma_extends_append(st, Seq::empty(), Seq::empty());
        assert(st.0 + Seq::<(Var, Value)>::empty() =~= st.0);
        assert(st.1 + Seq::<char>::empty() =~= st.1);
    } else {
        lemma_exec_seq_extends(list, n - 1, st);
        let (r, st1) = exec_seq(list, n - 1, st);
        if r is Ok {
            lemma_exec_extends(list[n - 1], st1);
            lemma_extends_trans(st, st1, exec_code(list[n - 1], st1).1);
        }
    }
}

proof fn lemma_exec_print_extends(args: Seq<Code>, n: int, st: RuntimeState)
    ensures
        state_extends(st, exec_print(args, n, st).1),
    decreases args, n,
{
    if n <= 0 || n > args.len() {
        lemma_extends_append(st, Seq::empty(), Seq::empty());
        assert(st.0 + Seq::<(Var, Value)>::empty() =~= st.0);
        assert(st.1 + Seq::<char>::empty() =~= st.1);
    } else {
        lemma_exec_print_extends(args, n - 1, st);
        let (r, st1, has) = exec_print(args, n - 1, st);
        if r is Ok {
            lemma_exec_extends(args[n - 1], st1);
            let (r2, st2) = exec_code(args[n - 1], st1);
            lemma_extends_trans(st, st1, st2);
            if let Ok(v) = r2 {
                if is_printed(v) {
                    let add = (if has { seq![' '] } else { Seq::empty() }) + value_text(v);
                    lemma_extends_append(st2, Seq::empty(), add);
                    assert(st2.0 + Seq::<(Var, Value)>::empty() =~= st2.0);
                    assert(st2.1 + add =~= st2.1 + (if has { seq![' '] } else { Seq::empty() }) + value_text(v));
                    lemma_extends_trans(st, st2, exec_print(args, n, st).1);
                }
            }
        }
    }
}

/// Value of a node of the tree of a program.
pub enum NodeValue {
    Nothing,
    Unit,
    Bool(bool),
    Str(Vec<u8>),
    SInt(i64),
    UInt(u64),
    Source(Source),
    Module(Source),
    Token(Token),
    LetDecl(Symbol),
    Let(Var),
    Var(Var),
    BinaryOp(OpKey),
    Group { scoped: bool },
    Sequence { scoped: bool, indented: bool },
    Print,
    Indent(bool),
    If,
    ElseIf,
    Else,
    For,
    While,
}

/// Why a node could not be compiled; each names the node.
#[derive(Copy, Clone, Debug, PartialEq, Eq, Structural)]
pub enum CompileError {
    /// The node's value has no code.
    NotCompilable(usize),
    /// A string, which compiled code does not hold.
    Unsupported(usize),
    /// An integer token that is not a valid integer.
    InvalidLiteral(usize),
    /// A node that stands for one expression has several children.
    MultipleChildren(usize),
    /// A binary operator without exactly two operands.
    BinaryArity(usize),
    /// A binary operator, which no code evaluates.
    OperatorNotDefined(usize),
    /// The type of an operand of a binary operator depends on itself, at
    /// the node named.
    TypeCycle(usize),
    /// The nodes nest deeper than there are nodes.
    TooDeep(usize),
}

/// Mathematical value of an [`Expr`].
pub enum ExprSpec {
    Nothing,
    Sequence(Seq<CodeSpec>),
    Unit,
    Bool(bool),
    SInt(i64),
    UInt(u64),
    Print(Seq<CodeSpec>),
    Let(Var, Box<CodeSpec>),
    Var(Var),
}

/// Mathematical value of a [`Code`].
pub struct CodeSpec {
    pub expr: ExprSpec,
    pub span: Span,
}

/// The mathematical value of compiled code.
pub open spec fn code_view(c: Code) -> CodeSpec
    decreases c,
{
    let expr = match c.expr {
        Expr::Nothing => ExprSpec::Nothing,
        Expr::Sequence(v) => ExprSpec::Sequence(
            Seq::new(v@.len(), |i: int| if 0 <= i < v@.len() { code_view(v@[i]) } else { CodeSpec { expr: ExprSpec::Nothing, span: c.span } }),
        ),
        Expr::Unit => ExprSpec::Unit,
        Expr::Bool(b) => ExprSpec::Bool(b),
        Expr::SInt(n) => ExprSpec::SInt(n),
        Expr::UInt(n) => ExprSpec::UInt(n),
        Expr::Print(v) => ExprSpec::Print(
            Seq::new(v@.len(), |i: int| if 0 <= i < v@.len() { code_view(v@[i]) } else { CodeSpec { expr: ExprSpec::Nothing, span: c.span } }),
        ),
        Expr::Let(x, b) => ExprSpec::Let(x, Box::new(code_view(*b))),
        Expr::Var(x) => ExprSpec::Var(x),
    };
    CodeSpec { expr, span: c.span }
}

/// The mathematical values of a sequence of compiled code.
pub open spec fn codes_view(v: Seq<Code>) -> Seq<CodeSpec> {
    Seq::new(v.len(), |i: int| code_view(v[i]))
}

/// The text of the integer token `n`, as bytes.
pub open spec fn token_text(tree: NodeTree<NodeValue>, map: SourceMap, n: int) -> Seq<u8> {
    let sp = tree.spec_meta()[n].span;
    map.spec_data(sp.spec_src()).spec_text().subrange(sp.spec_pos() as int, sp.spec_end() as int)
}

/// Each integer token of the tree lies in a source of `map`, and the
/// reading of its text, when it is UTF-8, stays within `i64`.
pub open spec fn integers_readable(tree: NodeTree<NodeValue>, map: SourceMap) -> bool {
    forall|n: int| 0 <= n < tree.spec_len() && (#[trigger] tree.spec_values()[n] is Token) && tree.spec_values()[n]->Token_0 is Integer ==> {
        let sp = tree.spec_meta()[n].span;
        &&& map.contains(sp.spec_src())
        &&& sp.spec_pos() <= sp.spec_end() <= sp.spec_src().spec_len()
        &&& valid_utf8(token_text(tree, map, n)) ==> literal_fits(decode_utf8(token_text(tree, map, n)), 10)
    }
}

/// Code of the node `n` with `fuel` levels of nesting left: its value as a
/// literal; the value of an integer token read in base ten; a `let` with
/// the code of its single child (nothing with none); a variable; a module
/// and a `print` with the code of their children; a group with the code of
/// its single child (nothing with none). Nothing has no code unless it is
/// the value nothing; strings give an error, and so does a binary operator:
/// one without two children, one of whose operands has a type that depends
/// on itself (see [`type_spec`]), and any other, as no operator is defined.
pub open spec fn compile_spec(tree: NodeTree<NodeValue>, map: SourceMap, vars: Seq<((Seq<u8>, u32), Node)>, n: int, fuel: nat) -> core::result::Result<CodeSpec, CompileError>
    decreases fuel, 0int,
{
    if fuel == 0 {
        Err(CompileError::TooDeep(n as usize))
    } else {
        let span = tree.spec_meta()[n].span;
        let kids = tree.spec_children()[n];
        let code = |e: ExprSpec| Ok(CodeSpec { expr: e, span });
        match tree.spec_values()[n] {
            NodeValue::Nothing => code(ExprSpec::Nothing),
            NodeValue::Unit => code(ExprSpec::Unit),
            NodeValue::Bool(b) => code(ExprSpec::Bool(b)),
            NodeValue::SInt(v) => code(ExprSpec::SInt(v)),
            NodeValue::UInt(v) => code(ExprSpec::UInt(v)),
            NodeValue::Str(_) => Err(CompileError::Unsupported(n as usize)),
            NodeValue::Token(Token::Literal) => Err(CompileError::Unsupported(n as usize)),
            NodeValue::Token(Token::Integer) => {
                let t = token_text(tree, map, n);
                let cs = decode_utf8(t);
                if valid_utf8(t) && literal_prefix(cs) == cs.len() {
                    code(ExprSpec::SInt(literal_value(cs, 10) as i64))
                } else {
                    Err(CompileError::InvalidLiteral(n as usize))
                }
            },
            NodeValue::Let(x) => if kids.len() == 0 {
                code(ExprSpec::Let(x, Box::new(CodeSpec { expr: ExprSpec::Nothing, span })))
            } else if kids.len() == 1 {
                match compile_spec(tree, map, vars, kids[0] as int, (fuel - 1) as nat) {
                    Ok(c) => code(ExprSpec::Let(x, Box::new(c))),
                    Err(err) => Err(err),
                }
            } else {
                Err(CompileError::MultipleChildren(n as usize))
            },
            NodeValue::Var(x) => code(ExprSpec::Var(x)),
            NodeValue::Module(_) => match compile_list(tree, map, vars, kids, kids.len() as int, (fuel - 1) as nat) {
                Ok(l) => code(ExprSpec::Sequence(l)),
                Err(err) => Err(err),
            },
            NodeValue::Print => match compile_list(tree, map, vars, kids, kids.len() as int, (fuel - 1) as nat) {
                Ok(l) => code(ExprSpec::Print(l)),
                Err(err) => Err(err),
            },
            NodeValue::Group { .. } => if kids.len() == 0 {
                code(ExprSpec::Nothing)
            } else if kids.len() == 1 {
                compile_spec(tree, map, vars, kids[0] as int, (fuel - 1) as nat)
            } else {
                Err(CompileError::MultipleChildren(n as usize))
            },
            NodeValue::BinaryOp(_) => if kids.len() != 2 {
                Err(CompileError::BinaryArity(n as usize))
            } else {
                let vs = tree.spec_values();
                let cs = tree.spec_children();
                let depth = (tree.spec_len() + 2) as nat;
                let a = kids[0] as int;
                let b = kids[1] as int;
                match type_spec(vs, cs, vars, a, Seq::empty(), a as usize, depth) {
                    Err(m) => Err(CompileError::TypeCycle(m)),
                    Ok(_) => match type_spec(vs, cs, vars, b, Seq::empty(), b as usize, depth) {
                        Err(m) => Err(CompileError::TypeCycle(m)),
                        Ok(_) => Err(CompileError::OperatorNotDefined(n as usize)),
                    },
                }
            },
            _ => Err(CompileError::NotCompilable(n as usize)),
        }
    }
}

/// Code of the first `k` nodes of `ids`, in order; the first error if any.
pub open spec fn compile_list(tree: NodeTree<NodeValue>, map: SourceMap, vars: Seq<((Seq<u8>, u32), Node)>, ids: Seq<usize>, k: int, fuel: nat) -> core::result::Result<Seq<CodeSpec>, CompileError>
    decreases fuel, k + 1,
{
    if k <= 0 || k > ids.len() {
        Ok(Seq::empty())
    } else {
        match compile_list(tree, map, vars, ids, k - 1, fuel) {
            Ok(l) => match compile_spec(tree, map, vars, ids[k - 1] as int, fuel) {
                Ok(c) => Ok(l.push(c)),
                Err(err) => Err(err),
            },
            Err(err) => Err(err),
        }
    }
}

proof fn lemma_list_err(tree: NodeTree<NodeValue>, map: SourceMap, vars: Seq<((Seq<u8>, u32), Node)>, ids: Seq<usize>, k: int, m: int, fuel: nat)
    requires
        0 <= k <= m <= ids.len(),
        compile_list(tree, map, vars, ids, k, fuel) is Err,
    ensures
        compile_list(tree, map, vars, ids, m, fuel) == compile_list(tree, map, vars, ids, k, fuel),
    decreases m - k,
{
    if m > k {
        lemma_list_err(tree, map, vars, ids, k, m - 1, fuel);
    }
}

proof fn lemma_prefix_le(cs: Seq<char>)
    ensures
        literal_prefix(cs) <= cs.len(),
    decreases cs.len(),
{
    if cs.len() > 0 {
        lemma_prefix_le(cs.drop_first());
    }
}

/// Reads an integer token's text in base ten.
fn read_integer(text: &[u8], n: usize) -> (r: core::result::Result<i64, CompileError>)
    requires
        valid_utf8(text@) ==> literal_fits(decode_utf8(text@), 10),
    ensures
        ({
            let cs = decode_utf8(text@);
            if valid_utf8(text@) && literal_prefix(cs) == cs.len() {
                r == Ok::<i64, CompileError>(literal_value(cs, 10) as i64)
            } else {
                r == Err::<i64, CompileError>(CompileError::InvalidLiteral(n))
            }
        }),
{
    match utf8_str(text) {
        Ok(s) => {
            proof {
                encode_utf8_decode_utf8(s@);
                assert(decode_utf8(text@) == s@);
            }
            match parse_int(s, 10) {
                Ok(v) => {
                    proof {
                        lemma_prefix_le(s@);
                    }
                    Ok(v)
                },
                Err(_) => Err(CompileError::InvalidLiteral(n)),
            }
        },
        Err(_) => Err(CompileError::InvalidLiteral(n)),
    }
}

/// Compiles the node `node` of `tree`, whose integer tokens are read from
/// the sources of `map`; see [`compile_spec`].
pub fn compile(tree: &NodeTree<NodeValue>, map: &SourceMap, vars: &VariablesContext, node: Node) -> (r: core::result::Result<Code, CompileError>)
    requires
        tree.wf(),
        tree.has(node),
        integers_readable(*tree, *map),
        vars_ok(tree.spec_values(), vars@),
        tree.spec_len() + 2 <= usize::MAX,
    ensures
        match r {
            Ok(c) => compile_spec(*tree, *map, vars@, node.spec_id(), tree.spec_len()) == Ok::<CodeSpec, CompileError>(code_view(c)),
            Err(e) => compile_spec(*tree, *map, vars@, node.spec_id(), tree.spec_len()) == Err::<CodeSpec, CompileError>(e),
        },
{
    compile_at(tree, map, vars, node, tree.count())
}

fn code_of(expr: Expr, span: Span) -> (r: Code)
    ensures
        r.expr == expr,
        r.span == span,
{
    Code { expr, span }
}

/// Compiles the node `node` with `fuel` levels of nesting left.
fn compile_at(tree: &NodeTree<NodeValue>, map: &SourceMap, vars: &VariablesContext, node: Node, fuel: usize) -> (r: core::result::Result<Code, CompileError>)
    requires
        tree.wf(),
        tree.has(node),
        integers_readable(*tree, *map),
        vars_ok(tree.spec_values(), vars@),
        tree.spec_len() + 2 <= usize::MAX,
    ensures
        match r {
            Ok(c) => compile_spec(*tree, *map, vars@, node.spec_id(), fuel as nat) == Ok::<CodeSpec, CompileError>(code_view(c)),
            Err(e) => compile_spec(*tree, *map, vars@, node.spec_id(), fuel as nat) == Err::<CodeSpec, CompileError>(e),
        },
    decreases fuel, 0usize,
{
    let id = node.id();
    if fuel == 0 {
        return Err(CompileError::TooDeep(id));
    }
    let span = tree.span(node);
    let ghost n = node.spec_id();
    let ghost kids = tree.spec_children()[n];
    match tree.value(node) {
        NodeValue::Nothing => Ok(code_of(Expr::Nothing, span)),
        NodeValue::Unit => Ok(code_of(Expr::Unit, span)),
        NodeValue::Bool(b) => Ok(code_of(Expr::Bool(*b), span)),
        NodeValue::SInt(v) => Ok(code_of(Expr::SInt(*v), span)),
        NodeValue::UInt(v) => Ok(code_of(Expr::UInt(*v), span)),
        NodeValue::Str(_) => Err(CompileError::Unsupported(id)),
        NodeValue::Token(Token::Literal) => Err(CompileError::Unsupported(id)),
        NodeValue::Token(Token::Integer) => {
            proof {
                assert(tree.spec_values()[n] is Token && tree.spec_values()[n]->Token_0 is Integer);
            }
            let text = span.text(map);
            match read_integer(text, id) {
                Ok(v) => Ok(code_of(Expr::SInt(v), span)),
                Err(e) => Err(e),
            }
        },
        NodeValue::Let(x) => {
            let k = tree.len(node);
            if k == 0 {
                let inner = code_of(Expr::Nothing, span);
                assert(code_view(inner) == CodeSpec { expr: ExprSpec::Nothing, span });
                Ok(code_of(Expr::Let(*x, Box::new(inner)), span))
            } else if k == 1 {
                proof {
                    assert(kids[0] < tree.spec_len());
                }
                let child = tree.get(tree.nodes(node)[0]);
                match compile_at(tree, map, vars, child, fuel - 1) {
                    Ok(c) => Ok(code_of(Expr::Let(*x, Box::new(c)), span)),
                    Err(e) => Err(e),
                }
            } else {
                Err(CompileError::MultipleChildren(id))
            }
        },
        NodeValue::Var(x) => Ok(code_of(Expr::Var(*x), span)),
        NodeValue::Module(_) => {
            let list = match compile_nodes(tree, map, vars, node, fuel - 1) {
                Ok(l) => l,
                Err(e) => {
                    return Err(e);
                },
            };
            let ghost lv = codes_view(list@);
            let c = code_of(Expr::Sequence(list), span);
            proof {
                let v = c.expr->Sequence_0;
                assert(Seq::new(v@.len(), |i: int| if 0 <= i < v@.len() { code_view(v@[i]) } else { CodeSpec { expr: ExprSpec::Nothing, span: c.span } }) =~= lv);
                assert(code_view(c).expr->Sequence_0 =~= lv);
                assert(code_view(c) == CodeSpec { expr: ExprSpec::Sequence(lv), span });
                assert(compile_spec(*tree, *map, vars@, n, fuel as nat) == Ok::<CodeSpec, CompileError>(CodeSpec { expr: ExprSpec::Sequence(lv), span }));
            }
            Ok(c)
        },
        NodeValue::Print => {
            let list = match compile_nodes(tree, map, vars, node, fuel - 1) {
                Ok(l) => l,
                Err(e) => {
                    return Err(e);
                },
            };
            let ghost lv = codes_view(list@);
            let c = code_of(Expr::Print(list), span);
            proof {
                let v = c.expr->Print_0;
                assert(Seq::new(v@.len(), |i: int| if 0 <= i < v@.len() { code_view(v@[i]) } else { CodeSpec { expr: ExprSpec::Nothing, span: c.span } }) =~= lv);
                assert(code_view(c).expr->Print_0 =~= lv);
                assert(code_view(c) == CodeSpec { expr: ExprSpec::Print(lv), span });
                assert(compile_spec(*tree, *map, vars@, n, fuel as nat) == Ok::<CodeSpec, CompileError>(CodeSpec { expr: ExprSpec::Print(lv), span }));
            }
            Ok(c)
        },
        NodeValue::Group { .. } => {
            let k = tree.len(node);
            if k == 0 {
                Ok(code_of(Expr::Nothing, span))
            } else if k == 1 {
                proof {
                    assert(kids[0] < tree.spec_len());
                }
                let child = tree.get(tree.nodes(node)[0]);
                compile_at(tree, map, vars, child, fuel - 1)
            } else {
                Err(CompileError::MultipleChildren(id))
            }
        },
        NodeValue::BinaryOp(_) => {
            if tree.len(node) != 2 {
                Err(CompileError::BinaryArity(id))
            } else {
                let ids = tree.nodes(node);
                proof {
                    assert(kids[0] < tree.spec_len() && kids[1] < tree.spec_len());
                }
                let a = tree.get(ids[0]);
                let b = tree.get(ids[1]);
                match eval_type(tree, vars, a) {
                    Err(m) => Err(CompileError::TypeCycle(m)),
                    Ok(_) => match eval_type(tree, vars, b) {
                        Err(m) => Err(CompileError::TypeCycle(m)),
                        Ok(_) => Err(CompileError::OperatorNotDefined(id)),
                    },
                }
            }
        },
        _ => Err(CompileError::NotCompilable(id)),
    }
}

/// Compiles the children of `node`, in order, with `fuel` levels left.
fn compile_nodes(tree: &NodeTree<NodeValue>, map: &SourceMap, vars: &VariablesContext, node: Node, fuel: usize) -> (r: core::result::Result<Vec<Code>, CompileError>)
    requires
        tree.wf(),
        tree.has(node),
        integers_readable(*tree, *map),
        vars_ok(tree.spec_values(), vars@),
        tree.spec_len() + 2 <= usize::MAX,
    ensures
        ({
            let kids = tree.children_of(node);
            match r {
                Ok(v) => compile_list(*tree, *map, vars@, kids, kids.len() as int, fuel as nat) == Ok::<Seq<CodeSpec>, CompileError>(codes_view(v@)),
                Err(e) => compile_list(*tree, *map, vars@, kids, kids.len() as int, fuel as nat) == Err::<Seq<CodeSpec>, CompileError>(e),
            }
        }),
    decreases fuel, 1usize,
{
    let ids = tree.nodes(node);
    let ghost kids = ids@;
    let n = ids.len();
    let mut out: Vec<Code> = Vec::new();
    let mut i: usize = 0;
    assert(codes_view(out@) =~= Seq::<CodeSpec>::empty());
    while i < n
        invariant
            0 <= i <= n,
            n == kids.len(),
            kids == tree.children_of(node),
            ids@ == kids,
            tree.wf(),
            tree.has(node),
            integers_readable(*tree, *map),
            vars_ok(tree.spec_values(), vars@),
            tree.spec_len() + 2 <= usize::MAX,
        vars_ok(tree.spec_values(), vars@),
        tree.spec_len() + 2 <= usize::MAX,
            compile_list(*tree, *map, vars@, kids, i as int, fuel as nat) == Ok::<Seq<CodeSpec>, CompileError>(codes_view(out@)),
        decreases n - i,
    {
        proof {
            assert(kids[i as int] < tree.spec_len());
        }
        let child = tree.get(ids[i]);
        match compile_at(tree, map, vars, child, fuel) {
            Ok(c) => {
                let ghost before = out@;
                out.push(c);
                proof {
                    assert(codes_view(out@) =~= codes_view(before).push(code_view(c)));
                }
            },
            Err(e) => {
                proof {
                    lemma_list_err(*tree, *map, vars@, kids, i + 1, n as int, fuel as nat);
                }
                return Err(e);
            },
        }
        i = i + 1;
    }
    Ok(out)
}

/// Running the code `c`, by its mathematical value; the same as
/// [`exec_code`] (see [`lemma_exec_view`]).
pub open spec fn exec_cs(c: CodeSpec, st: RuntimeState) -> (core::result::Result<Value, ExecError>, RuntimeState)
    decreases c, 0int,
{
    match c.expr {
        ExprSpec::Nothing => (Ok(Value::Nothing), st),
        ExprSpec::Sequence(list) => exec_cs_seq(list, list.len() as int, st),
        ExprSpec::Unit => (Ok(Value::Unit), st),
        ExprSpec::Bool(b) => (Ok(Value::Bool(b)), st),
        ExprSpec::SInt(n) => (Ok(Value::SInt(n)), st),
        ExprSpec::UInt(n) => (Ok(Value::UInt(n)), st),
        ExprSpec::Print(args) => {
            let (r, st2, _) = exec_cs_print(args, args.len() as int, st);
            match r {
                Ok(_) => (Ok(Value::Unit), (st2.0, st2.1 + seq!['\n'])),
                Err(e) => (Err(e), st2),
            }
        },
        ExprSpec::Let(v, code) => {
            let (r, st2) = exec_cs(*code, st);
            match r {
                Ok(x) => if var_value(st2.0, v) is Some {
                    (Err(ExecError::AlreadyDefined(v)), st2)
                } else {
                    (Ok(x), (st2.0.push((v, x)), st2.1))
                },
                Err(e) => (Err(e), st2),
            }
        },
        ExprSpec::Var(v) => match var_value(st.0, v) {
            Some(x) => (Ok(x), st),
            None => (Err(ExecError::NotInitialized(v)), st),
        },
    }
}

/// [`exec_seq`] by mathematical values.
pub open spec fn exec_cs_seq(list: Seq<CodeSpec>, n: int, st: RuntimeState) -> (core::result::Result<Value, ExecError>, RuntimeState)
    decreases list, n,
{
    if n <= 0 || n > list.len() {
        (Ok(Value::Nothing), st)
    } else {
        let (r, st1) = exec_cs_seq(list, n - 1, st);
        match r {
            Ok(_) => exec_cs(list[n - 1], st1),
            Err(e) => (Err(e), st1),
        }
    }
}

/// [`exec_print`] by mathematical values.
pub open spec fn exec_cs_print(args: Seq<CodeSpec>, n: int, st: RuntimeState) -> (core::result::Result<(), ExecError>, RuntimeState, bool)
    decreases args, n,
{
    if n <= 0 || n > args.len() {
        (Ok(()), st, false)
    } else {
        let (r, st1, has) = exec_cs_print(args, n - 1, st);
        match r {
            Ok(_) => {
                let (r2, st2) = exec_cs(args[n - 1], st1);
                match r2 {
                    Ok(v) => if is_printed(v) {
                        (Ok(()), (st2.0, st2.1 + (if has { seq![' '] } else { Seq::empty() }) + value_text(v)), true)
                    } else {
                        (Ok(()), st2, has)
                    },
                    Err(e) => (Err(e), st2, has),
                }
            },
            Err(e) => (Err(e), st1, has),
        }
    }
}

/// Running code and running its mathematical value agree.
pub proof fn lemma_exec_view(c: Code, st: RuntimeState)
    ensures
        exec_code(c, st) == exec_cs(code_view(c), st),
    decreases c, 0int,
{
    match c.expr {
        Expr::Sequence(list) => {
            let lv = code_view(c).expr->Sequence_0;
            assert(lv.len() == list@.len());
            lemma_exec_seq_view(list@, lv, list@.len() as int, st);
        },
        Expr::Print(args) => {
            let lv = code_view(c).expr->Print_0;
            assert(lv.len() == args@.len());
            lemma_exec_print_view(args@, lv, args@.len() as int, st);
        },
        Expr::Let(v, code) => {
            lemma_exec_view(*code, st);
        },
        _ => {},
    }
}

proof fn lemma_exec_seq_view(list: Seq<Code>, lv: Seq<CodeSpec>, n: int, st: RuntimeState)
    requires
        lv.len() == list.len(),
        forall|i: int| 0 <= i < list.len() ==> #[trigger] lv[i] == code_view(list[i]),
    ensures
        exec_seq(list, n, st) == exec_cs_seq(lv, n, st),
    decreases list, n,
{
    if 0 < n <= list.len() {
        lemma_exec_seq_view(list, lv, n - 1, st);
        let st1 = exec_seq(list, n - 1, st).1;
        assert(lv[n - 1] == code_view(list[n - 1]));
        lemma_exec_view(list[n - 1], st1);
    }
}

proof fn lemma_exec_print_view(args: Seq<Code>, lv: Seq<CodeSpec>, n: int, st: RuntimeState)
    requires
        lv.len() == args.len(),
        forall|i: int| 0 <= i < args.len() ==> #[trigger] lv[i] == code_view(args[i]),
    ensures
        exec_print(args, n, st) == exec_cs_print(lv, n, st),
    decreases args, n,
{
    if 0 < n <= args.len() {
        lemma_exec_print_view(args, lv, n - 1, st);
        let st1 = exec_print(args, n - 1, st).1;
        assert(lv[n - 1] == code_view(args[n - 1]));
        lemma_exec_view(args[n - 1], st1);
    }
}

/// Why running a program failed.
pub enum ExecuteError {
    /// Nodes were left unprocessed: the positions of those listed among
    /// them, and how many were left out of the list.
    Pending(Vec<usize>, usize),
    /// A node could not be compiled.
    Compile(CompileError),
    /// The compiled code failed.
    Run(ExecError),
}

/// Compiles the nodes `ids`, in order; see [`compile_list`].
fn compile_roots(tree: &NodeTree<NodeValue>, map: &SourceMap, vars: &VariablesContext, ids: &[usize]) -> (r: core::result::Result<Vec<Code>, CompileError>)
    requires
        tree.wf(),
        integers_readable(*tree, *map),
        vars_ok(tree.spec_values(), vars@),
        tree.spec_len() + 2 <= usize::MAX,
        forall|i: int| 0 <= i < ids@.len() ==> #[trigger] ids@[i] < tree.spec_len(),
    ensures
        match r {
            Ok(v) => compile_list(*tree, *map, vars@, ids@, ids@.len() as int, tree.spec_len()) == Ok::<Seq<CodeSpec>, CompileError>(codes_view(v@)),
            Err(e) => compile_list(*tree, *map, vars@, ids@, ids@.len() as int, tree.spec_len()) == Err::<Seq<CodeSpec>, CompileError>(e),
        },
{
    let fuel = tree.count();
    let n = ids.len();
    let mut out: Vec<Code> = Vec::new();
    let mut i: usize = 0;
    assert(codes_view(out@) =~= Seq::<CodeSpec>::empty());
    while i < n
        invariant
            0 <= i <= n,
            n == ids@.len(),
            fuel == tree.spec_len(),
            tree.wf(),
            integers_readable(*tree, *map),
            vars_ok(tree.spec_values(), vars@),
            tree.spec_len() + 2 <= usize::MAX,
        vars_ok(tree.spec_values(), vars@),
        tree.spec_len() + 2 <= usize::MAX,
            forall|j: int| 0 <= j < ids@.len() ==> #[trigger] ids@[j] < tree.spec_len(),
            compile_list(*tree, *map, vars@, ids@, i as int, fuel as nat) == Ok::<Seq<CodeSpec>, CompileError>(codes_view(out@)),
        decreases n - i,
    {
        let node = tree.get(ids[i]);
        match compile_at(tree, map, vars, node, fuel) {
            Ok(c) => {
                let ghost before = out@;
                out.push(c);
                proof {
                    assert(codes_view(out@) =~= codes_view(before).push(code_view(c)));
                }
            },
            Err(e) => {
                proof {
                    lemma_list_err(*tree, *map, vars@, ids@, i + 1, n as int, fuel as nat);
                }
                return Err(e);
            },
        }
        i = i + 1;
    }
    Ok(out)
}

/// Runs a program once its rules were applied: with nodes left
/// unprocessed (`pending`, the source and value key of each, in the order
/// they are reported), reports them (see [`pending_report_spec`]);
/// otherwise compiles the nodes `roots` in order, then runs their code in a
/// new runtime, and gives the value of the last one (nothing when there is
/// none) and the printed text. A compile error, or the error that stopped
/// the code, is returned instead.
pub fn execute(tree: &NodeTree<NodeValue>, map: &SourceMap, vars: &VariablesContext, pending: &[(usize, u64)], roots: &[usize]) -> (r: core::result::Result<(Value, String), ExecuteError>)
    requires
        tree.wf(),
        integers_readable(*tree, *map),
        vars_ok(tree.spec_values(), vars@),
        tree.spec_len() + 2 <= usize::MAX,
        forall|i: int| 0 <= i < roots@.len() ==> #[trigger] roots@[i] < tree.spec_len(),
    ensures
        pending@.len() > 0 ==> (r matches Err(ExecuteError::Pending(l, k)) && (l@, k as nat) == pending_report_spec(pending@)),
        pending@.len() == 0 ==> match compile_list(*tree, *map, vars@, roots@, roots@.len() as int, tree.spec_len()) {
            Err(e) => r matches Err(ExecuteError::Compile(e2)) && e2 == e,
            Ok(cs) => {
                let (x, st) = exec_cs_seq(cs, cs.len() as int, (Seq::empty(), Seq::empty()));
                match x {
                    Err(e) => r matches Err(ExecuteError::Run(e2)) && e2 == e,
                    Ok(v) => r matches Ok((v2, out)) && v2 == v && out@ == st.1,
                }
            },
        },
{
    if pending.len() > 0 {
        let (listed, left) = pending_report(pending);
        return Err(ExecuteError::Pending(listed, left));
    }
    let program = match compile_roots(tree, map, vars, roots) {
        Ok(p) => p,
        Err(e) => {
            return Err(ExecuteError::Compile(e));
        },
    };
    let mut rt = Runtime::new();
    let ghost st0 = rt@;
    let n = program.len();
    let mut output = Value::Nothing;
    let mut i: usize = 0;
    while i < n
        invariant
            0 <= i <= n,
            n == program@.len(),
            exec_seq(program@, i as int, st0) == (Ok::<Value, ExecError>(output), rt@),
            pending@.len() == 0,
            st0 == (Seq::<(Var, Value)>::empty(), Seq::<char>::empty()),
            compile_list(*tree, *map, vars@, roots@, roots@.len() as int, tree.spec_len()) == Ok::<Seq<CodeSpec>, CompileError>(codes_view(program@)),
        decreases n - i,
    {
        match program[i].execute(&mut rt) {
            Ok(v) => {
                output = v;
            },
            Err(e) => {
                proof {
                    lemma_seq_err(program@, i + 1, n as int, st0);
                    lemma_exec_seq_view(program@, codes_view(program@), n as int, st0);
                }
                return Err(ExecuteError::Run(e));
            },
        }
        i = i + 1;
    }
    proof {
        lemma_exec_seq_view(program@, codes_view(program@), n as int, st0);
    }
    let text = rt.output().to_string();
    Ok((output, text))
}

} // verus!
