use bits::context::Context;
use bits::lexer::Token;
use bits::ops::{op_add, op_mul, BinaryEval, OpEvalError, Value};
use bits::source::Cursor;
use bits::symbol::Symbol;
use bits::{init_context, version, Precedence};

#[test]
fn context_setup() {
    let mut ctx = Context::new();
    assert!(init_context(&mut ctx).is_ok());

    let sint = ctx.types().sint();
    let mul = ctx.ops_mut().get(&op_mul());
    // a second set-up finds the same operator table and signature
    init_context(&mut ctx).unwrap();
    let mul2 = ctx.ops_mut().get(&op_mul());
    assert_eq!(mul, mul2);
    let types = ctx.types();
    let found = ctx.ops().get_binary(mul, sint, (sint, sint), types).unwrap();
    assert_eq!(found.rhs(), sint);
}

#[test]
fn context_operators() {
    let mut ctx = Context::new();
    init_context(&mut ctx).unwrap();
    let sint = ctx.types().sint();
    let ops = ctx.ops_mut();
    let mul = ops.get(&op_mul());
    let add = ops.get(&op_add());
    assert_ne!(mul, add);
    let types = bits::runtime_types::RuntimeTypeContext::new();
    let m = ops.get_binary(mul, sint, (sint, sint), &types).unwrap();
    assert_eq!(m.out(), sint);
    let a = ops.get_binary(add, sint, (sint, sint), &types).unwrap();
    assert_eq!(a.lhs(), sint);
    let uint = types.uint();
    assert!(ops.get_binary(add, uint, (uint, uint), &types).is_err());
}

#[test]
fn context_lexer_symbols() {
    let mut ctx = Context::new();
    init_context(&mut ctx).unwrap();
    let src = ctx.sources_mut().from_string("test", "a..b+(c)");
    let mut lexer = std::mem::take(ctx.lexer_mut());
    let mut cursor = Cursor::new(ctx.sources(), src);
    let tokens: Vec<Token> = lexer.tokenize(&mut cursor).into_iter().map(|(t, _)| t).collect();
    assert_eq!(
        tokens,
        vec![
            Token::Word(Symbol::str("a")),
            Token::Symbol(Symbol::str("..")),
            Token::Word(Symbol::str("b")),
            Token::Symbol(Symbol::str("+")),
            Token::Symbol(Symbol::str("(")),
            Token::Word(Symbol::str("c")),
            Token::Symbol(Symbol::str(")")),
        ]
    );
}

#[test]
fn precedence_order() {
    assert!(Precedence::First < Precedence::OpAdd);
    assert!(Precedence::OpAdd < Precedence::OpMul);
    assert!(Precedence::Output < Precedence::Last);
    assert_eq!("0.1.0", version());
}

#[test]
fn context_operator_eval() {
    let mut ctx = Context::new();
    init_context(&mut ctx).unwrap();
    let sint = ctx.types().sint();
    let types = bits::runtime_types::RuntimeTypeContext::new();
    let ops = ctx.ops_mut();
    let add = ops.get(&op_add());
    let mul = ops.get(&op_mul());
    let a = ops.get_binary(add, sint, (sint, sint), &types).unwrap();
    let m = ops.get_binary(mul, sint, (sint, sint), &types).unwrap();
    assert_eq!(a.eval(ops, Value::SInt(2), Value::SInt(3)), Ok(Value::SInt(5)));
    assert_eq!(m.eval(ops, Value::SInt(2), Value::SInt(3)), Ok(Value::SInt(6)));
    assert_eq!(a.eval(ops, Value::SInt(-7), Value::SInt(3)), Ok(Value::SInt(-4)));

    // a definition without evaluation fails; setting one makes it work
    let uint = types.uint();
    let u = ops.define_binary(add, uint, (uint, uint));
    assert_eq!(u.eval(ops, Value::UInt(1), Value::UInt(2)), Err(OpEvalError::NotDefined));
    u.set_eval(ops, BinaryEval::SIntMul);
    assert_eq!(u.eval(ops, Value::SInt(4), Value::SInt(5)), Ok(Value::SInt(20)));
    // the signed definition keeps its own evaluation
    assert_eq!(a.eval(ops, Value::SInt(4), Value::SInt(5)), Ok(Value::SInt(9)));
}

#[test]
fn context_evaluates_sint_operators() {
    let mut ctx = Context::new();
    init_context(&mut ctx).unwrap();
    let sint = ctx.types().sint();
    let types = bits::runtime_types::RuntimeTypeContext::new();
    let ops = ctx.ops_mut();
    let add = ops.get(&op_add());
    let mul = ops.get(&op_mul());
    let a = ops.get_binary(add, sint, (sint, sint), &types).unwrap();
    assert_eq!(a.eval(ops, Value::SInt(2), Value::SInt(3)), Ok(Value::SInt(5)));
    let m = ops.get_binary(mul, sint, (sint, sint), &types).unwrap();
    assert_eq!(m.eval(ops, Value::SInt(2), Value::SInt(3)), Ok(Value::SInt(6)));
}
