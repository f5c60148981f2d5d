use bits::code::parse_int;

#[test]
fn parse_decimal() {
    assert_eq!(0, parse_int("0", 10).unwrap());
    assert_eq!(123, parse_int("123", 10).unwrap());
    assert_eq!(1000000, parse_int("1_000_000", 10).unwrap());
    assert_eq!(0, parse_int("", 10).unwrap());
    assert_eq!(0, parse_int("___", 10).unwrap());
}

#[test]
fn parse_hex_digits() {
    assert_eq!(255, parse_int("ff", 16).unwrap());
    assert_eq!(255, parse_int("FF", 16).unwrap());
    assert_eq!(0xABCD, parse_int("aBcD", 16).unwrap());
    // digits are not checked against the base
    assert_eq!(20, parse_int("1a", 10).unwrap());
}

#[test]
fn parse_invalid_digit() {
    let err = parse_int("12x4", 10).unwrap_err();
    assert_eq!("invalid digit `x` in numeric literal", err.to_string());
    let err = parse_int("1é", 10).unwrap_err();
    assert_eq!("invalid digit `é` in numeric literal", err.to_string());
}

use bits::code::{compile, execute, Code, CompileError, ExecError, ExecuteError, Expr, NodeValue, Runtime};
use bits::lexer::Token;
use bits::ops::{OpKey, OpKind};
use bits::source::SourceMap;
use bits::nodes::NodeTree;
use bits::ops::Value;
use bits::source::Span;
use bits::symbol::Symbol;
use bits::vars::VariablesContext;
use bits::typing::{eval_type, BaseType};
use bits::runtime_types::RuntimeTypeContext;
use bits::source::Source;

fn code(expr: Expr) -> Code {
    Code { expr, span: Span::empty() }
}

#[test]
fn execute_values_and_sequences() {
    let mut rt = Runtime::new();
    assert_eq!(code(Expr::SInt(-3)).execute(&mut rt), Ok(Value::SInt(-3)));
    assert_eq!(code(Expr::Nothing).execute(&mut rt), Ok(Value::Nothing));
    let seq = code(Expr::Sequence(vec![code(Expr::Bool(true)), code(Expr::UInt(7))]));
    assert_eq!(seq.execute(&mut rt), Ok(Value::UInt(7)));
    assert_eq!(code(Expr::Sequence(vec![])).execute(&mut rt), Ok(Value::Nothing));
    assert_eq!(rt.output(), "");
}

#[test]
fn execute_print() {
    let mut rt = Runtime::new();
    let print = code(Expr::Print(vec![
        code(Expr::SInt(1)),
        code(Expr::Unit),
        code(Expr::Nothing),
        code(Expr::Bool(false)),
        code(Expr::SInt(i64::MIN)),
        code(Expr::UInt(42)),
    ]));
    assert_eq!(print.execute(&mut rt), Ok(Value::Unit));
    assert_eq!(rt.output(), "1 false -9223372036854775808 42\n");
    assert_eq!(code(Expr::Print(vec![])).execute(&mut rt), Ok(Value::Unit));
    assert_eq!(rt.output(), "1 false -9223372036854775808 42\n\n");
}

#[test]
fn execute_variables() {
    let mut tree: NodeTree<u8> = NodeTree::new();
    let node = tree.new_node(0, Span::empty(), false);
    let mut vars = VariablesContext::new();
    let x = vars.declare(Symbol::str("x"), node);
    let y = vars.declare(Symbol::str("y"), node);

    let mut rt = Runtime::new();
    assert_eq!(code(Expr::Var(x)).execute(&mut rt), Err(ExecError::NotInitialized(x)));
    let let_x = code(Expr::Let(x, Box::new(code(Expr::SInt(5)))));
    assert_eq!(let_x.execute(&mut rt), Ok(Value::SInt(5)));
    assert_eq!(rt.get(x), Some(Value::SInt(5)));
    assert_eq!(rt.get(y), None);
    assert_eq!(let_x.execute(&mut rt), Err(ExecError::AlreadyDefined(x)));
    let prog = code(Expr::Sequence(vec![
        code(Expr::Print(vec![code(Expr::Var(x))])),
        code(Expr::Print(vec![code(Expr::Var(y))])),
        code(Expr::Print(vec![code(Expr::SInt(9))])),
    ]));
    // the error stops the sequence: the last print does not run
    assert_eq!(prog.execute(&mut rt), Err(ExecError::NotInitialized(y)));
    assert_eq!(rt.output(), "5\n");
}

#[test]
fn compile_and_run_a_module() {
    let mut map = SourceMap::new(b".");
    let src = map.from_string("test", "print 5 4_2");
    let mut tree: NodeTree<NodeValue> = NodeTree::new();
    let vars = VariablesContext::new();
    let module = tree.new_node(NodeValue::Module(src), Span::new(src, 0, 11, 0), true);
    let print = tree.new_node(NodeValue::Print, Span::new(src, 0, 5, 0), false);
    let five = tree.new_node(NodeValue::SInt(5), Span::new(src, 6, 7, 0), false);
    let lit = tree.new_node(NodeValue::Token(Token::Integer), Span::new(src, 8, 11, 0), false);
    let group = tree.new_node(NodeValue::Group { scoped: true }, Span::new(src, 8, 11, 0), true);
    tree.append_nodes(group, &[lit.id()]);
    tree.append_nodes(print, &[five.id(), group.id()]);
    tree.append_nodes(module, &[print.id()]);

    let code = compile(&tree, &map, &vars, module).unwrap();
    let mut rt = Runtime::new();
    assert_eq!(code.execute(&mut rt), Ok(Value::Unit));
    assert_eq!(rt.output(), "5 42\n");
}

#[test]
fn compile_errors_name_the_node() {
    let mut map = SourceMap::new(b".");
    let src = map.from_string("test", "12x");
    let mut tree: NodeTree<NodeValue> = NodeTree::new();
    let vars = VariablesContext::new();
    let s = tree.new_node(NodeValue::Str(b"hi".to_vec()), Span::empty(), false);
    assert_eq!(compile(&tree, &map, &vars, s).err(), Some(CompileError::Unsupported(s.id())));
    let source = tree.new_node(NodeValue::Source(src), Span::empty(), false);
    assert_eq!(compile(&tree, &map, &vars, source).err(), Some(CompileError::NotCompilable(source.id())));
    let bad = tree.new_node(NodeValue::Token(Token::Integer), Span::new(src, 0, 3, 0), false);
    assert_eq!(compile(&tree, &map, &vars, bad).err(), Some(CompileError::InvalidLiteral(bad.id())));
    let a = tree.new_node(NodeValue::UInt(1), Span::empty(), false);
    let b = tree.new_node(NodeValue::UInt(2), Span::empty(), false);
    let op = tree.new_node(NodeValue::BinaryOp(OpKey(OpKind::Core, Symbol::str("+"))), Span::empty(), false);
    tree.append_nodes(op, &[a.id(), b.id()]);
    assert_eq!(compile(&tree, &map, &vars, op).err(), Some(CompileError::OperatorNotDefined(op.id())));
    let g = tree.new_node(NodeValue::Group { scoped: false }, Span::empty(), true);
    let c = tree.new_node(NodeValue::Unit, Span::empty(), false);
    let d = tree.new_node(NodeValue::Unit, Span::empty(), false);
    tree.append_nodes(g, &[c.id(), d.id()]);
    assert_eq!(compile(&tree, &map, &vars, g).err(), Some(CompileError::MultipleChildren(g.id())));
    let empty = tree.new_node(NodeValue::Group { scoped: false }, Span::empty(), true);
    assert!(compile(&tree, &map, &vars, empty).is_ok());
}

#[test]
fn execute_reports_compiles_and_runs() {
    let map = SourceMap::new(b".");
    let mut tree: NodeTree<NodeValue> = NodeTree::new();
    let vars = VariablesContext::new();
    let p1 = tree.new_node(NodeValue::Print, Span::empty(), false);
    let a = tree.new_node(NodeValue::SInt(-7), Span::empty(), false);
    let b = tree.new_node(NodeValue::Bool(true), Span::empty(), false);
    tree.append_nodes(p1, &[a.id(), b.id()]);
    let last = tree.new_node(NodeValue::UInt(3), Span::empty(), false);

    match execute(&tree, &map, &vars, &[], &[p1.id(), last.id()]) {
        Ok((v, out)) => {
            assert_eq!(v, Value::UInt(3));
            assert_eq!(out, "-7 true\n");
        },
        Err(_) => panic!("expected success"),
    }
    match execute(&tree, &map, &vars, &[], &[]) {
        Ok((v, out)) => {
            assert_eq!(v, Value::Nothing);
            assert_eq!(out, "");
        },
        Err(_) => panic!("expected success"),
    }
    match execute(&tree, &map, &vars, &[(1, 5), (1, 5), (2, 6)], &[p1.id()]) {
        Err(ExecuteError::Pending(listed, left)) => {
            assert_eq!(listed, vec![0, 2]);
            assert_eq!(left, 1);
        },
        _ => panic!("expected pending nodes"),
    }
    let s = tree.new_node(NodeValue::Str(b"x".to_vec()), Span::empty(), false);
    match execute(&tree, &map, &vars, &[], &[p1.id(), s.id()]) {
        Err(ExecuteError::Compile(e)) => assert_eq!(e, CompileError::Unsupported(s.id())),
        _ => panic!("expected a compile error"),
    }
}

#[test]
fn node_types() {
    let mut tree: NodeTree<NodeValue> = NodeTree::new();
    let mut vars = VariablesContext::new();
    let module = tree.new_node(NodeValue::Module(Source::empty()), Span::empty(), true);
    let print = tree.new_node(NodeValue::Print, Span::empty(), false);
    let lit = tree.new_node(NodeValue::Token(Token::Integer), Span::empty(), false);
    tree.append_nodes(module, &[print.id(), lit.id()]);
    assert_eq!(eval_type(&tree, &vars, module), Ok(BaseType::SInt));
    assert_eq!(eval_type(&tree, &vars, print), Ok(BaseType::Unit));
    let group = tree.new_node(NodeValue::Group { scoped: false }, Span::empty(), true);
    assert_eq!(eval_type(&tree, &vars, group), Ok(BaseType::Nothing));
    let word = tree.new_node(NodeValue::Token(Token::Word(Symbol::str("w"))), Span::empty(), false);
    assert_eq!(eval_type(&tree, &vars, word), Ok(BaseType::Invalid));
    // a variable has the type of the node that declares it
    let decl = tree.new_node(NodeValue::Nothing, Span::empty(), false);
    let x = vars.declare(Symbol::str("x"), decl);
    tree.set_value(decl, NodeValue::Let(x));
    let s = tree.new_node(NodeValue::Str(b"s".to_vec()), Span::empty(), false);
    tree.append_nodes(decl, &[s.id()]);
    let use_x = tree.new_node(NodeValue::Var(x), Span::empty(), false);
    assert_eq!(eval_type(&tree, &vars, use_x), Ok(BaseType::Str));

    let mut types = RuntimeTypeContext::new();
    assert_eq!(BaseType::SInt.runtime_type(&mut types), types.sint());
    let inv = BaseType::Invalid.runtime_type(&mut types);
    assert!(inv.is_invalid(&types));
}

#[test]
fn node_type_cycles() {
    let map = SourceMap::new(b".");
    let mut tree: NodeTree<NodeValue> = NodeTree::new();
    let mut vars = VariablesContext::new();
    // let y = y
    let decl = tree.new_node(NodeValue::Nothing, Span::empty(), false);
    let y = vars.declare(Symbol::str("y"), decl);
    tree.set_value(decl, NodeValue::Let(y));
    let use_y = tree.new_node(NodeValue::Var(y), Span::empty(), false);
    tree.append_nodes(decl, &[use_y.id()]);
    assert_eq!(eval_type(&tree, &vars, decl), Err(decl.id()));
    assert_eq!(eval_type(&tree, &vars, use_y), Err(use_y.id()));
    // an operand whose type depends on itself is reported before the operator
    let one = tree.new_node(NodeValue::SInt(1), Span::empty(), false);
    let op = tree.new_node(NodeValue::BinaryOp(OpKey(OpKind::Core, Symbol::str("+"))), Span::empty(), false);
    let use_y2 = tree.new_node(NodeValue::Var(y), Span::empty(), false);
    tree.append_nodes(op, &[one.id(), use_y2.id()]);
    assert_eq!(compile(&tree, &map, &vars, op).err(), Some(CompileError::TypeCycle(decl.id())));
}
