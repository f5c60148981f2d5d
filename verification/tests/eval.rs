use bits::eval::{
    binary_op_plan, else_plan, EvalLet, if_chain_plan, indent_plan, let_plan, line_break_plan, pending_report, ChainKind, ElseKind, IfChain,
    IndentError, IndentItem, LineItem, Marker, OpTree,
};
use bits::code::NodeValue;
use bits::lexer::Token;
use bits::nodes::{Node, NodeTree};
use bits::source::{Source, SourceMap, Span};
use bits::vars::VariablesContext;
use bits::symbol::Symbol;

fn operand(a: usize, b: usize) -> Box<OpTree> {
    Box::new(OpTree::Operand(a, b))
}

#[test]
fn binary_operators_group_left_and_right() {
    // a + b + c
    let left = binary_op_plan(5, &[1, 3], false).unwrap();
    assert_eq!(left, OpTree::Op(Box::new(OpTree::Op(operand(0, 1), operand(2, 3))), operand(4, 5)));
    let right = binary_op_plan(5, &[1, 3], true).unwrap();
    assert_eq!(right, OpTree::Op(operand(0, 1), Box::new(OpTree::Op(operand(2, 3), operand(4, 5)))));
    // a single operator
    assert_eq!(binary_op_plan(3, &[1], false).unwrap(), OpTree::Op(operand(0, 1), operand(2, 3)));
}

#[test]
fn binary_operator_empty_operand() {
    // + b
    assert_eq!(binary_op_plan(3, &[0], false), Err(0));
    assert_eq!(binary_op_plan(3, &[0], true), Err(0));
    // a + + b
    assert_eq!(binary_op_plan(4, &[1, 2], false), Err(1));
    assert_eq!(binary_op_plan(4, &[1, 2], true), Err(0));
    // a +
    assert_eq!(binary_op_plan(2, &[1], false), Err(0));
    assert_eq!(binary_op_plan(2, &[1], true), Err(0));
}

#[test]
fn line_breaks_follow_indentation() {
    let levels = [0, 0, 4, 0, 4, 0, 0];
    let items = line_break_plan(&levels, &[1, 3, 5]).unwrap();
    assert_eq!(
        items,
        vec![
            LineItem::Line(0, 1),
            LineItem::Indent,
            LineItem::Line(2, 3),
            LineItem::Line(4, 5),
            LineItem::Dedent,
            LineItem::Line(6, 7),
        ]
    );
    // open levels are closed at the end; empty lines make nothing
    let items = line_break_plan(&[0, 0, 0, 4], &[1, 2]).unwrap();
    assert_eq!(items, vec![LineItem::Line(0, 1), LineItem::Indent, LineItem::Line(3, 4), LineItem::Dedent]);
}

#[test]
fn line_break_below_base_indentation() {
    assert_eq!(line_break_plan(&[4, 0, 0], &[1]), Err(2));
}

#[test]
fn indentation_regroups_blocks() {
    let items = indent_plan(6, &[1, 4], &[Marker::Open, Marker::Close]).unwrap();
    assert_eq!(
        items,
        vec![
            IndentItem::Children(0, 1),
            IndentItem::Open,
            IndentItem::Children(2, 4),
            IndentItem::Close,
            IndentItem::Children(5, 6),
        ]
    );
    assert_eq!(indent_plan(2, &[0], &[Marker::Close]), Err(IndentError::Unbalanced(0)));
    assert_eq!(indent_plan(2, &[0], &[Marker::Open]), Err(IndentError::Missing));
    assert_eq!(indent_plan(2, &[1], &[Marker::Other]), Err(IndentError::Invalid(0)));
}

#[test]
fn if_chains() {
    let kinds = [ChainKind::ElseIf, ChainKind::ElseIf, ChainKind::Else, ChainKind::Other];
    assert_eq!(if_chain_plan(&kinds), Ok(IfChain { len: 3, has_else: true }));
    assert_eq!(if_chain_plan(&[ChainKind::ElseIf]), Ok(IfChain { len: 1, has_else: false }));
    assert_eq!(if_chain_plan(&[ChainKind::Else, ChainKind::ElseIf]), Err(0));
    assert_eq!(if_chain_plan(&[ChainKind::Other, ChainKind::Else]), Ok(IfChain { len: 0, has_else: false }));
    assert_eq!(if_chain_plan(&[]), Ok(IfChain { len: 0, has_else: false }));
}

#[test]
fn else_statements() {
    let word_if = Token::Word(Symbol::str("if"));
    let word_x = Token::Word(Symbol::str("x"));
    assert_eq!(else_plan(Some(&word_if)), Some((ElseKind::ElseIf, 1)));
    assert_eq!(else_plan(Some(&word_x)), None);
    assert_eq!(else_plan(Some(&Token::Integer)), Some((ElseKind::Else, 0)));
    assert_eq!(else_plan(None), Some((ElseKind::Else, 0)));
}

#[test]
fn let_statements() {
    let name = Token::Word(Symbol::str("x"));
    let eq = Token::Symbol(Symbol::str("="));
    let plus = Token::Symbol(Symbol::str("+"));
    assert_eq!(let_plan(Some(&name), Some(&eq)), Some(Symbol::str("x")));
    assert_eq!(let_plan(Some(&name), Some(&plus)), None);
    assert_eq!(let_plan(Some(&Token::Integer), Some(&eq)), None);
    assert_eq!(let_plan(Some(&name), None), None);
}

#[test]
fn pending_nodes_report() {
    // one source: at most twenty nodes
    let items: Vec<(usize, u64)> = (0..25).map(|i| (1, i)).collect();
    let (shown, skipped) = pending_report(&items);
    assert_eq!(shown, (0..20).collect::<Vec<usize>>());
    assert_eq!(skipped, 5);
    // the same node value in one source is reported once
    let (shown, skipped) = pending_report(&[(2, 7), (3, 7), (2, 7), (2, 8)]);
    assert_eq!(shown, vec![0, 1, 3]);
    assert_eq!(skipped, 1);
    // at most fifty nodes are listed
    let items: Vec<(usize, u64)> = (0..60).map(|i| (i, 0)).collect();
    let (shown, skipped) = pending_report(&items);
    assert_eq!(shown.len(), 50);
    assert_eq!(skipped, 0);
}

fn let_tree(text: &str, src: Source) -> (NodeTree<NodeValue>, Node, Vec<Node>) {
    let mut tree: NodeTree<NodeValue> = NodeTree::new();
    let whole = if src == Source::empty() { Span::empty() } else { Span::new(src, 0, text.len(), 0) };
    let parent = tree.new_node(NodeValue::Sequence { scoped: true, indented: false }, whole, true);
    let mut kids = Vec::new();
    let mut pos = 0;
    for word in text.split(' ') {
        let value = match word {
            "=" | "+" => NodeValue::Token(Token::Symbol(Symbol::str(word))),
            "1" | "2" => NodeValue::Token(Token::Integer),
            _ => NodeValue::Token(Token::Word(Symbol::str(word))),
        };
        let span = if src == Source::empty() { Span::empty() } else { Span::new(src, pos, pos + word.len(), 0) };
        let n = tree.new_node(value, span, false);
        tree.push_node(parent, n);
        kids.push(n);
        pos += word.len() + 1;
    }
    (tree, parent, kids)
}

#[test]
fn let_declares_a_variable() {
    let mut map = SourceMap::new(b".");
    let text = "let x = 1 + 2";
    let src = map.from_string("test", text);
    let (mut tree, parent, kids) = let_tree(text, src);
    let mut vars = VariablesContext::new();
    let scope = EvalLet.eval_node(&mut tree, &mut vars, kids[0]).unwrap().unwrap();
    // the new node is the only child of the parent
    assert_eq!(tree.len(parent), 1);
    let node = tree.node(parent, 0).unwrap();
    assert_eq!(node.id(), kids.len() + 1);
    assert!(matches!(tree.value(node), NodeValue::Let(v) if *v == scope.var));
    assert_eq!(tree.span(node), Span::new(src, 0, 5, 0));
    assert!(tree.is_done(node));
    // its children are the expression
    assert_eq!(tree.nodes(node), &[kids[3].id(), kids[4].id(), kids[5].id()]);
    for k in 0..3 {
        assert!(tree.is_silent(kids[k]) && tree.is_done(kids[k]));
        assert!(tree.parent(kids[k]).is_none());
    }
    // the variable and its scope
    assert_eq!(vars.len(), 1);
    assert_eq!(vars.name(scope.var), &Symbol::str("x"));
    assert_eq!(vars.node(scope.var), node);
    assert_eq!((scope.start, scope.end), (13, 13));
    assert_eq!((scope.expr_start, scope.expr_end), (8, 13));
}

#[test]
fn let_without_expression_or_equals() {
    let mut map = SourceMap::new(b".");
    let text = "let y =";
    let src = map.from_string("test", text);
    let (mut tree, parent, kids) = let_tree(text, src);
    let mut vars = VariablesContext::new();
    let scope = EvalLet.eval_node(&mut tree, &mut vars, kids[0]).unwrap().unwrap();
    let node = tree.node(parent, 0).unwrap();
    assert_eq!(tree.len(node), 0);
    assert_eq!((scope.start, scope.end), (5, 7));
    assert_eq!((scope.expr_start, scope.expr_end), (0, 0));

    // no `=`: the node is only kept alive
    let text = "let y + 1";
    let src = map.from_string("test", text);
    let (mut tree, parent, kids) = let_tree(text, src);
    tree.flag_done(kids[0]);
    assert!(EvalLet.eval_node(&mut tree, &mut vars, kids[0]).unwrap().is_none());
    assert!(!tree.is_done(kids[0]));
    assert_eq!(tree.len(parent), 4);
    // not the first child
    assert!(EvalLet.eval_node(&mut tree, &mut vars, kids[1]).unwrap().is_none());
    assert_eq!(vars.len(), 1);
}

#[test]
fn let_without_scope_is_an_error() {
    let text = "let z = 2";
    let (mut tree, parent, kids) = let_tree(text, Source::empty());
    let mut vars = VariablesContext::new();
    let err = EvalLet.eval_node(&mut tree, &mut vars, kids[0]).unwrap_err();
    assert_eq!(err, Span::empty());
    assert_eq!(tree.len(parent), 0);
    assert_eq!(tree.count(), kids.len() + 2);
    assert_eq!(vars.len(), 0);
}
