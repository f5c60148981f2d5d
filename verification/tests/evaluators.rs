use bits::eval::{ChainKind, IndentError, Marker};
use bits::evaluators::{EvalBinaryOp, EvalBool, EvalElse, EvalIf, EvalIndentedBlock, EvalPrint, EvalVar, TokenizeSource};
use bits::lexer::Token;
use bits::nodes::{Node, NodeTree};
use bits::ops::{OpKey, OpKind};
use bits::source::{SourceMap, Span};
use bits::symbol::Symbol;

#[derive(Copy, Clone, Debug, PartialEq)]
enum V {
    Root,
    Child(u32),
    Print,
    Group,
    Op,
}

/// A parent with `n` children; child `i` spans `i..i+1` of a source.
fn parent_with(n: usize) -> (NodeTree<V>, Node, Vec<Node>) {
    let mut map = SourceMap::new(b".");
    let src = map.from_string("test", "0123456789");
    let mut tree = NodeTree::new();
    let parent = tree.new_node(V::Root, Span::empty(), true);
    let kids: Vec<Node> = (0..n)
        .map(|i| tree.new_node(V::Child(i as u32), Span::new(src, i, i + 1, 0), false))
        .collect();
    let ids: Vec<usize> = kids.iter().map(|k| k.id()).collect();
    tree.append_nodes(parent, &ids);
    (tree, parent, kids)
}

fn plus() -> OpKey {
    OpKey(OpKind::Core, Symbol::str("+"))
}

#[test]
fn print_nests_from_the_last_match() {
    // a print b c print d
    let (mut tree, parent, kids) = parent_with(6);
    EvalPrint.eval_nodes(&mut tree, parent, &[1, 4], V::Print);
    let p1 = tree.node(parent, 1).unwrap();
    assert_eq!(tree.nodes(parent), &[kids[0].id(), p1.id()][..]);
    assert_eq!(*tree.value(p1), V::Print);
    let p4 = tree.node(p1, 2).unwrap();
    assert_eq!(tree.nodes(p1), &[kids[2].id(), kids[3].id(), p4.id()][..]);
    assert_eq!(tree.nodes(p4), &[kids[5].id()][..]);
    // the node of the last match is made first
    assert!(p4.id() < p1.id());
    assert!(tree.is_done(p1) && tree.is_done(p4));
    assert!(tree.is_silent(kids[1]) && tree.is_silent(kids[4]));
    assert_eq!(tree.parent(kids[1]), None);
    // spans run from the match to the last node taken
    assert_eq!(tree.span(p4).pos(), 4);
    assert_eq!(tree.span(p4).end(), 6);
    assert_eq!(tree.span(p1).pos(), 1);
    assert_eq!(tree.span(p1).end(), 6);
}

#[test]
fn print_at_the_end_takes_nothing() {
    let (mut tree, parent, kids) = parent_with(3);
    EvalPrint.eval_nodes(&mut tree, parent, &[2], V::Print);
    let p = tree.node(parent, 2).unwrap();
    assert_eq!(tree.len(parent), 3);
    assert_eq!(tree.len(p), 0);
    assert_eq!(tree.span(p), tree.span(kids[2]));
}

#[test]
fn binary_op_groups_left() {
    // a + b c + d
    let (mut tree, parent, kids) = parent_with(6);
    let rule = EvalBinaryOp { op: plus(), group_right: false };
    assert_eq!(rule.eval_nodes(&mut tree, parent, &[1, 4], V::Group, V::Op), Ok(()));
    assert_eq!(tree.len(parent), 1);
    let top = tree.node(parent, 0).unwrap();
    assert_eq!(*tree.value(top), V::Op);
    let left = tree.node(top, 0).unwrap();
    let right = tree.node(top, 1).unwrap();
    assert_eq!(*tree.value(left), V::Op);
    assert_eq!(*tree.value(right), V::Group);
    assert_eq!(tree.nodes(right), &[kids[5].id()][..]);
    let a = tree.node(left, 0).unwrap();
    let bc = tree.node(left, 1).unwrap();
    assert_eq!(tree.nodes(a), &[kids[0].id()][..]);
    assert_eq!(tree.nodes(bc), &[kids[2].id(), kids[3].id()][..]);
    assert!(tree.is_done(bc) && !tree.is_done(left));
    assert!(tree.is_silent(kids[1]) && tree.is_done(kids[4]));
    assert_eq!(tree.span(bc).pos(), 2);
    assert_eq!(tree.span(bc).end(), 4);
    assert_eq!(tree.span(top).pos(), 0);
    assert_eq!(tree.span(top).end(), 6);
}

#[test]
fn binary_op_groups_right() {
    // a = b = c
    let (mut tree, parent, kids) = parent_with(5);
    let rule = EvalBinaryOp { op: plus(), group_right: true };
    assert_eq!(rule.eval_nodes(&mut tree, parent, &[1, 3], V::Group, V::Op), Ok(()));
    let top = tree.node(parent, 0).unwrap();
    let a = tree.node(top, 0).unwrap();
    let rest = tree.node(top, 1).unwrap();
    assert_eq!(tree.nodes(a), &[kids[0].id()][..]);
    assert_eq!(*tree.value(rest), V::Op);
    let b = tree.node(rest, 0).unwrap();
    let c = tree.node(rest, 1).unwrap();
    assert_eq!(tree.nodes(b), &[kids[2].id()][..]);
    assert_eq!(tree.nodes(c), &[kids[4].id()][..]);
}

#[test]
fn binary_op_empty_operand() {
    // a + + b: the operand between the operators is empty
    let (mut tree, parent, kids) = parent_with(4);
    let rule = EvalBinaryOp { op: plus(), group_right: false };
    assert_eq!(rule.eval_nodes(&mut tree, parent, &[1, 2], V::Group, V::Op), Err(1));
    // the tree is left as it was
    assert_eq!(tree.len(parent), 4);
    assert_eq!(tree.nodes(parent)[1], kids[1].id());
    assert!(!tree.is_silent(kids[1]));
    // an operator at the end leaves the last operand empty
    let rule = EvalBinaryOp { op: plus(), group_right: false };
    assert_eq!(rule.eval_nodes(&mut tree, parent, &[3], V::Group, V::Op), Err(0));
}

#[test]
fn if_statement_takes_condition_and_block() {
    let (mut tree, parent, kids) = parent_with(4);
    let root = tree.new_node(V::Group, Span::empty(), true);
    let block = tree.new_node(V::Group, Span::empty(), true);
    let expr: Vec<usize> = tree.remove_nodes(parent, bits::source::RangeBound::Included(1), bits::source::RangeBound::Unbounded);
    bits::evaluators::eval_if(&mut tree, root, &expr, block, V::Group, V::Print);
    assert_eq!(*tree.value(root), V::Print);
    assert_eq!(tree.len(root), 2);
    let cond = tree.node(root, 0).unwrap();
    assert_eq!(tree.node(root, 1), Some(block));
    assert_eq!(tree.nodes(cond), &[kids[1].id(), kids[2].id(), kids[3].id()][..]);
    assert_eq!(tree.span(cond).pos(), 1);
    assert_eq!(tree.span(cond).end(), 4);
    assert!(!tree.is_done(cond));
}

#[test]
fn for_statement_takes_expression_and_block() {
    let (mut tree, parent, kids) = parent_with(2);
    let root = tree.new_node(V::Group, Span::empty(), true);
    let block = tree.new_node(V::Group, Span::empty(), true);
    let expr: Vec<usize> = tree.remove_nodes(parent, bits::source::RangeBound::Unbounded, bits::source::RangeBound::Unbounded);
    bits::evaluators::eval_for(&mut tree, root, &expr, block, V::Group, V::Op);
    assert_eq!(*tree.value(root), V::Op);
    let e = tree.node(root, 0).unwrap();
    assert_eq!(tree.nodes(e), &[kids[0].id(), kids[1].id()][..]);
}

#[test]
fn else_statement_nodes() {
    // plain else: only the block
    let (mut tree, _parent, _kids) = parent_with(0);
    let root = tree.new_node(V::Group, Span::empty(), true);
    let block = tree.new_node(V::Group, Span::empty(), true);
    let r = bits::evaluators::eval_else(&mut tree, root, &[], block, None, V::Group, V::Op, V::Print);
    assert_eq!(r, Ok(()));
    assert_eq!(*tree.value(root), V::Print);
    assert!(tree.is_done(root));
    assert_eq!(tree.nodes(root), &[block.id()][..]);

    // else if: the word `if` is skipped, the rest is the condition
    let (mut tree, parent, kids) = parent_with(3);
    let root = tree.new_node(V::Group, Span::empty(), true);
    let block = tree.new_node(V::Group, Span::empty(), true);
    let expr: Vec<usize> = tree.remove_nodes(parent, bits::source::RangeBound::Unbounded, bits::source::RangeBound::Unbounded);
    let word_if = Token::Word(Symbol::str("if"));
    let r = bits::evaluators::eval_else(&mut tree, root, &expr, block, Some(&word_if), V::Group, V::Op, V::Print);
    assert_eq!(r, Ok(()));
    assert_eq!(*tree.value(root), V::Op);
    assert!(tree.is_silent(kids[0]) && tree.is_done(kids[0]));
    let cond = tree.node(root, 0).unwrap();
    assert_eq!(tree.nodes(cond), &[kids[1].id(), kids[2].id()][..]);
    assert_eq!(tree.node(root, 1), Some(block));

    // else followed by another word is an error at the expression
    let (mut tree, parent, _kids) = parent_with(2);
    let root = tree.new_node(V::Group, Span::empty(), true);
    let block = tree.new_node(V::Group, Span::empty(), true);
    let expr: Vec<usize> = tree.remove_nodes(parent, bits::source::RangeBound::Unbounded, bits::source::RangeBound::Unbounded);
    let word = Token::Word(Symbol::str("when"));
    let r = bits::evaluators::eval_else(&mut tree, root, &expr, block, Some(&word), V::Group, V::Op, V::Print);
    let span = r.unwrap_err();
    assert_eq!((span.pos(), span.end()), (0, 2));
    assert_eq!(tree.len(root), 0);
}

#[test]
fn if_chain_nests_else_if_and_else() {
    // if, else if, else if, else, other
    let (mut tree, parent, kids) = parent_with(5);
    let else_body = tree.new_node(V::Group, Span::empty(), true);
    tree.push_node(kids[3], else_body);
    let kinds = [ChainKind::ElseIf, ChainKind::ElseIf, ChainKind::Else, ChainKind::Other];
    assert_eq!(EvalIf.eval_node(&mut tree, kids[0], &kinds, V::Print), Ok(()));
    assert_eq!(tree.nodes(parent), &[kids[0].id(), kids[4].id()][..]);
    assert_eq!(tree.nodes(kids[0]), &[kids[1].id()][..]);
    assert_eq!(tree.nodes(kids[1]), &[kids[2].id()][..]);
    assert_eq!(tree.nodes(kids[2]), &[else_body.id()][..]);
    assert_eq!(*tree.value(kids[1]), V::Print);
    assert_eq!(*tree.value(kids[2]), V::Print);
    assert_eq!(tree.len(kids[3]), 0);
    assert!(tree.is_silent(kids[3]));

    // an else in the middle of the chain is an error
    let (mut tree, _parent, kids) = parent_with(3);
    let kinds = [ChainKind::Else, ChainKind::ElseIf];
    assert_eq!(EvalIf.eval_node(&mut tree, kids[0], &kinds, V::Print), Err(0));
    assert_eq!(tree.len(kids[0]), 0);

    // nothing follows: nothing changes
    let (mut tree, parent, kids) = parent_with(2);
    assert_eq!(EvalIf.eval_node(&mut tree, kids[0], &[ChainKind::Other], V::Print), Ok(()));
    assert_eq!(tree.len(parent), 2);
}

/// A parent whose children have the given indentations; child `i` spans
/// `i..i+1`.
fn parent_indented(levels: &[usize]) -> (NodeTree<V>, Node, Vec<Node>) {
    let mut map = SourceMap::new(b".");
    let src = map.from_string("test", "0123456789");
    let mut tree = NodeTree::new();
    let parent = tree.new_node(V::Root, Span::empty(), true);
    let kids: Vec<Node> = levels
        .iter()
        .enumerate()
        .map(|(i, &ind)| tree.new_node(V::Child(i as u32), Span::new(src, i, i + 1, ind), false))
        .collect();
    let ids: Vec<usize> = kids.iter().map(|k| k.id()).collect();
    tree.append_nodes(parent, &ids);
    (tree, parent, kids)
}

#[test]
fn line_break_groups_lines_and_levels() {
    // a / b (deeper) / c (back to the base level)
    let (mut tree, parent, kids) = parent_indented(&[0, 0, 4, 0, 0]);
    let r = bits::evaluators::EvalLineBreak.eval_nodes(&mut tree, parent, &[1, 3], V::Group, V::Print, V::Op);
    assert_eq!(r, Ok(()));
    let made: Vec<Node> = (0..5).map(|i| tree.node(parent, i).unwrap()).collect();
    assert_eq!(tree.len(parent), 5);
    let values: Vec<V> = made.iter().map(|&n| *tree.value(n)).collect();
    assert_eq!(values, vec![V::Group, V::Print, V::Group, V::Op, V::Group]);
    assert_eq!(tree.nodes(made[0]), &[kids[0].id()][..]);
    assert_eq!(tree.nodes(made[2]), &[kids[2].id()][..]);
    assert_eq!(tree.nodes(made[4]), &[kids[4].id()][..]);
    assert!(tree.is_done(made[0]) && !tree.is_done(made[1]));
    // a level change is the empty span at the start of the next line
    assert_eq!((tree.span(made[1]).pos(), tree.span(made[1]).end()), (2, 2));
    assert_eq!((tree.span(made[3]).pos(), tree.span(made[3]).end()), (4, 4));
    assert!(tree.is_silent(kids[1]) && tree.is_silent(kids[3]));
}

#[test]
fn line_break_closes_levels_at_the_end() {
    let (mut tree, parent, _kids) = parent_indented(&[0, 0, 4]);
    let r = bits::evaluators::EvalLineBreak.eval_nodes(&mut tree, parent, &[1], V::Group, V::Print, V::Op);
    assert_eq!(r, Ok(()));
    assert_eq!(tree.len(parent), 4);
    let last = tree.node(parent, 3).unwrap();
    assert_eq!(*tree.value(last), V::Op);
    // after the last line, at its end
    assert_eq!((tree.span(last).pos(), tree.span(last).end()), (3, 3));
}

#[test]
fn line_break_below_base_level() {
    let (mut tree, parent, kids) = parent_indented(&[4, 0, 0]);
    let r = bits::evaluators::EvalLineBreak.eval_nodes(&mut tree, parent, &[1], V::Group, V::Print, V::Op);
    assert_eq!(r, Err(2));
    assert_eq!(tree.len(parent), 3);
    assert!(!tree.is_silent(kids[1]));
}

#[test]
fn scope_of_a_node() {
    let mut map = SourceMap::new(b".");
    let src = map.from_string("test", "0123456789");
    let mut tree: NodeTree<V> = NodeTree::new();
    let root = tree.new_node(V::Root, Span::new(src, 1, 9, 0), true);
    let group = tree.new_node(V::Group, Span::new(src, 2, 8, 0), true);
    let leaf = tree.new_node(V::Child(0), Span::new(src, 3, 4, 0), false);
    tree.push_node(root, group);
    tree.push_node(group, leaf);
    // only the root opens a scope
    let scoped = [true, false, false];
    assert_eq!(bits::evaluators::get_scope(&tree, leaf, &scoped), Some((src, 1, 9)));
    // the nearest scope wins
    let scoped = [true, true, false];
    assert_eq!(bits::evaluators::get_scope(&tree, leaf, &scoped), Some((src, 2, 8)));
    // without one, the whole source
    let scoped = [false, false, false];
    assert_eq!(bits::evaluators::get_scope(&tree, leaf, &scoped), Some((src, 0, 10)));
    // a node of no source has no scope
    let lone = tree.new_node(V::Child(1), Span::empty(), false);
    let scoped = [false, false, false, false];
    assert_eq!(bits::evaluators::get_scope(&tree, lone, &scoped), None);
}

#[test]
fn indent_makes_blocks() {
    // a { b c } d
    let (mut tree, parent, kids) = parent_with(6);
    let r = bits::evaluators::EvalIndent.eval_nodes(&mut tree, parent, &[1, 4], &[Marker::Open, Marker::Close], V::Group);
    assert_eq!(r, Ok(()));
    assert_eq!(tree.len(parent), 3);
    let block = tree.node(parent, 1).unwrap();
    assert_eq!(tree.nodes(parent), &[kids[0].id(), block.id(), kids[5].id()][..]);
    assert_eq!(tree.nodes(block), &[kids[2].id(), kids[3].id()][..]);
    assert_eq!(*tree.value(block), V::Group);
    assert!(tree.is_block(block) && !tree.is_done(block));
    assert_eq!((tree.span(block).pos(), tree.span(block).end()), (2, 4));
    assert!(tree.is_silent(kids[1]) && tree.is_done(kids[4]));
}

#[test]
fn indent_nests_blocks() {
    // { { x } }
    let (mut tree, parent, kids) = parent_with(5);
    let markers = [Marker::Open, Marker::Open, Marker::Close, Marker::Close];
    let r = bits::evaluators::EvalIndent.eval_nodes(&mut tree, parent, &[0, 1, 3, 4], &markers, V::Group);
    assert_eq!(r, Ok(()));
    assert_eq!(tree.len(parent), 1);
    let outer = tree.node(parent, 0).unwrap();
    let inner = tree.node(outer, 0).unwrap();
    assert_eq!(tree.len(outer), 1);
    assert_eq!(tree.nodes(inner), &[kids[2].id()][..]);
    // the inner block is made first
    assert!(inner.id() < outer.id());
}

#[test]
fn indent_errors() {
    let (mut tree, parent, _kids) = parent_with(3);
    let r = bits::evaluators::EvalIndent.eval_nodes(&mut tree, parent, &[1], &[Marker::Close], V::Group);
    assert_eq!(r, Err(IndentError::Unbalanced(0)));
    let r = bits::evaluators::EvalIndent.eval_nodes(&mut tree, parent, &[0, 2], &[Marker::Open, Marker::Other], V::Group);
    assert_eq!(r, Err(IndentError::Invalid(1)));
    let r = bits::evaluators::EvalIndent.eval_nodes(&mut tree, parent, &[1], &[Marker::Open], V::Group);
    assert_eq!(r, Err(IndentError::Missing));
    // the tree is left as it was
    assert_eq!(tree.len(parent), 3);
}

#[test]
fn tokenize_source_appends_token_nodes() {
    let (mut tree, parent, kids) = parent_with(2);
    let spans: Vec<Span> = kids.iter().map(|k| tree.span(*k)).collect();
    let tokens = vec![(V::Child(7), spans[1]), (V::Child(8), spans[0]), (V::Op, spans[1])];
    TokenizeSource.eval_node(&mut tree, parent, &tokens, V::Group);
    assert_eq!(*tree.value(parent), V::Group);
    assert!(tree.is_done(parent));
    assert_eq!(tree.len(parent), 5);
    let made: Vec<Node> = (2..5).map(|i| tree.node(parent, i).unwrap()).collect();
    assert_eq!(*tree.value(made[0]), V::Child(7));
    assert_eq!(*tree.value(made[1]), V::Child(8));
    assert_eq!(*tree.value(made[2]), V::Op);
    assert_eq!(tree.span(made[1]), spans[0]);
    assert_eq!(tree.parent(made[2]), Some(parent));
    assert_eq!(tree.index(made[2]), 4);
    assert!(!tree.is_done(made[0]));

    TokenizeSource.eval_node(&mut tree, kids[0], &[], V::Root);
    assert_eq!(tree.len(kids[0]), 0);
    assert_eq!(*tree.value(kids[0]), V::Root);
}

#[test]
fn bool_and_var_rules_set_values() {
    let (mut tree, parent, kids) = parent_with(3);
    let ids: Vec<usize> = vec![kids[0].id(), kids[2].id(), kids[0].id()];
    EvalBool(true).eval_nodes(&mut tree, &ids, V::Print);
    assert_eq!(*tree.value(kids[0]), V::Print);
    assert_eq!(*tree.value(kids[1]), V::Child(1));
    assert_eq!(*tree.value(kids[2]), V::Print);
    assert!(!tree.is_done(kids[0]));

    let mut tree2: NodeTree<u8> = NodeTree::new();
    let n = tree2.new_node(0, Span::empty(), false);
    let mut vars = bits::vars::VariablesContext::new();
    let x = vars.declare(Symbol::str("x"), n);
    EvalVar(x).eval_nodes(&mut tree, &[kids[1].id()], V::Op);
    assert_eq!(*tree.value(kids[1]), V::Op);
    assert!(tree.is_done(kids[1]));
    assert!(tree.is_silent(kids[1]));
    assert_eq!(tree.len(parent), 3);
}

/// A tree `top -> [stmt, block]`, `stmt -> [a, b, colon]`.
fn statement_tree() -> (NodeTree<V>, [Node; 6]) {
    let mut map = SourceMap::new(b".");
    let src = map.from_string("test", "ab:");
    let mut tree = NodeTree::new();
    let top = tree.new_node(V::Root, Span::empty(), true);
    let stmt = tree.new_node(V::Group, Span::empty(), true);
    let a = tree.new_node(V::Child(0), Span::new(src, 0, 1, 0), false);
    let b = tree.new_node(V::Child(1), Span::new(src, 1, 2, 0), false);
    let colon = tree.new_node(V::Op, Span::new(src, 2, 3, 0), false);
    let block = tree.new_node(V::Print, Span::empty(), true);
    tree.append_nodes(stmt, &[a.id(), b.id(), colon.id()]);
    tree.append_nodes(top, &[stmt.id(), block.id()]);
    (tree, [top, stmt, a, b, colon, block])
}

#[test]
fn indented_block_splits_head_and_block() {
    let (mut tree, [_, stmt, _, _, colon, block]) = statement_tree();
    let r = EvalIndentedBlock.eval_node(&mut tree, stmt, None, false, V::Group);
    assert_eq!(r, Err(tree.span(colon)));
    assert!(tree.is_silent(colon) && tree.is_done(colon));
    assert_eq!(tree.len(stmt), 3);

    let (mut tree, [_, stmt, _, _, _, block2]) = statement_tree();
    let r = EvalIndentedBlock.eval_node(&mut tree, stmt, Some(block2), false, V::Group);
    assert_eq!(r, Err(tree.span(block2)));
    assert_eq!(tree.len(stmt), 3);
    let _ = block;

    let (mut tree, [top, stmt, a, b, colon, block]) = statement_tree();
    let r = EvalIndentedBlock.eval_node(&mut tree, stmt, Some(block), true, V::Group);
    assert_eq!(r, Ok(()));
    assert_eq!(tree.len(stmt), 2);
    let head = tree.node(stmt, 0).unwrap();
    assert_eq!(*tree.value(head), V::Group);
    assert!(tree.is_done(head));
    assert_eq!(tree.nodes(head), &[a.id(), b.id()]);
    assert_eq!(tree.span(head), Span::merge(tree.span(a), tree.span(b)));
    assert_eq!(tree.node(stmt, 1), Some(block));
    assert!(tree.is_done(block));
    assert_eq!(tree.nodes(top), &[stmt.id()]);
    assert_eq!(tree.parent(colon), None);
    assert!(tree.is_silent(colon));
}

/// `top -> [if_node, stmt, block]`, `if_node -> [cond, body]`,
/// `stmt -> [else, w...]` with `extra` words after `else`.
fn else_tree(extra: usize) -> (NodeTree<V>, Node, Node, Node, Node, Vec<Node>) {
    let mut map = SourceMap::new(b".");
    let src = map.from_string("test", "0123456789");
    let mut tree = NodeTree::new();
    let top = tree.new_node(V::Root, Span::empty(), true);
    let if_node = tree.new_node(V::Op, Span::new(src, 0, 1, 0), false);
    let cond = tree.new_node(V::Child(0), Span::new(src, 0, 1, 0), false);
    let body = tree.new_node(V::Child(1), Span::new(src, 1, 2, 0), true);
    tree.append_nodes(if_node, &[cond.id(), body.id()]);
    let stmt = tree.new_node(V::Group, Span::new(src, 2, 3, 0), true);
    let mut words = Vec::new();
    for w in 0..1 + extra {
        words.push(tree.new_node(V::Child(10 + w as u32), Span::new(src, 2 + w, 3 + w, 0), false));
    }
    let ids: Vec<usize> = words.iter().map(|n| n.id()).collect();
    tree.append_nodes(stmt, &ids);
    let block = tree.new_node(V::Print, Span::new(src, 8, 9, 0), true);
    tree.append_nodes(top, &[if_node.id(), stmt.id(), block.id()]);
    (tree, top, if_node, stmt, block, words)
}

#[test]
fn else_attaches_block_to_if() {
    let (mut tree, top, if_node, stmt, block, words) = else_tree(0);
    let r = EvalElse.eval_node(&mut tree, stmt, Some(if_node), true, true, V::Group);
    assert_eq!(r, Ok(()));
    assert_eq!(tree.nodes(top), &[if_node.id()]);
    assert_eq!(tree.len(if_node), 3);
    assert_eq!(tree.node(if_node, 2), Some(block));
    assert_eq!(tree.parent(stmt), None);
    assert!(tree.is_silent(stmt) && tree.is_done(stmt));
    assert!(tree.is_silent(words[0]) && tree.is_done(words[0]));
    assert_eq!(tree.len(stmt), 0);
}

#[test]
fn else_if_groups_condition_and_block() {
    let (mut tree, top, if_node, stmt, block, words) = else_tree(2);
    let r = EvalElse.eval_node(&mut tree, stmt, Some(if_node), true, true, V::Group);
    assert_eq!(r, Ok(()));
    assert_eq!(tree.nodes(top), &[if_node.id()]);
    let outer = tree.node(if_node, 2).unwrap();
    assert_eq!(*tree.value(outer), V::Group);
    assert_eq!(tree.len(outer), 2);
    let cond = tree.node(outer, 0).unwrap();
    assert_eq!(tree.nodes(cond), &[words[1].id(), words[2].id()]);
    assert_eq!(tree.node(outer, 1), Some(block));
    assert_eq!(tree.span(cond), Span::merge(tree.span(words[1]), tree.span(words[2])));
}

#[test]
fn else_errors_leave_the_tree() {
    let (mut tree, _, if_node, stmt, block, words) = else_tree(0);
    assert_eq!(EvalElse.eval_node(&mut tree, stmt, None, true, true, V::Group), Err(tree.span(words[0])));
    assert!(tree.is_silent(words[0]));
    assert_eq!(tree.len(stmt), 1);

    let (mut tree, _, if_node2, stmt, _, _) = else_tree(0);
    assert_eq!(EvalElse.eval_node(&mut tree, stmt, Some(if_node2), false, true, V::Group), Err(tree.span(if_node2)));

    let (mut tree, _, if_node3, stmt, block3, _) = else_tree(0);
    assert_eq!(EvalElse.eval_node(&mut tree, stmt, Some(if_node3), true, false, V::Group), Err(tree.span(block3)));
    assert_eq!(tree.len(if_node3), 2);
    let _ = (if_node, block);
}
