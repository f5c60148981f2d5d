use bits::nodes::NodeTree;
use bits::source::Span;
use bits::symbol::Symbol;
use bits::vars::VariablesContext;

#[test]
fn declared_variables_read_back() {
    let mut tree: NodeTree<u8> = NodeTree::new();
    let a = tree.new_node(1, Span::empty(), false);
    let b = tree.new_node(2, Span::empty(), false);
    let mut vars = VariablesContext::new();
    let x = vars.declare(Symbol::str("x"), a);
    let y = vars.declare(Symbol::str("y"), b);
    assert_eq!(vars.len(), 2);
    assert_eq!((x.id(), y.id()), (0, 1));
    assert!(vars.name(x).same(&Symbol::str("x")));
    assert!(vars.name(y).same(&Symbol::str("y")));
    assert_eq!(vars.node(x), a);
    assert_eq!(vars.node(y), b);
    assert_ne!(x, y);
}
