use bits::nodes::{Node, NodeTree};
use bits::source::{RangeBound, Span};

fn tree_of(n: usize) -> (NodeTree<u32>, Vec<Node>) {
    let mut tree = NodeTree::new();
    let nodes = (0..n).map(|i| tree.new_node(i as u32, Span::empty(), false)).collect();
    (tree, nodes)
}

fn ids(nodes: &[Node]) -> Vec<usize> {
    nodes.iter().map(|n| n.id()).collect()
}

#[test]
fn append_and_navigate() {
    let (mut tree, n) = tree_of(5);
    tree.append_nodes(n[0], &ids(&n[1..4]));
    assert_eq!(tree.len(n[0]), 3);
    assert_eq!(tree.parent(n[2]), Some(n[0]));
    assert_eq!(tree.index(n[3]), 2);
    assert_eq!(tree.node(n[0], 1), Some(n[2]));
    assert_eq!(tree.node(n[0], 3), None);
    assert_eq!(tree.next(n[1]), Some(n[2]));
    assert_eq!(tree.next(n[3]), None);
    assert_eq!(tree.prev(n[1]), None);
    assert_eq!(tree.prev(n[3]), Some(n[2]));
    assert_eq!(*tree.value(n[4]), 4);

    // the next node of the last child is the next sibling of its parent
    tree.push_node(n[3], n[4]);
    let top = tree.new_node(9, Span::empty(), false);
    let other = tree.new_node(10, Span::empty(), false);
    tree.append_nodes(top, &[n[0].id(), other.id()]);
    assert!(tree.is_rooted(n[4]));
    assert_eq!(tree.find_next(n[4]), Some(other));
    assert_eq!(tree.find_prev(n[4]), Some(n[2]));
    assert_eq!(tree.find_next(other), None);
}

#[test]
fn remove_children() {
    let (mut tree, n) = tree_of(6);
    tree.append_nodes(n[0], &ids(&n[1..6]));
    let removed = tree.remove_nodes(n[0], RangeBound::Included(1), RangeBound::Excluded(3));
    assert_eq!(removed, vec![n[2].id(), n[3].id()]);
    assert_eq!(tree.nodes(n[0]), &[n[1].id(), n[4].id(), n[5].id()][..]);
    assert_eq!(tree.parent(n[2]), None);
    // removed nodes keep their position; later ones move back
    assert_eq!(tree.index(n[3]), 2);
    assert_eq!(tree.index(n[4]), 1);
    assert_eq!(tree.index(n[5]), 2);

    assert!(tree.remove(n[4]));
    assert_eq!(tree.nodes(n[0]), &[n[1].id(), n[5].id()][..]);
    assert_eq!(tree.index(n[4]), 0);
    assert_eq!(tree.index(n[5]), 1);
    assert!(!tree.remove(n[4]));
}

#[test]
fn set_children() {
    let (mut tree, n) = tree_of(5);
    tree.append_nodes(n[0], &[n[1].id(), n[2].id()]);
    tree.set_nodes(n[0], &[n[3].id(), n[1].id()]);
    assert_eq!(tree.nodes(n[0]), &[n[3].id(), n[1].id()][..]);
    assert_eq!(tree.parent(n[2]), None);
    assert_eq!(tree.index(n[1]), 1);
    assert_eq!(tree.index(n[3]), 0);
}

#[test]
fn status_flags() {
    let (mut tree, n) = tree_of(1);
    assert!(!tree.is_done(n[0]));
    tree.flag_done(n[0]);
    assert!(tree.is_done(n[0]));
    assert!(!tree.is_silent(n[0]));
    tree.keep_alive(n[0]);
    assert!(!tree.is_done(n[0]));
    tree.ignore(n[0]);
    assert!(tree.is_done(n[0]) && tree.is_silent(n[0]));
    tree.set_value(n[0], 7);
    assert!(!tree.is_done(n[0]) && !tree.is_silent(n[0]));
    assert_eq!(*tree.value(n[0]), 7);
}

#[test]
fn blocks() {
    let mut tree: NodeTree<u32> = NodeTree::new();
    let outer = tree.new_node(0, Span::empty(), true);
    let inner = tree.new_node(1, Span::empty(), true);
    let leaf = tree.new_node(2, Span::empty(), false);
    tree.push_node(outer, inner);
    tree.push_node(inner, leaf);
    assert_eq!(tree.enter_block(outer), Some(leaf));
    let empty = tree.new_node(3, Span::empty(), true);
    assert_eq!(tree.enter_block(empty), None);
    assert!(tree.is_block(outer));
}
