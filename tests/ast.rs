use cxt::ast::{entity_children_all, AstNode};

fn node(id: usize, kind: i32, in_system_header: bool, children: Vec<AstNode>) -> AstNode {
    AstNode { id, kind, in_system_header, children }
}

const X: i32 = 7;

#[test]
fn two_level_scenario() {
    let a = node(1, 1, true, vec![node(2, 1, false, vec![])]);
    let b = node(3, X, false, vec![node(4, X, false, vec![])]);
    let root = node(0, 1, false, vec![a, b]);
    // `b` is itself a child of a skipped kind, so it goes with its subtree.
    assert_eq!(entity_children_all(&root, &Some(vec![X])), vec![0]);
}

#[test]
fn two_level_scenario_user_child_kept() {
    let a = node(1, 1, true, vec![node(2, 1, false, vec![])]);
    let b = node(3, 2, false, vec![node(4, X, false, vec![])]);
    let root = node(0, 1, false, vec![a, b]);
    assert_eq!(entity_children_all(&root, &Some(vec![X])), vec![0, 3]);
}

#[test]
fn root_kept_whatever_its_kind() {
    let root = node(0, X, true, vec![node(1, X, false, vec![]), node(2, 2, false, vec![])]);
    assert_eq!(entity_children_all(&root, &Some(vec![X])), vec![0, 2]);
}

#[test]
fn no_ignore_set_keeps_all_user_nodes() {
    let b = node(3, X, false, vec![node(4, X, false, vec![])]);
    let root = node(0, 1, false, vec![node(1, 1, true, vec![]), b]);
    assert_eq!(entity_children_all(&root, &None), vec![0, 3, 4]);
    assert_eq!(entity_children_all(&root, &Some(vec![])), vec![0, 3, 4]);
}

#[test]
fn preorder_parent_then_children_in_order() {
    let c1 = node(1, 1, false, vec![node(2, 1, false, vec![]), node(3, 1, false, vec![])]);
    let c2 = node(4, 1, false, vec![node(5, 1, false, vec![node(6, 1, false, vec![])])]);
    let root = node(0, 1, false, vec![c1, c2, node(7, 1, false, vec![])]);
    assert_eq!(entity_children_all(&root, &None), vec![0, 1, 2, 3, 4, 5, 6, 7]);
}

#[test]
fn system_header_below_user_code_is_pruned() {
    let c1 = node(1, 1, false, vec![node(2, 1, true, vec![node(3, 1, false, vec![])])]);
    let root = node(0, 1, false, vec![c1, node(4, 2, false, vec![])]);
    assert_eq!(entity_children_all(&root, &Some(vec![3, 2])), vec![0, 1]);
}

#[test]
fn leaf_root() {
    assert_eq!(entity_children_all(&node(9, 1, true, vec![]), &None), vec![9]);
}
