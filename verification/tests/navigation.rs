use browsr::tree::{Node, StatefulTree};

/// `root` with a leaf `a` and a group `b` holding one leaf `c`, plus a
/// second root `d`.
fn sample_tree() -> StatefulTree {
    let a = Node::new_leaf("a".to_string());
    let c = Node::new_leaf("c".to_string());
    let b = Node::new("b".to_string(), vec![c]);
    let root = Node::new("root".to_string(), vec![a, b]);
    let d = Node::new_leaf("d".to_string());
    StatefulTree::with_items(vec![root, d])
}

#[test]
fn with_items_selects_first_root() {
    let t = sample_tree();
    assert_eq!(t.selected, vec![0]);
    assert!(t.expanded.is_empty());
}

#[test]
fn with_items_empty_tree() {
    let t = StatefulTree::with_items(Vec::new());
    assert!(t.selected.is_empty());
    let v = t.visible_paths();
    assert!(v.is_empty());
}

#[test]
fn visible_paths_collapsed() {
    let t = sample_tree();
    assert_eq!(t.visible_paths(), vec![vec![0], vec![1]]);
}

#[test]
fn visible_paths_expanded() {
    let mut t = sample_tree();
    t.toggle();
    assert_eq!(
        t.visible_paths(),
        vec![vec![0], vec![0, 0], vec![0, 1], vec![1]]
    );
}

#[test]
fn toggle_flips_membership_twice() {
    // Each toggle flips membership of the selected path exactly once, so a
    // double toggle restores the original state.
    let mut t = sample_tree();
    assert!(!t.expanded.contains(&vec![0]));
    t.toggle();
    assert!(t.expanded.contains(&vec![0]));
    t.toggle();
    assert!(!t.expanded.contains(&vec![0]));
    assert_eq!(t.selected, vec![0]);
}

#[test]
fn toggle_on_leaf_is_noop() {
    let mut t = sample_tree();
    t.down();
    assert_eq!(t.selected, vec![1]);
    t.toggle();
    assert!(t.expanded.is_empty());
    assert_eq!(t.selected, vec![1]);
}

#[test]
fn right_on_leaf_is_noop() {
    // `right` on a leaf changes nothing: state before and after is
    // identical.
    let mut t = sample_tree();
    t.down();
    let selected_before = t.selected.clone();
    let expanded_before = t.expanded.clone();
    t.right();
    assert_eq!(t.selected, selected_before);
    assert_eq!(t.expanded, expanded_before);
}

#[test]
fn left_at_collapsed_root_is_noop() {
    // `left` at a root that has no parent and is not expanded changes
    // nothing.
    let mut t = sample_tree();
    t.left();
    assert_eq!(t.selected, vec![0]);
    assert!(t.expanded.is_empty());
}

#[test]
fn right_expands_then_enters() {
    let mut t = sample_tree();
    t.right();
    assert!(t.expanded.contains(&vec![0]));
    assert_eq!(t.selected, vec![0]);
    t.right();
    assert_eq!(t.selected, vec![0, 0]);
}

#[test]
fn left_moves_to_parent_then_collapses() {
    let mut t = sample_tree();
    t.right();
    t.right();
    assert_eq!(t.selected, vec![0, 0]);
    t.left();
    assert_eq!(t.selected, vec![0]);
    t.left();
    assert!(!t.expanded.contains(&vec![0]));
}

#[test]
fn down_and_up_walk_visible_order() {
    let mut t = sample_tree();
    t.toggle();
    t.down();
    assert_eq!(t.selected, vec![0, 0]);
    t.down();
    assert_eq!(t.selected, vec![0, 1]);
    t.up();
    assert_eq!(t.selected, vec![0, 0]);
}

#[test]
fn down_skips_collapsed_children() {
    let mut t = sample_tree();
    t.down();
    assert_eq!(t.selected, vec![1]);
}

#[test]
fn first_then_up_stays() {
    // After `first`, repeated `up` calls never move the selection.
    let mut t = sample_tree();
    t.toggle();
    t.down();
    t.first();
    assert_eq!(t.selected, vec![0]);
    t.up();
    assert_eq!(t.selected, vec![0]);
    t.up();
    assert_eq!(t.selected, vec![0]);
}

#[test]
fn last_then_down_stays() {
    // After `last`, repeated `down` calls never move the selection.
    let mut t = sample_tree();
    t.toggle();
    t.last();
    assert_eq!(t.selected, vec![1]);
    t.down();
    assert_eq!(t.selected, vec![1]);
    t.down();
    assert_eq!(t.selected, vec![1]);
}

#[test]
fn down_at_last_is_noop_without_expansion() {
    let mut t = sample_tree();
    t.down();
    t.down();
    assert_eq!(t.selected, vec![1]);
}

#[test]
fn collapse_keeps_selection_visible() {
    // Collapsing the selected node keeps it selected; hidden descendants
    // cannot stay selected because selection never leaves the visible set.
    let mut t = sample_tree();
    t.toggle();
    t.down();
    t.down();
    assert_eq!(t.selected, vec![0, 1]);
    t.left();
    assert_eq!(t.selected, vec![0]);
    t.toggle();
    assert!(t.expanded.is_empty());
    assert_eq!(t.selected, vec![0]);
    assert!(t.visible_paths().contains(&t.selected));
}
