use same_fringe::algorithm::continuations;
use same_fringe::algorithm::iterators;
use same_fringe::tree::Tree;
use same_fringe::tree::Tree::{Forest, Leaf};

fn make_deep_tree() -> Tree<isize> {
    Forest(vec![
        Leaf(1isize),
        Forest(vec![Leaf(2), Forest(vec![Leaf(3), Leaf(4)])]),
    ])
}

fn make_wide_tree() -> Tree<isize> {
    Forest(vec![
        Forest(vec![Leaf(1isize), Leaf(2)]),
        Leaf(3),
        Forest(vec![Forest(vec![Leaf(4)])]),
    ])
}

fn make_wide_tree_longer() -> Tree<isize> {
    Forest(vec![
        Forest(vec![Leaf(1isize), Leaf(2)]),
        Leaf(3),
        Forest(vec![Forest(vec![Leaf(4), Leaf(5)])]),
    ])
}

fn collect_leaves(t: &Tree<isize>) -> Vec<isize> {
    let mut it = t.iter();
    let mut out = Vec::new();
    while let Some(v) = it.next() {
        out.push(*v);
    }
    out
}

#[test]
fn continuations_different_shapes_same_fringe() {
    let tree1 = make_deep_tree();
    let tree2 = make_wide_tree();
    assert!(continuations::same_fringe(&tree1, &tree2));
}

#[test]
fn continuations_different_shapes_different_fringe() {
    let tree1 = make_deep_tree();
    let tree2 = make_wide_tree_longer();
    assert!(!continuations::same_fringe(&tree1, &tree2));
}

#[test]
fn iterators_different_shapes_same_fringe() {
    let tree1 = make_deep_tree();
    let tree2 = make_wide_tree();
    assert!(iterators::same_fringe(&tree1, &tree2));
}

#[test]
fn iterators_different_shapes_different_fringe() {
    let tree1 = make_deep_tree();
    let tree2 = make_wide_tree_longer();
    assert!(!iterators::same_fringe(&tree1, &tree2));
}

#[test]
fn last_leaf_differs() {
    // Fringe [1, 2, 3, 4] against [1, 2, 3, 5]: same length, one mismatch.
    let tree1 = make_deep_tree();
    let tree2 = Forest(vec![
        Forest(vec![Leaf(1isize), Leaf(2)]),
        Leaf(3),
        Forest(vec![Forest(vec![Leaf(5)])]),
    ]);
    assert!(!continuations::same_fringe(&tree1, &tree2));
    assert!(!iterators::same_fringe(&tree1, &tree2));
}

#[test]
fn strict_prefix_differs() {
    // One fringe is a strict prefix of the other: lengths differ, so the
    // trees differ even though every paired leaf matches.
    let tree1 = make_deep_tree();
    let shorter = Forest(vec![Leaf(1isize), Forest(vec![Leaf(2), Leaf(3)])]);
    assert!(!continuations::same_fringe(&tree1, &shorter));
    assert!(!continuations::same_fringe(&shorter, &tree1));
    assert!(!iterators::same_fringe(&tree1, &shorter));
    assert!(!iterators::same_fringe(&shorter, &tree1));
}

#[test]
fn empty_forests_compare_equal() {
    let tree1: Tree<isize> = Forest(vec![]);
    let tree2: Tree<isize> = Forest(vec![]);
    assert!(continuations::same_fringe(&tree1, &tree2));
    assert!(iterators::same_fringe(&tree1, &tree2));
}

#[test]
fn nested_empty_forests_are_leafless() {
    // Empty forests nested inside non-empty trees contribute no leaves.
    let tree1 = Forest(vec![
        Forest(vec![]),
        Leaf(1isize),
        Forest(vec![Forest(vec![]), Leaf(2)]),
        Forest(vec![]),
    ]);
    let tree2 = Forest(vec![Leaf(1isize), Leaf(2)]);
    assert!(continuations::same_fringe(&tree1, &tree2));
    assert!(iterators::same_fringe(&tree1, &tree2));
}

#[test]
fn same_fringe_is_reflexive() {
    let tree = make_deep_tree();
    assert!(continuations::same_fringe(&tree, &tree));
    assert!(iterators::same_fringe(&tree, &tree));
}

#[test]
fn same_fringe_is_symmetric() {
    let pairs = [
        (make_deep_tree(), make_wide_tree()),
        (make_deep_tree(), make_wide_tree_longer()),
        (Forest(vec![]), make_deep_tree()),
    ];
    for (a, b) in pairs.iter() {
        assert_eq!(
            continuations::same_fringe(a, b),
            continuations::same_fringe(b, a)
        );
    }
}

#[test]
fn comparators_agree_on_examples() {
    let pairs = [
        (make_deep_tree(), make_wide_tree()),
        (make_deep_tree(), make_wide_tree_longer()),
        (Forest(vec![]), Forest(vec![])),
        (Forest(vec![]), make_deep_tree()),
    ];
    for (a, b) in pairs.iter() {
        assert_eq!(
            continuations::same_fringe(a, b),
            iterators::same_fringe(a, b)
        );
    }
}

#[test]
fn comparison_leaves_trees_unchanged() {
    let tree1 = make_deep_tree();
    let tree2 = make_wide_tree();
    continuations::same_fringe(&tree1, &tree2);
    iterators::same_fringe(&tree1, &tree2);
    assert_eq!(tree1, make_deep_tree());
    assert_eq!(tree2, make_wide_tree());
    assert_eq!(collect_leaves(&tree1), vec![1isize, 2, 3, 4]);
}
