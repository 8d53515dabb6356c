use same_fringe::tree::Tree;
use same_fringe::tree::Tree::{Forest, Leaf};

fn make_tree1() -> Tree<isize> {
    Forest(vec![
        Leaf(1),
        Forest(vec![Leaf(2), Forest(vec![Leaf(3), Leaf(4)])]),
    ])
}

fn make_tree2() -> Tree<isize> {
    Forest(vec![
        Leaf(2),
        Forest(vec![Leaf(3), Forest(vec![Leaf(4), Leaf(5)])]),
    ])
}

fn collect_leaves(t: &Tree<isize>) -> Vec<isize> {
    let mut it = t.iter();
    let mut out = Vec::new();
    while let Some(v) = it.next() {
        out.push(*v);
    }
    out
}

#[test]
fn iteration_is_in_order() {
    let tree1 = make_tree1();

    let expected = vec![1isize, 2, 3, 4];
    let mut it = tree1.into_iter();
    let mut actual = Vec::new();
    while let Some(v) = it.next() {
        actual.push(v);
    }

    assert_eq!(actual, expected);
}

#[test]
fn iteration_with_mutation() {
    let mut tree1 = make_tree1();

    let tree2 = Forest(vec![
        Leaf(1isize),
        Forest(vec![Leaf(2), Forest(vec![Leaf(33), Leaf(4)])]),
    ]);

    // Modify element of value 3 (the third leaf) to 33.
    let mut it = tree1.iter_mut();
    it.advance();
    it.advance();
    let prev = it.replace_next(&mut tree1, 33);

    assert_eq!(prev, Some(3));
    assert_eq!(tree1, tree2);
}

#[test]
fn borrowing_iteration_is_in_order() {
    let tree1 = make_tree1();
    assert_eq!(collect_leaves(&tree1), vec![1isize, 2, 3, 4]);
    // A full read-only traversal alters nothing.
    assert_eq!(tree1, make_tree1());
}

#[test]
fn iteration_of_empty_forest_yields_nothing() {
    let tree: Tree<isize> = Forest(vec![Forest(vec![]), Forest(vec![])]);
    assert_eq!(collect_leaves(&tree), Vec::<isize>::new());
    let mut it = tree.into_iter();
    assert_eq!(it.next(), None);
    assert_eq!(it.next(), None);
}

#[test]
fn mutation_changes_exactly_one_leaf() {
    let mut tree = make_tree1();
    let before = collect_leaves(&tree);

    let mut it = tree.iter_mut();
    it.advance();
    let prev = it.replace_next(&mut tree, 20);
    assert_eq!(prev, Some(2));

    let after = collect_leaves(&tree);
    assert_eq!(before.len(), after.len());
    for k in 0..before.len() {
        if k == 1 {
            assert_eq!(after[k], 20);
        } else {
            assert_eq!(after[k], before[k]);
        }
    }
}

#[test]
fn mutation_past_the_last_leaf_does_nothing() {
    let mut tree = make_tree1();
    let mut it = tree.iter_mut();
    it.advance();
    it.advance();
    it.advance();
    it.advance();
    let r = it.replace_next(&mut tree, 99);
    assert_eq!(r, None);
    assert_eq!(tree, make_tree1());
}

#[test]
fn map_works() {
    let tree = make_tree1();
    let expected = make_tree2();
    let actual = tree.map(&|n: &isize| n + 1);
    assert_eq!(actual, expected);
}

#[test]
fn map_into_works() {
    let tree = make_tree1();
    let expected = make_tree2();
    let actual = tree.map_into(&|n: isize| n + 1);
    assert_eq!(actual, expected);
}

#[test]
fn internal_fold_works() {
    let tree = make_tree1();
    let actual = tree.fold(0, &|x: isize, y: &isize| x + y);
    assert_eq!(actual, 10);
}

#[test]
fn map_preserves_shape_and_order() {
    let tree = make_tree1();
    let mapped = tree.map(&|n: &isize| n * 10);
    let original_leaves = collect_leaves(&tree);
    let mapped_leaves = collect_leaves(&mapped);
    assert_eq!(mapped_leaves.len(), original_leaves.len());
    for k in 0..original_leaves.len() {
        assert_eq!(mapped_leaves[k], original_leaves[k] * 10);
    }
}

#[test]
fn fold_of_empty_forest_returns_init() {
    let tree: Tree<isize> = Forest(vec![]);
    let folded = tree.fold(41, &|x: isize, y: &isize| x + y);
    assert_eq!(folded, 41);
}

#[test]
fn map_of_empty_forest_is_empty() {
    let tree: Tree<isize> = Forest(vec![]);
    let mapped = tree.map(&|n: &isize| n + 1);
    assert_eq!(mapped, Forest(vec![]));
}

#[test]
fn fold_matches_iterator_sum() {
    let tree = make_tree1();
    let folded = tree.fold(0, &|x: isize, y: &isize| x + y);
    let summed: isize = collect_leaves(&tree).into_iter().sum();
    assert_eq!(folded, summed);
}
