use vstd::prelude::*;
use vstd::std_specs::cmp::PartialEqSpec;

use crate::tree::{
    forest_fringe, forest_size, fringe, fringe_matches, lemma_forest_step, lemma_matches_step,
    tree_size, Tree,
};

verus! {

/// A resumable leaf producer, after Henry Baker's no-iterator solution.
/// In the continuation-passing formulation a producer is a chain of
/// closures, each closing over "the rest of the traversal"; here that
/// chain is written out as data, one variant per kind of pending work, so
/// that each suspended continuation is a value that can be driven again
/// later.
pub enum Generator<'a, T> {
    /// No more leaves: tells the consumer that the traversal is over.
    Eof,
    /// Produce the leaves of one whole subtree, then continue as the chain.
    Node(&'a Tree<T>, Box<Generator<'a, T>>),
    /// Produce the leaves of a forest's children from an index on, then
    /// continue as the chain.
    Siblings(&'a Vec<Tree<T>>, usize, Box<Generator<'a, T>>),
}

/// The children of a forest from an index on; empty once the index has
/// passed the end.
pub open spec fn suffix<T>(s: Seq<Tree<T>>, at: int) -> Seq<Tree<T>> {
    if at <= s.len() {
        s.skip(at)
    } else {
        Seq::empty()
    }
}

/// The leaves a generator has still to produce, in order.
pub open spec fn gen_view<T>(g: Generator<T>) -> Seq<T>
    decreases g,
{
    match g {
        Generator::Eof => Seq::empty(),
        Generator::Node(t, n) => fringe(*t) + gen_view(*n),
        Generator::Siblings(f, at, n) => forest_fringe(suffix(f@, at as int)) + gen_view(*n),
    }
}

/// The node count of everything a generator has still to walk.
pub open spec fn gen_mass<T>(g: Generator<T>) -> nat
    decreases g,
{
    match g {
        Generator::Eof => 0,
        Generator::Node(t, n) => tree_size(*t) + gen_mass(*n),
        Generator::Siblings(f, at, n) => forest_size(suffix(f@, at as int)) + gen_mass(*n),
    }
}

/// The length of a generator's continuation chain.
pub open spec fn gen_len<T>(g: Generator<T>) -> nat
    decreases g,
{
    match g {
        Generator::Eof => 0,
        Generator::Node(_, n) => 1 + gen_len(*n),
        Generator::Siblings(_, _, n) => 1 + gen_len(*n),
    }
}

/// Examining the tree: at a leaf, hand the value to the consumer together
/// with the continuation `g` for everything after it; at a forest, enter
/// forest-traversing mode.
fn gen_fringe<'a, T>(tree: &'a Tree<T>, g: Generator<'a, T>) -> (r: Option<
    (&'a T, Generator<'a, T>),
>)
    ensures
        match r {
            None => (fringe(*tree) + gen_view(g)).len() == 0,
            Some((v, g2)) => {
                &&& (fringe(*tree) + gen_view(g)).len() > 0
                &&& *v == (fringe(*tree) + gen_view(g))[0]
                &&& gen_view(g2) == (fringe(*tree) + gen_view(g)).drop_first()
            },
        },
    decreases tree_size(*tree) + gen_mass(g), gen_len(g), 0nat,
{
    match tree {
        Tree::Leaf(leaf) => {
            proof {
                assert((fringe(*tree) + gen_view(g))[0] == *leaf);
                assert(gen_view(g) =~= (fringe(*tree) + gen_view(g)).drop_first());
            }
            Some((leaf, g))
        },
        Tree::Forest(forest) => {
            let next = Generator::Siblings(forest, 0, Box::new(g));
            proof {
                assert(forest@.skip(0) =~= forest@);
                assert(gen_view(next) == forest_fringe(forest@) + gen_view(g));
                assert(fringe(*tree) + gen_view(g) =~= gen_view(next));
            }
            gen_resume(next)
        },
    }
}

/// Resume a suspended producer: report end of data once nothing is pending
/// (the distinguished end-of-data producer), or walk on through the pending
/// subtrees and forests.
fn gen_resume<'a, T>(g: Generator<'a, T>) -> (r: Option<(&'a T, Generator<'a, T>)>)
    ensures
        match r {
            None => gen_view(g).len() == 0,
            Some((v, g2)) => {
                &&& gen_view(g).len() > 0
                &&& *v == gen_view(g)[0]
                &&& gen_view(g2) == gen_view(g).drop_first()
            },
        },
    decreases gen_mass(g), gen_len(g), 1nat,
{
    match g {
        Generator::Eof => None,
        Generator::Node(tree, n) => gen_fringe(tree, *n),
        Generator::Siblings(forest, at, n) => {
            if at < forest.len() {
                let next = Generator::Siblings(forest, at + 1, n);
                proof {
                    lemma_forest_step(forest@, at as int);
                    assert(gen_view(g) =~= fringe(forest@[at as int]) + gen_view(next));
                }
                gen_fringe(&forest[at], next)
            } else {
                let rest = *n;
                proof {
                    assert(suffix(forest@, at as int) =~= Seq::<Tree<T>>::empty());
                    assert(gen_view(g) =~= gen_view(rest));
                }
                gen_resume(rest)
            }
        },
    }
}

/// Run one step of each tree's generator and compare the leaves (if any) to
/// decide whether the comparison is done, failed, or must continue
/// recursively with the pair of continuation generators just obtained.
/// Comparison happens before any further driving, so no more of either tree
/// is walked than needed for the first mismatch.
fn same_fringe_c<'a, T: PartialEq>(xg: Generator<'a, T>, yg: Generator<'a, T>) -> (r: bool)
    ensures
        T::obeys_eq_spec() ==> (r <==> fringe_matches(gen_view(xg), gen_view(yg))),
    decreases gen_view(xg).len(),
{
    let ghost xv: Seq<T> = gen_view(xg);
    let ghost yv: Seq<T> = gen_view(yg);
    match (gen_resume(xg), gen_resume(yg)) {
        (None, None) => true,
        (Some((x, xg2)), Some((y, yg2))) => {
            if x != y {
                false
            } else {
                proof {
                    if T::obeys_eq_spec() {
                        lemma_matches_step(xv, yv);
                    }
                }
                same_fringe_c(xg2, yg2)
            }
        },
        (None, Some(_)) => false,
        (Some(_), None) => false,
    }
}

/// Decide whether `tree1` and `tree2` have the same fringe by driving one
/// resumable producer per tree against the other, one leaf at a time.
pub fn same_fringe<T: PartialEq>(tree1: &Tree<T>, tree2: &Tree<T>) -> (r: bool)
    ensures
        T::obeys_eq_spec() ==> (r <==> fringe_matches(fringe(*tree1), fringe(*tree2))),
{
    let xg = Generator::Node(tree1, Box::new(Generator::Eof));
    let yg = Generator::Node(tree2, Box::new(Generator::Eof));
    proof {
        reveal_with_fuel(gen_view, 2);
        assert(gen_view(xg) =~= fringe(*tree1));
        assert(gen_view(yg) =~= fringe(*tree2));
    }
    same_fringe_c(xg, yg)
}

} // verus!
