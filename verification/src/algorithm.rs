//! The two same-fringe comparators: one driven by a pair of external
//! iterators, one driven by resumable continuation-passing producers; and
//! the laws tying their results together.

pub mod continuations;
pub mod iterators;

use vstd::prelude::*;
use vstd::std_specs::cmp::PartialEqSpec;

use crate::tree::{
    fringe, fringe_matches, lemma_fringe_matches_reflexive, lemma_fringe_matches_symmetric, Tree,
};

verus! {

/// The two implementations agree on every input: whatever result the
/// continuation-passing comparator can return for a pair of trees is the
/// result the iterator-based comparator can return for them, whenever the
/// element type's `==` obeys its specification.
pub proof fn lemma_comparators_agree<T: PartialEq>(
    t1: &Tree<T>,
    t2: &Tree<T>,
    r1: bool,
    r2: bool,
)
    requires
        T::obeys_eq_spec(),
        call_ensures(continuations::same_fringe::<T>, (t1, t2), r1),
        call_ensures(iterators::same_fringe::<T>, (t1, t2), r2),
    ensures
        r1 == r2,
{
}

/// Comparing any tree with itself succeeds — including the empty-forest
/// tree — whenever `==` obeys its specification and is reflexive.
pub proof fn lemma_same_fringe_reflexive<T: PartialEq>(t: &Tree<T>, r: bool)
    requires
        T::obeys_eq_spec(),
        forall|x: T| #[trigger] x.eq_spec(&x),
        call_ensures(continuations::same_fringe::<T>, (t, t), r),
    ensures
        r,
{
    lemma_fringe_matches_reflexive(fringe(*t));
}

/// The comparison is symmetric: swapping the two trees cannot change the
/// result, whenever `==` obeys its specification and is itself symmetric.
pub proof fn lemma_same_fringe_symmetric<T: PartialEq>(
    t1: &Tree<T>,
    t2: &Tree<T>,
    r12: bool,
    r21: bool,
)
    requires
        T::obeys_eq_spec(),
        forall|x: T, y: T| #[trigger] x.eq_spec(&y) == y.eq_spec(&x),
        call_ensures(continuations::same_fringe::<T>, (t1, t2), r12),
        call_ensures(continuations::same_fringe::<T>, (t2, t1), r21),
    ensures
        r12 == r21,
{
    lemma_fringe_matches_symmetric(fringe(*t1), fringe(*t2));
}

} // verus!
