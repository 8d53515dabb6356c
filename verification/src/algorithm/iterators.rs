use vstd::prelude::*;
use vstd::std_specs::cmp::PartialEqSpec;

use crate::tree::{fringe, fringe_matches, lemma_matches_step, Tree};

verus! {

/// Decide whether `tree1` and `tree2` have the same fringe by pairing two
/// external leaf iterators and comparing their outputs in lockstep, stopping
/// at the first mismatch.
pub fn same_fringe<T: PartialEq>(tree1: &Tree<T>, tree2: &Tree<T>) -> (r: bool)
    ensures
        T::obeys_eq_spec() ==> (r <==> fringe_matches(fringe(*tree1), fringe(*tree2))),
{
    let mut it1 = tree1.iter();
    let mut it2 = tree2.iter();
    loop
        invariant
            T::obeys_eq_spec() ==> (fringe_matches(fringe(*tree1), fringe(*tree2))
                <==> fringe_matches(it1.remaining(), it2.remaining())),
        decreases it1.remaining().len(),
    {
        let ghost rem1: Seq<T> = it1.remaining();
        let ghost rem2: Seq<T> = it2.remaining();
        match (it1.next(), it2.next()) {
            (None, None) => {
                return true;
            },
            (Some(x), Some(y)) => {
                if x != y {
                    return false;
                }
                proof {
                    if T::obeys_eq_spec() {
                        lemma_matches_step(rem1, rem2);
                    }
                }
            },
            (None, Some(_)) => {
                return false;
            },
            (Some(_), None) => {
                return false;
            },
        }
    }
}

} // verus!
