//! Two verified solutions to the classic same-fringe problem: decide whether
//! two differently shaped trees yield the same sequence of leaf values when
//! read left to right, visiting no more leaves than needed to decide.
//!
//! One comparator pulls from a pair of external, explicit-stack iterators;
//! the other drives two continuation-passing producers against each other,
//! after Henry Baker's no-iterator solution. Both are proved to return
//! exactly the same answer: whether the two fringes match, pair by pair.

pub mod algorithm;
pub mod immutable;
pub mod iterators;
pub mod tree;
