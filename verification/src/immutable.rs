use vstd::prelude::*;

use crate::tree::{
    forest_fringe, forest_size, fringe, lemma_forest_member_size, lemma_forest_push,
    lemma_forest_split, lemma_forest_step, lemma_shape_push, lemma_take_fringe,
    same_forest_shape, same_shape, tree_size, Tree,
};

verus! {

/// `f`, applied to each element of fringe `a` by reference and in order,
/// can have produced fringe `b`.
pub open spec fn maps_fringe<T, U, F: Fn(&T) -> U>(f: F, a: Seq<T>, b: Seq<U>) -> bool {
    &&& a.len() == b.len()
    &&& forall|i: int| 0 <= i < a.len() ==> #[trigger] call_ensures(f, (&a[i],), b[i])
}

/// `f`, applied to each element of fringe `a` by value and in order, can
/// have produced fringe `b`.
pub open spec fn maps_fringe_into<T, U, F: Fn(T) -> U>(f: F, a: Seq<T>, b: Seq<U>) -> bool {
    &&& a.len() == b.len()
    &&& forall|i: int| 0 <= i < a.len() ==> #[trigger] call_ensures(f, (a[i],), b[i])
}

/// `f` folds the elements of `s`, starting from `init`, possibly reaching
/// `res`: some chain of intermediate accumulators runs through `f` from
/// `init` over every element in order and ends at `res`.
pub open spec fn fold_chain<B, T, F: Fn(B, &T) -> B>(f: F, init: B, s: Seq<T>, res: B) -> bool
    decreases s.len(),
{
    if s.len() == 0 {
        res == init
    } else {
        exists|mid: B|
            #[trigger] call_ensures(f, (init, &s[0]), mid) && fold_chain(
                f,
                mid,
                s.drop_first(),
                res,
            )
    }
}

proof fn lemma_maps_fringe_concat<T, U, F: Fn(&T) -> U>(
    f: F,
    a1: Seq<T>,
    b1: Seq<U>,
    a2: Seq<T>,
    b2: Seq<U>,
)
    requires
        maps_fringe(f, a1, b1),
        maps_fringe(f, a2, b2),
    ensures
        maps_fringe(f, a1 + a2, b1 + b2),
{
    assert forall|i: int| 0 <= i < (a1 + a2).len() implies #[trigger] call_ensures(
        f,
        (&(a1 + a2)[i],),
        (b1 + b2)[i],
    ) by {
        if i < a1.len() {
            assert((a1 + a2)[i] == a1[i]);
            assert((b1 + b2)[i] == b1[i]);
            assert(call_ensures(f, (&a1[i],), b1[i]));
        } else {
            assert((a1 + a2)[i] == a2[i - a1.len()]);
            assert((b1 + b2)[i] == b2[i - a1.len()]);
            assert(call_ensures(f, (&a2[i - a1.len()],), b2[i - a1.len()]));
        }
    }
}

proof fn lemma_maps_fringe_into_concat<T, U, F: Fn(T) -> U>(
    f: F,
    a1: Seq<T>,
    b1: Seq<U>,
    a2: Seq<T>,
    b2: Seq<U>,
)
    requires
        maps_fringe_into(f, a1, b1),
        maps_fringe_into(f, a2, b2),
    ensures
        maps_fringe_into(f, a1 + a2, b1 + b2),
{
    assert forall|i: int| 0 <= i < (a1 + a2).len() implies #[trigger] call_ensures(
        f,
        ((a1 + a2)[i],),
        (b1 + b2)[i],
    ) by {
        if i < a1.len() {
            assert((a1 + a2)[i] == a1[i]);
            assert((b1 + b2)[i] == b1[i]);
            assert(call_ensures(f, (a1[i],), b1[i]));
        } else {
            assert((a1 + a2)[i] == a2[i - a1.len()]);
            assert((b1 + b2)[i] == b2[i - a1.len()]);
            assert(call_ensures(f, (a2[i - a1.len()],), b2[i - a1.len()]));
        }
    }
}

/// Chaining a fold over `s1` into a fold over `s2` folds over `s1 + s2`.
pub proof fn lemma_fold_chain_concat<B, T, F: Fn(B, &T) -> B>(
    f: F,
    init: B,
    s1: Seq<T>,
    mid: B,
    s2: Seq<T>,
    res: B,
)
    requires
        fold_chain(f, init, s1, mid),
        fold_chain(f, mid, s2, res),
    ensures
        fold_chain(f, init, s1 + s2, res),
    decreases s1.len(),
{
    if s1.len() == 0 {
        assert(s1 + s2 =~= s2);
    } else {
        let m1 = choose|m1: B|
            #[trigger] call_ensures(f, (init, &s1[0]), m1) && fold_chain(
                f,
                m1,
                s1.drop_first(),
                mid,
            );
        lemma_fold_chain_concat(f, m1, s1.drop_first(), mid, s2, res);
        assert((s1 + s2).drop_first() =~= s1.drop_first() + s2);
        assert((s1 + s2)[0] == s1[0]);
    }
}

/// The sum of a sequence of machine integers, as an unbounded integer.
pub open spec fn sum_of(s: Seq<isize>) -> int
    decreases s.len(),
{
    if s.len() == 0 {
        0
    } else {
        s[0] + sum_of(s.drop_first())
    }
}

/// Folding a tree's fringe from `init` with a function that behaves as
/// addition yields `init` plus the sum of the leaves — the same value that
/// summing the external iterator's output gives, since that iterator
/// yields exactly the fringe.
pub proof fn lemma_fold_add_is_sum<F: Fn(isize, &isize) -> isize>(
    f: F,
    init: isize,
    s: Seq<isize>,
    res: isize,
)
    requires
        fold_chain(f, init, s, res),
        forall|b: isize, x: &isize, y: isize|
            #[trigger] call_ensures(f, (b, x), y) ==> y == b + *x,
    ensures
        res == init + sum_of(s),
    decreases s.len(),
{
    if s.len() > 0 {
        let mid = choose|mid: isize|
            #[trigger] call_ensures(f, (init, &s[0]), mid) && fold_chain(
                f,
                mid,
                s.drop_first(),
                res,
            );
        lemma_fold_add_is_sum(f, mid, s.drop_first(), res);
    }
}

impl<T> Tree<T> {
    /// A new tree of identical shape, each leaf replaced by the image of
    /// `f` applied to the original leaf, in traversal order. This cannot be
    /// written from an external iterator alone, because the point is to
    /// keep the shape of the output while changing the leaf type.
    pub fn map<U, F: Fn(&T) -> U>(&self, f: &F) -> (r: Tree<U>)
        requires
            forall|i: int|
                0 <= i < fringe(*self).len() ==> #[trigger] call_requires(
                    *f,
                    (&fringe(*self)[i],),
                ),
        ensures
            same_shape(r, *self),
            maps_fringe(*f, fringe(*self), fringe(r)),
        decreases tree_size(*self),
    {
        match self {
            Tree::Leaf(leaf) => {
                proof {
                    assert(fringe(*self) =~= seq![*leaf]);
                    assert(call_requires(*f, (&fringe(*self)[0],)));
                }
                let image = f(leaf);
                let r = Tree::Leaf(image);
                proof {
                    assert(fringe(r) =~= seq![image]);
                }
                r
            },
            Tree::Forest(forest) => {
                let mut out: Vec<Tree<U>> = Vec::new();
                let mut i: usize = 0;
                proof {
                    assert(forest@.take(0) =~= Seq::<Tree<T>>::empty());
                    assert(out@ =~= Seq::<Tree<U>>::empty());
                }
                while i < forest.len()
                    invariant
                        forall|j: int|
                            0 <= j < fringe(*self).len() ==> #[trigger] call_requires(
                                *f,
                                (&fringe(*self)[j],),
                            ),
                        i <= forest@.len(),
                        *self == Tree::Forest(*forest),
                        same_forest_shape(out@, forest@.take(i as int)),
                        maps_fringe(*f, forest_fringe(forest@.take(i as int)), forest_fringe(out@)),
                    decreases forest@.len() - i,
                {
                    proof {
                        lemma_forest_member_size(forest@, i as int);
                        assert(tree_size(*self) == 1 + forest_size(forest@));
                        assert(tree_size(forest@[i as int]) < tree_size(*self));
                        lemma_forest_split(forest@, i as int);
                        lemma_forest_step(forest@, i as int);
                        let pre = forest_fringe(forest@.take(i as int));
                        let mid = fringe(forest@[i as int]);
                        assert forall|j: int| 0 <= j < mid.len() implies #[trigger] call_requires(
                            *f,
                            (&mid[j],),
                        ) by {
                            assert(fringe(*self) == pre + (mid + forest_fringe(
                                forest@.skip(i as int + 1),
                            )));
                            assert(fringe(*self)[pre.len() + j] == mid[j]);
                            assert(call_requires(*f, (&fringe(*self)[pre.len() + j],)));
                        }
                    }
                    let ghost outpre: Seq<Tree<U>> = out@;
                    let child = forest[i].map(f);
                    out.push(child);
                    i = i + 1;
                    proof {
                        lemma_take_fringe(forest@, i as int);
                        lemma_forest_push(outpre, child);
                        lemma_shape_push(
                            outpre,
                            forest@.take(i - 1),
                            child,
                            forest@[i - 1],
                        );
                        assert(forest@.take(i as int) =~= forest@.take(i - 1).push(
                            forest@[i - 1],
                        ));
                        lemma_maps_fringe_concat(
                            *f,
                            forest_fringe(forest@.take(i - 1)),
                            forest_fringe(outpre),
                            fringe(forest@[i - 1]),
                            fringe(child),
                        );
                    }
                }
                proof {
                    assert(forest@.take(forest@.len() as int) =~= forest@);
                }
                Tree::Forest(out)
            },
        }
    }

    /// Like `map`, but consumes the tree: each leaf value is handed to `f`
    /// by move while a tree of identical shape is built.
    pub fn map_into<U, F: Fn(T) -> U>(self, f: &F) -> (r: Tree<U>)
        requires
            forall|i: int|
                0 <= i < fringe(self).len() ==> #[trigger] call_requires(
                    *f,
                    (fringe(self)[i],),
                ),
        ensures
            same_shape(r, self),
            maps_fringe_into(*f, fringe(self), fringe(r)),
        decreases tree_size(self),
    {
        match self {
            Tree::Leaf(leaf) => {
                let ghost l0: T = leaf;
                proof {
                    assert(fringe(self) =~= seq![l0]);
                    assert(call_requires(*f, (fringe(self)[0],)));
                }
                let image = f(leaf);
                let r = Tree::Leaf(image);
                proof {
                    assert(fringe(r) =~= seq![image]);
                }
                r
            },
            Tree::Forest(mut forest) => {
                let ghost kids: Vec<Tree<T>> = forest;
                let ghost all: Seq<Tree<T>> = forest@;
                let mut out: Vec<Tree<U>> = Vec::new();
                proof {
                    assert(all.take(0) =~= Seq::<Tree<T>>::empty());
                    assert(all.skip(0) =~= all);
                }
                while forest.len() > 0
                    invariant
                        forall|j: int|
                            0 <= j < fringe(self).len() ==> #[trigger] call_requires(
                                *f,
                                (fringe(self)[j],),
                            ),
                        self == Tree::Forest(kids),
                        kids@ == all,
                        out@.len() + forest@.len() == all.len(),
                        forest@ == all.skip(out@.len() as int),
                        same_forest_shape(out@, all.take(out@.len() as int)),
                        maps_fringe_into(
                            *f,
                            forest_fringe(all.take(out@.len() as int)),
                            forest_fringe(out@),
                        ),
                    decreases forest@.len(),
                {
                    let ghost i: int = out@.len() as int;
                    let ghost outpre: Seq<Tree<U>> = out@;
                    let child = forest.remove(0);
                    proof {
                        assert(child == all[i]);
                        assert(all.skip(i).remove(0) =~= all.skip(i + 1));
                        lemma_forest_member_size(all, i);
                        assert(tree_size(self) == 1 + forest_size(all));
                        assert(tree_size(child) < tree_size(self));
                        lemma_forest_split(all, i);
                        lemma_forest_step(all, i);
                        let pre = forest_fringe(all.take(i));
                        let mid = fringe(child);
                        assert forall|j: int| 0 <= j < mid.len() implies #[trigger] call_requires(
                            *f,
                            (mid[j],),
                        ) by {
                            assert(fringe(self) == pre + (mid + forest_fringe(all.skip(i + 1))));
                            assert(fringe(self)[pre.len() + j] == mid[j]);
                            assert(call_requires(*f, (fringe(self)[pre.len() + j],)));
                        }
                    }
                    let mapped = child.map_into(f);
                    out.push(mapped);
                    proof {
                        lemma_take_fringe(all, i + 1);
                        lemma_forest_push(outpre, mapped);
                        lemma_shape_push(outpre, all.take(i), mapped, all[i]);
                        assert(all.take(i + 1) =~= all.take(i).push(all[i]));
                        lemma_maps_fringe_into_concat(
                            *f,
                            forest_fringe(all.take(i)),
                            forest_fringe(outpre),
                            fringe(all[i]),
                            fringe(mapped),
                        );
                    }
                }
                proof {
                    assert(all.take(all.len() as int) =~= all);
                }
                Tree::Forest(out)
            },
        }
    }

    /// Reduce all leaves into one accumulated value, left to right, depth
    /// first, combining with `f` in the same order as the external
    /// iterator visits the leaves.
    pub fn fold<B, F: Fn(B, &T) -> B>(&self, init: B, f: &F) -> (r: B)
        requires
            forall|b: B, i: int|
                0 <= i < fringe(*self).len() ==> #[trigger] call_requires(
                    *f,
                    (b, &fringe(*self)[i]),
                ),
        ensures
            fold_chain(*f, init, fringe(*self), r),
        decreases tree_size(*self),
    {
        match self {
            Tree::Leaf(leaf) => {
                let ghost b0: B = init;
                proof {
                    assert(fringe(*self) =~= seq![*leaf]);
                    assert(call_requires(*f, (b0, &fringe(*self)[0])));
                }
                let r = f(init, leaf);
                proof {
                    assert(fringe(*self).drop_first() =~= Seq::<T>::empty());
                    assert(fold_chain(*f, r, fringe(*self).drop_first(), r));
                    assert(call_ensures(*f, (b0, &fringe(*self)[0]), r));
                }
                r
            },
            Tree::Forest(forest) => {
                let ghost b0: B = init;
                let mut acc = init;
                let mut i: usize = 0;
                proof {
                    assert(forest@.take(0) =~= Seq::<Tree<T>>::empty());
                    assert(forest_fringe(Seq::<Tree<T>>::empty()) =~= Seq::<T>::empty());
                }
                while i < forest.len()
                    invariant
                        forall|b: B, j: int|
                            0 <= j < fringe(*self).len() ==> #[trigger] call_requires(
                                *f,
                                (b, &fringe(*self)[j]),
                            ),
                        i <= forest@.len(),
                        *self == Tree::Forest(*forest),
                        fold_chain(*f, b0, forest_fringe(forest@.take(i as int)), acc),
                    decreases forest@.len() - i,
                {
                    let ghost accpre: B = acc;
                    proof {
                        lemma_forest_member_size(forest@, i as int);
                        assert(tree_size(*self) == 1 + forest_size(forest@));
                        assert(tree_size(forest@[i as int]) < tree_size(*self));
                        lemma_forest_split(forest@, i as int);
                        lemma_forest_step(forest@, i as int);
                        let pre = forest_fringe(forest@.take(i as int));
                        let mid = fringe(forest@[i as int]);
                        assert forall|b: B, j: int|
                            0 <= j < mid.len() implies #[trigger] call_requires(
                            *f,
                            (b, &mid[j]),
                        ) by {
                            assert(fringe(*self) == pre + (mid + forest_fringe(
                                forest@.skip(i as int + 1),
                            )));
                            assert(fringe(*self)[pre.len() + j] == mid[j]);
                            assert(call_requires(*f, (b, &fringe(*self)[pre.len() + j])));
                        }
                    }
                    acc = forest[i].fold(acc, f);
                    proof {
                        lemma_take_fringe(forest@, i as int + 1);
                        lemma_fold_chain_concat(
                            *f,
                            b0,
                            forest_fringe(forest@.take(i as int)),
                            accpre,
                            fringe(forest@[i as int]),
                            acc,
                        );
                    }
                    i = i + 1;
                }
                proof {
                    assert(forest@.take(forest@.len() as int) =~= forest@);
                }
                acc
            },
        }
    }
}

} // verus!
