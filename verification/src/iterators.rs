use vstd::prelude::*;

use crate::tree::{
    fringe, forest_fringe, forest_size, lemma_forest_member_size, lemma_forest_push,
    lemma_forest_step, lemma_same_shape_refl, lemma_shape_push, lemma_take_fringe,
    same_forest_shape, same_shape, tree_size, Tree,
};

verus! {

/// The leaves still to be produced by a stack of borrowed subtrees: the
/// fringe of the topmost (last-pushed) entry first, then the rest.
pub open spec fn ref_stack_fringe<T>(s: Seq<&Tree<T>>) -> Seq<T>
    decreases s,
{
    if s.len() == 0 {
        Seq::empty()
    } else {
        fringe(*s.last()) + ref_stack_fringe(s.drop_last())
    }
}

/// The total node count of a stack of borrowed subtrees; the traversal
/// measure, since every pull consumes at least one node.
pub open spec fn ref_stack_size<T>(s: Seq<&Tree<T>>) -> nat
    decreases s,
{
    if s.len() == 0 {
        0
    } else {
        tree_size(*s.last()) + ref_stack_size(s.drop_last())
    }
}

/// The leaves still to be produced by a stack of owned subtrees.
pub open spec fn stack_fringe<T>(s: Seq<Tree<T>>) -> Seq<T>
    decreases s,
{
    if s.len() == 0 {
        Seq::empty()
    } else {
        fringe(s.last()) + stack_fringe(s.drop_last())
    }
}

/// The total node count of a stack of owned subtrees.
pub open spec fn stack_size<T>(s: Seq<Tree<T>>) -> nat
    decreases s,
{
    if s.len() == 0 {
        0
    } else {
        tree_size(s.last()) + stack_size(s.drop_last())
    }
}

proof fn lemma_ref_stack_push<T>(s: Seq<&Tree<T>>, t: &Tree<T>)
    ensures
        ref_stack_fringe(s.push(t)) == fringe(*t) + ref_stack_fringe(s),
        ref_stack_size(s.push(t)) == tree_size(*t) + ref_stack_size(s),
{
    assert(s.push(t).drop_last() =~= s);
    assert(s.push(t).last() == t);
}

proof fn lemma_stack_push<T>(s: Seq<Tree<T>>, t: Tree<T>)
    ensures
        stack_fringe(s.push(t)) == fringe(t) + stack_fringe(s),
        stack_size(s.push(t)) == tree_size(t) + stack_size(s),
{
    assert(s.push(t).drop_last() =~= s);
    assert(s.push(t).last() == t);
}

/// Walk through subtrees left to right by shared reference.
pub struct Iter<'a, T> {
    stack: Vec<&'a Tree<T>>,
}

/// Walk through subtrees left to right, moving the leaf values out.
pub struct IntoIter<T> {
    stack: Vec<Tree<T>>,
}

impl<T> Tree<T> {
    /// A lazy left-to-right traversal of the leaves by shared reference.
    pub fn iter<'a>(&'a self) -> (it: Iter<'a, T>)
        ensures
            it.remaining() == fringe(*self),
    {
        let mut stack: Vec<&'a Tree<T>> = Vec::new();
        stack.push(self);
        proof {
            lemma_ref_stack_push(Seq::<&Tree<T>>::empty(), self);
            assert(fringe(*self) + ref_stack_fringe(Seq::<&Tree<T>>::empty()) =~= fringe(*self));
        }
        Iter { stack }
    }

    /// A lazy left-to-right traversal that consumes the tree and yields the
    /// leaf values by move.
    pub fn into_iter(self) -> (it: IntoIter<T>)
        ensures
            it.remaining() == fringe(self),
    {
        let ghost this = self;
        let mut stack: Vec<Tree<T>> = Vec::new();
        stack.push(self);
        proof {
            lemma_stack_push(Seq::<Tree<T>>::empty(), this);
            assert(fringe(this) + stack_fringe(Seq::<Tree<T>>::empty()) =~= fringe(this));
        }
        IntoIter { stack }
    }
}

impl<'a, T> Iter<'a, T> {
    /// The leaf values this iterator has yet to yield, in order.
    pub closed spec fn remaining(self) -> Seq<T> {
        ref_stack_fringe(self.stack@)
    }

    /// Produce the next leaf, or `None` once every leaf has been yielded.
    pub fn next(&mut self) -> (r: Option<&'a T>)
        ensures
            match r {
                None => {
                    &&& old(self).remaining().len() == 0
                    &&& final(self).remaining().len() == 0
                },
                Some(v) => {
                    &&& old(self).remaining().len() > 0
                    &&& *v == old(self).remaining()[0]
                    &&& final(self).remaining() == old(self).remaining().drop_first()
                },
            },
    {
        let ghost orig: Seq<T> = self.remaining();
        loop
            invariant
                self.remaining() == orig,
                orig == old(self).remaining(),
            decreases ref_stack_size(self.stack@),
        {
            let ghost before: Seq<&Tree<T>> = self.stack@;
            match self.stack.pop() {
                None => {
                    return None;
                },
                Some(tree) => {
                    proof {
                        assert(before.last() == tree);
                        assert(before.drop_last() == self.stack@);
                    }
                    match tree {
                        Tree::Leaf(leaf) => {
                            proof {
                                assert(orig == seq![*leaf] + ref_stack_fringe(self.stack@));
                                assert(orig[0] == *leaf);
                                assert(ref_stack_fringe(self.stack@) =~= orig.drop_first());
                            }
                            return Some(leaf);
                        },
                        Tree::Forest(forest) => {
                            let ghost rest: Seq<&Tree<T>> = self.stack@;
                            let mut i: usize = forest.len();
                            proof {
                                assert(forest@.skip(forest@.len() as int)
                                    =~= Seq::<Tree<T>>::empty());
                                assert(ref_stack_fringe(self.stack@)
                                    =~= forest_fringe(forest@.skip(i as int))
                                        + ref_stack_fringe(rest));
                            }
                            while i > 0
                                invariant
                                    i <= forest@.len(),
                                    ref_stack_fringe(self.stack@) == forest_fringe(
                                        forest@.skip(i as int),
                                    ) + ref_stack_fringe(rest),
                                    ref_stack_size(self.stack@) == forest_size(
                                        forest@.skip(i as int),
                                    ) + ref_stack_size(rest),
                                decreases i,
                            {
                                i = i - 1;
                                let ghost spre: Seq<&Tree<T>> = self.stack@;
                                let elem = &forest[i];
                                self.stack.push(elem);
                                proof {
                                    lemma_ref_stack_push(spre, elem);
                                    lemma_forest_step(forest@, i as int);
                                    assert(ref_stack_fringe(self.stack@) =~= forest_fringe(
                                        forest@.skip(i as int),
                                    ) + ref_stack_fringe(rest));
                                }
                            }
                            proof {
                                assert(forest@.skip(0) =~= forest@);
                                assert(self.remaining() =~= orig);
                            }
                        },
                    }
                },
            }
        }
    }
}

impl<T> IntoIter<T> {
    /// The leaf values this iterator has yet to yield, in order.
    pub closed spec fn remaining(self) -> Seq<T> {
        stack_fringe(self.stack@)
    }

    /// Move the next leaf value out, or `None` once the tree is exhausted.
    pub fn next(&mut self) -> (r: Option<T>)
        ensures
            match r {
                None => {
                    &&& old(self).remaining().len() == 0
                    &&& final(self).remaining().len() == 0
                },
                Some(v) => {
                    &&& old(self).remaining().len() > 0
                    &&& v == old(self).remaining()[0]
                    &&& final(self).remaining() == old(self).remaining().drop_first()
                },
            },
    {
        let ghost orig: Seq<T> = self.remaining();
        loop
            invariant
                self.remaining() == orig,
                orig == old(self).remaining(),
            decreases stack_size(self.stack@),
        {
            let ghost before: Seq<Tree<T>> = self.stack@;
            match self.stack.pop() {
                None => {
                    return None;
                },
                Some(tree) => {
                    proof {
                        assert(before.last() == tree);
                        assert(before.drop_last() == self.stack@);
                    }
                    match tree {
                        Tree::Leaf(leaf) => {
                            proof {
                                assert(orig == seq![leaf] + stack_fringe(self.stack@));
                                assert(orig[0] == leaf);
                                assert(stack_fringe(self.stack@) =~= orig.drop_first());
                            }
                            return Some(leaf);
                        },
                        Tree::Forest(mut forest) => {
                            let ghost all: Seq<Tree<T>> = forest@;
                            let ghost rest: Seq<Tree<T>> = self.stack@;
                            proof {
                                assert(all.skip(all.len() as int) =~= Seq::<Tree<T>>::empty());
                                assert(forest@ =~= all.take(forest@.len() as int));
                            }
                            while forest.len() > 0
                                invariant
                                    forest@.len() <= all.len(),
                                    forest@ == all.take(forest@.len() as int),
                                    stack_fringe(self.stack@) == forest_fringe(
                                        all.skip(forest@.len() as int),
                                    ) + stack_fringe(rest),
                                    stack_size(self.stack@) == forest_size(
                                        all.skip(forest@.len() as int),
                                    ) + stack_size(rest),
                                decreases forest@.len(),
                            {
                                let ghost k: int = forest@.len() as int;
                                let ghost fpre: Seq<Tree<T>> = forest@;
                                let ghost spre: Seq<Tree<T>> = self.stack@;
                                let sub = forest.pop().unwrap();
                                self.stack.push(sub);
                                proof {
                                    assert(fpre.last() == all[k - 1]);
                                    assert(fpre.drop_last() =~= all.take(k - 1));
                                    lemma_stack_push(spre, sub);
                                    lemma_forest_step(all, k - 1);
                                    assert(stack_fringe(self.stack@) =~= forest_fringe(
                                        all.skip(k - 1),
                                    ) + stack_fringe(rest));
                                }
                            }
                            proof {
                                assert(all.skip(0) =~= all);
                                assert(self.remaining() =~= orig);
                            }
                        },
                    }
                },
            }
        }
    }
}

/// Rewrite the `k`-th leaf (in traversal order) of `t` to `v`, counting
/// from the front; the tree comes back with at most that one leaf changed.
/// `Ok` carries the previous leaf value; `Err` reports how many leaves the
/// index overshoots by and hands `v` back.
fn set_nth<T>(t: Tree<T>, k: usize, v: T) -> (res: (Tree<T>, Result<T, (usize, T)>))
    ensures
        same_shape(res.0, t),
        match res.1 {
            Ok(prev) => {
                &&& k < fringe(t).len()
                &&& prev == fringe(t)[k as int]
                &&& fringe(res.0) == fringe(t).update(k as int, v)
            },
            Err((k2, v2)) => {
                &&& k >= fringe(t).len()
                &&& k2 == k - fringe(t).len()
                &&& v2 == v
                &&& fringe(res.0) == fringe(t)
            },
        },
    decreases tree_size(t),
{
    match t {
        Tree::Leaf(x) => {
            if k == 0 {
                proof {
                    assert(fringe(t) =~= seq![x]);
                    assert(fringe(Tree::<T>::Leaf(v)) =~= seq![v]);
                    assert(seq![x].update(0, v) =~= seq![v]);
                }
                (Tree::Leaf(v), Ok(x))
            } else {
                proof {
                    assert(fringe(t) =~= seq![x]);
                }
                (Tree::Leaf(x), Err((k - 1, v)))
            }
        },
        Tree::Forest(mut forest) => {
            let ghost kids: Vec<Tree<T>> = forest;
            let ghost all: Seq<Tree<T>> = forest@;
            let mut out: Vec<Tree<T>> = Vec::new();
            let mut res1: Result<T, (usize, T)> = Err((k, v));
            proof {
                assert(all.take(0) =~= Seq::<Tree<T>>::empty());
                assert(all.skip(0) =~= all);
                assert(forest_fringe(Seq::<Tree<T>>::empty()) =~= Seq::<T>::empty());
                assert(same_forest_shape(
                    Seq::<Tree<T>>::empty(),
                    Seq::<Tree<T>>::empty(),
                ));
            }
            while forest.len() > 0
                invariant
                    t == Tree::Forest(kids),
                    kids@ == all,
                    out@.len() + forest@.len() == all.len(),
                    forest@ == all.skip(out@.len() as int),
                    same_forest_shape(out@, all.take(out@.len() as int)),
                    match res1 {
                        Err((kk, vv)) => {
                            &&& k >= forest_fringe(all.take(out@.len() as int)).len()
                            &&& kk == k - forest_fringe(all.take(out@.len() as int)).len()
                            &&& vv == v
                            &&& forest_fringe(out@) == forest_fringe(
                                all.take(out@.len() as int),
                            )
                        },
                        Ok(prev) => {
                            &&& k < forest_fringe(all.take(out@.len() as int)).len()
                            &&& prev == forest_fringe(all.take(out@.len() as int))[k as int]
                            &&& forest_fringe(out@) == forest_fringe(
                                all.take(out@.len() as int),
                            ).update(k as int, v)
                        },
                    },
                decreases forest@.len(),
            {
                let ghost i: int = out@.len() as int;
                let ghost outpre: Seq<Tree<T>> = out@;
                let child = forest.remove(0);
                proof {
                    assert(child == all[i]);
                    assert(all.skip(i).remove(0) =~= all.skip(i + 1));
                    lemma_forest_member_size(all, i);
                    assert(tree_size(t) == 1 + forest_size(all));
                    assert(tree_size(child) < tree_size(t));
                    lemma_take_fringe(all, i + 1);
                    assert(all.take(i + 1) =~= all.take(i).push(all[i]));
                }
                match res1 {
                    Err((kk, vv)) => {
                        let (c2, r2) = set_nth(child, kk, vv);
                        out.push(c2);
                        proof {
                            lemma_forest_push(outpre, c2);
                            lemma_shape_push(outpre, all.take(i), c2, all[i]);
                            let pre = forest_fringe(all.take(i));
                            let mid = fringe(child);
                            if kk < mid.len() {
                                assert((pre + mid).update(k as int, v) =~= pre + mid.update(
                                    kk as int,
                                    v,
                                ));
                                assert((pre + mid)[k as int] == mid[kk as int]);
                            }
                        }
                        res1 = r2;
                    },
                    Ok(prev) => {
                        out.push(child);
                        proof {
                            lemma_forest_push(outpre, child);
                            lemma_same_shape_refl(child);
                            lemma_shape_push(outpre, all.take(i), child, all[i]);
                            let pre = forest_fringe(all.take(i));
                            let mid = fringe(child);
                            assert(pre.update(k as int, v) + mid =~= (pre + mid).update(
                                k as int,
                                v,
                            ));
                            assert((pre + mid)[k as int] == pre[k as int]);
                        }
                        res1 = Ok(prev);
                    },
                }
            }
            proof {
                assert(all.take(all.len() as int) =~= all);
            }
            (Tree::Forest(out), res1)
        },
    }
}

/// A cursor over the leaves of a tree, for mutating them in place one at a
/// time in left-to-right order. The cursor holds no borrow of its own: each
/// access takes the tree anew, and the exclusive borrow such an access
/// takes rules out any overlapping reader or writer.
pub struct IterMut {
    pos: usize,
}

impl<T> Tree<T> {
    /// Begin a mutable traversal: a cursor standing before the first leaf.
    pub fn iter_mut(&mut self) -> (it: IterMut)
        ensures
            *final(self) == *old(self),
            it.position() == 0,
    {
        IterMut { pos: 0 }
    }
}

impl IterMut {
    /// How many leaves the cursor has stepped past.
    pub closed spec fn position(self) -> nat {
        self.pos as nat
    }

    /// Step past the leaf under the cursor without visiting it.
    pub fn advance(&mut self)
        requires
            old(self).position() < usize::MAX,
        ensures
            final(self).position() == old(self).position() + 1,
    {
        self.pos = self.pos + 1;
    }

    /// Replace the leaf under the cursor with `v`: hand back the previous
    /// value, rewrite exactly that one leaf, leave every other leaf and the
    /// whole shape unchanged, and step the cursor forward. Past the last
    /// leaf the tree is left as it is and `None` comes back.
    pub fn replace_next<T>(&mut self, tree: &mut Tree<T>, v: T) -> (r: Option<T>)
        requires
            old(self).position() < usize::MAX,
        ensures
            same_shape(*final(tree), *old(tree)),
            match r {
                Some(prev) => {
                    &&& old(self).position() < fringe(*old(tree)).len()
                    &&& prev == fringe(*old(tree))[old(self).position() as int]
                    &&& fringe(*final(tree)) == fringe(*old(tree)).update(
                        old(self).position() as int,
                        v,
                    )
                    &&& final(self).position() == old(self).position() + 1
                },
                None => {
                    &&& old(self).position() >= fringe(*old(tree)).len()
                    &&& fringe(*final(tree)) == fringe(*old(tree))
                    &&& *final(self) == *old(self)
                },
            },
    {
        let mut taken = Tree::Forest(Vec::new());
        core::mem::swap(tree, &mut taken);
        let (t2, res) = set_nth(taken, self.pos, v);
        *tree = t2;
        match res {
            Ok(prev) => {
                self.pos = self.pos + 1;
                Some(prev)
            },
            Err(_) => None,
        }
    }
}

} // verus!
