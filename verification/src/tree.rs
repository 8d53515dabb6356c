use vstd::prelude::*;
use vstd::std_specs::cmp::PartialEqSpec;

verus! {

/// Recursively defined tree where values are stored only at the leaves.
/// A forest holds an ordered sequence of subtrees; an empty forest is a
/// legal, leafless tree.
#[derive(PartialEq, Debug)]
pub enum Tree<T> {
    Leaf(T),
    Forest(Vec<Tree<T>>),
}

/// The fringe of a tree: its leaf values in left-to-right, depth-first order.
pub open spec fn fringe<T>(t: Tree<T>) -> Seq<T>
    decreases t,
{
    match t {
        Tree::Leaf(v) => seq![v],
        Tree::Forest(f) => forest_fringe(f@),
    }
}

/// The fringes of a sequence of trees, concatenated in order.
pub open spec fn forest_fringe<T>(s: Seq<Tree<T>>) -> Seq<T>
    decreases s,
{
    if s.len() == 0 {
        Seq::empty()
    } else {
        fringe(s[0]) + forest_fringe(s.drop_first())
    }
}

/// The number of nodes in a tree; at least one, so that unwrapping a forest
/// strictly shrinks the measure of pending work in the traversals.
pub open spec fn tree_size<T>(t: Tree<T>) -> nat
    decreases t,
{
    match t {
        Tree::Leaf(_) => 1,
        Tree::Forest(f) => 1 + forest_size(f@),
    }
}

/// The total number of nodes in a sequence of trees.
pub open spec fn forest_size<T>(s: Seq<Tree<T>>) -> nat
    decreases s,
{
    if s.len() == 0 {
        0
    } else {
        tree_size(s[0]) + forest_size(s.drop_first())
    }
}

/// Peeling one tree off the front of a suffix of a forest splits off its
/// fringe and its size.
pub proof fn lemma_forest_step<T>(s: Seq<Tree<T>>, i: int)
    requires
        0 <= i < s.len(),
    ensures
        forest_fringe(s.skip(i)) == fringe(s[i]) + forest_fringe(s.skip(i + 1)),
        forest_size(s.skip(i)) == tree_size(s[i]) + forest_size(s.skip(i + 1)),
{
    assert(s.skip(i).drop_first() =~= s.skip(i + 1));
    assert(s.skip(i)[0] == s[i]);
}

/// A forest's fringe and size split at any index into the part contributed
/// by the trees before it and the part contributed by the rest.
pub proof fn lemma_forest_split<T>(s: Seq<Tree<T>>, i: int)
    requires
        0 <= i <= s.len(),
    ensures
        forest_fringe(s) == forest_fringe(s.take(i)) + forest_fringe(s.skip(i)),
        forest_size(s) == forest_size(s.take(i)) + forest_size(s.skip(i)),
    decreases i,
{
    if i == 0 {
        assert(s.take(0) =~= Seq::<Tree<T>>::empty());
        assert(s.skip(0) =~= s);
        assert(forest_fringe(s) =~= forest_fringe(s.take(0)) + forest_fringe(s.skip(0)));
    } else {
        lemma_forest_split(s, i - 1);
        lemma_forest_step(s, i - 1);
        assert(forest_fringe(s)
            =~= forest_fringe(s.take(i - 1)) + fringe(s[i - 1]) + forest_fringe(s.skip(i)));
        assert(s.take(i).drop_first() =~= s.drop_first().take(i - 1));
        lemma_take_fringe(s, i);
    }
}

/// The fringe and size of the first `i` trees grow by one tree at a time.
pub proof fn lemma_take_fringe<T>(s: Seq<Tree<T>>, i: int)
    requires
        0 < i <= s.len(),
    ensures
        forest_fringe(s.take(i)) == forest_fringe(s.take(i - 1)) + fringe(s[i - 1]),
        forest_size(s.take(i)) == forest_size(s.take(i - 1)) + tree_size(s[i - 1]),
    decreases i,
{
    if i == 1 {
        assert(s.take(1).drop_first() =~= Seq::<Tree<T>>::empty());
        assert(s.take(0) =~= Seq::<Tree<T>>::empty());
        assert(s.take(1)[0] == s[0]);
        assert(forest_fringe(Seq::<Tree<T>>::empty()) =~= Seq::<T>::empty());
        assert(forest_size(Seq::<Tree<T>>::empty()) == 0);
        assert(forest_fringe(s.take(1)) =~= fringe(s[0]));
        assert(forest_fringe(s.take(1)) =~= forest_fringe(s.take(0)) + fringe(s[0]));
    } else {
        lemma_take_fringe(s.drop_first(), i - 1);
        assert(s.take(i).drop_first() =~= s.drop_first().take(i - 1));
        assert(s.take(i - 1).drop_first() =~= s.drop_first().take(i - 2));
        assert(s.take(i)[0] == s[0]);
        assert(s.take(i - 1)[0] == s[0]);
        assert(s.drop_first()[i - 2] == s[i - 1]);
        assert(forest_fringe(s.take(i))
            =~= forest_fringe(s.take(i - 1)) + fringe(s[i - 1]));
    }
}

/// Appending one tree to a forest appends its fringe and adds its size.
pub proof fn lemma_forest_push<T>(s: Seq<Tree<T>>, t: Tree<T>)
    ensures
        forest_fringe(s.push(t)) == forest_fringe(s) + fringe(t),
        forest_size(s.push(t)) == forest_size(s) + tree_size(t),
    decreases s.len(),
{
    if s.len() == 0 {
        assert(s.push(t)[0] == t);
        assert(s.push(t).drop_first() =~= Seq::<Tree<T>>::empty());
        assert(forest_fringe(Seq::<Tree<T>>::empty()) =~= Seq::<T>::empty());
        assert(forest_size(Seq::<Tree<T>>::empty()) == 0);
        assert(forest_fringe(s.push(t)) =~= forest_fringe(s) + fringe(t));
    } else {
        lemma_forest_push(s.drop_first(), t);
        assert(s.push(t).drop_first() =~= s.drop_first().push(t));
        assert(s.push(t)[0] == s[0]);
        assert(forest_fringe(s.push(t)) =~= forest_fringe(s) + fringe(t));
    }
}

/// No tree in a forest is larger than the whole forest.
pub proof fn lemma_forest_member_size<T>(s: Seq<Tree<T>>, i: int)
    requires
        0 <= i < s.len(),
    ensures
        tree_size(s[i]) <= forest_size(s),
    decreases i,
{
    if i > 0 {
        lemma_forest_member_size(s.drop_first(), i - 1);
        assert(s.drop_first()[i - 1] == s[i]);
    }
}

/// Two fringes match: same length, and the elements agree pairwise under
/// the element type's own equality (`eq_spec`, the specification of `==`).
pub open spec fn fringe_matches<T: PartialEq>(a: Seq<T>, b: Seq<T>) -> bool {
    &&& a.len() == b.len()
    &&& forall|i: int| 0 <= i < a.len() ==> #[trigger] a[i].eq_spec(&b[i])
}

/// A fringe matches itself whenever the element type's equality is
/// reflexive, as `PartialEq` implementations are expected to be on types
/// that compare equal to themselves; the empty fringe matches itself
/// unconditionally.
pub proof fn lemma_fringe_matches_reflexive<T: PartialEq>(s: Seq<T>)
    requires
        forall|x: T| #[trigger] x.eq_spec(&x),
    ensures
        fringe_matches(s, s),
{
    assert forall|i: int| 0 <= i < s.len() implies #[trigger] s[i].eq_spec(&s[i]) by {
        assert(s[i].eq_spec(&s[i]));
    }
}

/// Matching of fringes is symmetric whenever the element type's equality
/// is.
pub proof fn lemma_fringe_matches_symmetric<T: PartialEq>(a: Seq<T>, b: Seq<T>)
    requires
        forall|x: T, y: T| #[trigger] x.eq_spec(&y) == y.eq_spec(&x),
    ensures
        fringe_matches(a, b) == fringe_matches(b, a),
{
    if fringe_matches(a, b) {
        assert forall|i: int| 0 <= i < b.len() implies #[trigger] b[i].eq_spec(&a[i]) by {
            assert(a[i].eq_spec(&b[i]));
        }
    }
    if fringe_matches(b, a) {
        assert forall|i: int| 0 <= i < a.len() implies #[trigger] a[i].eq_spec(&b[i]) by {
            assert(b[i].eq_spec(&a[i]));
        }
    }
}

/// After two fringes agree on their first elements, the whole fringes match
/// exactly when the remainders match.
pub proof fn lemma_matches_step<T: PartialEq>(a: Seq<T>, b: Seq<T>)
    requires
        a.len() > 0,
        b.len() > 0,
        a[0].eq_spec(&b[0]),
    ensures
        fringe_matches(a, b) <==> fringe_matches(a.drop_first(), b.drop_first()),
{
    if fringe_matches(a.drop_first(), b.drop_first()) && a.len() == b.len() {
        assert forall|i: int| 0 <= i < a.len() implies #[trigger] a[i].eq_spec(&b[i]) by {
            if i > 0 {
                assert(a.drop_first()[i - 1].eq_spec(&b.drop_first()[i - 1]));
                assert(a.drop_first()[i - 1] == a[i]);
                assert(b.drop_first()[i - 1] == b[i]);
            }
        }
    }
    if fringe_matches(a, b) {
        assert forall|i: int|
            0 <= i < a.drop_first().len() implies #[trigger] a.drop_first()[i].eq_spec(
            &b.drop_first()[i],
        ) by {
            assert(a[i + 1].eq_spec(&b[i + 1]));
            assert(a.drop_first()[i] == a[i + 1]);
            assert(b.drop_first()[i] == b[i + 1]);
        }
    }
}

/// Two trees, of possibly different element types, have the same shape:
/// leaves line up with leaves, forests with forests of equal child count,
/// child by child.
pub open spec fn same_shape<T, U>(a: Tree<T>, b: Tree<U>) -> bool
    decreases a,
{
    match a {
        Tree::Leaf(_) => b is Leaf,
        Tree::Forest(fa) => match b {
            Tree::Leaf(_) => false,
            Tree::Forest(fb) => same_forest_shape(fa@, fb@),
        },
    }
}

/// Two sequences of trees have the same shape, position by position.
pub open spec fn same_forest_shape<T, U>(a: Seq<Tree<T>>, b: Seq<Tree<U>>) -> bool
    decreases a,
{
    if a.len() != b.len() {
        false
    } else if a.len() == 0 {
        true
    } else {
        same_shape(a[0], b[0]) && same_forest_shape(a.drop_first(), b.drop_first())
    }
}

/// Every tree has the same shape as itself.
pub proof fn lemma_same_shape_refl<T>(t: Tree<T>)
    ensures
        same_shape(t, t),
    decreases t,
{
    match t {
        Tree::Leaf(_) => {
        },
        Tree::Forest(f) => {
            lemma_same_forest_shape_refl(f@);
        },
    }
}

/// Every sequence of trees has the same shape as itself.
pub proof fn lemma_same_forest_shape_refl<T>(s: Seq<Tree<T>>)
    ensures
        same_forest_shape(s, s),
    decreases s,
{
    if s.len() > 0 {
        lemma_same_shape_refl(s[0]);
        lemma_same_forest_shape_refl(s.drop_first());
    }
}

/// Appending trees of equal shape to forests of equal shape keeps the
/// forests' shapes equal.
pub proof fn lemma_shape_push<T, U>(a: Seq<Tree<T>>, b: Seq<Tree<U>>, x: Tree<T>, y: Tree<U>)
    requires
        same_forest_shape(a, b),
        same_shape(x, y),
    ensures
        same_forest_shape(a.push(x), b.push(y)),
    decreases a.len(),
{
    if a.len() == 0 {
        assert(a.push(x)[0] == x);
        assert(b.push(y)[0] == y);
        assert(a.push(x).drop_first() =~= Seq::<Tree<T>>::empty());
        assert(b.push(y).drop_first() =~= Seq::<Tree<U>>::empty());
        assert(same_forest_shape(Seq::<Tree<T>>::empty(), Seq::<Tree<U>>::empty()));
    } else {
        lemma_shape_push(a.drop_first(), b.drop_first(), x, y);
        assert(a.push(x).drop_first() =~= a.drop_first().push(x));
        assert(b.push(y).drop_first() =~= b.drop_first().push(y));
        assert(a.push(x)[0] == a[0]);
        assert(b.push(y)[0] == b[0]);
    }
}

} // verus!
