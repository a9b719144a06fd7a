//! The aggregate over a range of values.

use vstd::prelude::*;
use crate::monoid::commutative;
use crate::monoid::fold;
use crate::monoid::lemma_fold_concat;
use crate::monoid::lemma_fold_one;
use crate::monoid::within;
use crate::monoid::Monoid;
use crate::monoid::Ordered;
use crate::tree::Tree;

verus! {

/// The values of `s` that lie in `lo ..= hi`, in the order of `s`.
pub open spec fn in_range<T: Ordered>(s: Seq<T>, lo: T, hi: T) -> Seq<T> {
    s.filter(|v: T| within(v, lo, hi))
}

/// A sequence whose values all lie in the range is its own selection.
pub proof fn lemma_in_range_all<T: Ordered>(s: Seq<T>, lo: T, hi: T)
    requires
        forall|i: int| 0 <= i < s.len() ==> within(#[trigger] s[i], lo, hi),
    ensures
        in_range(s, lo, hi) == s,
    decreases s.len(),
{
    reveal(Seq::filter);
    if s.len() > 0 {
        lemma_in_range_all(s.drop_last(), lo, hi);
        assert(s.drop_last().push(s.last()) =~= s);
    }
}

/// A sequence with no value in the range has an empty selection.
pub proof fn lemma_in_range_none<T: Ordered>(s: Seq<T>, lo: T, hi: T)
    requires
        forall|i: int| 0 <= i < s.len() ==> !within(#[trigger] s[i], lo, hi),
    ensures
        in_range(s, lo, hi) == Seq::<T>::empty(),
    decreases s.len(),
{
    reveal(Seq::filter);
    if s.len() > 0 {
        lemma_in_range_none(s.drop_last(), lo, hi);
    }
}

impl<T: Monoid + Ordered + Copy> Tree<T> {
    /// The aggregate of the values in `lo ..= hi`: those values combined,
    /// each node before its subtrees.
    pub open spec fn range_aggregate(self, lo: T, hi: T) -> T {
        fold(in_range(self.pre_order_seq(), lo, hi))
    }

    /// Every value met by the walk that takes each node before its
    /// subtrees is a value of the tree.
    pub proof fn lemma_pre_order_keys(self)
        ensures
            forall|i: int|
                0 <= i < self.pre_order_seq().len() ==> self.keys().contains(
                    #[trigger] self.pre_order_seq()[i],
                ),
        decreases self,
    {
        match self {
            Tree::Empty => {},
            Tree::Node(n) => {
                n.left.lemma_pre_order_keys();
                n.right.lemma_pre_order_keys();
                let l = n.left.pre_order_seq();
                let r = n.right.pre_order_seq();
                let s = self.pre_order_seq();
                assert(s == seq![n.val] + l + r);
                assert forall|i: int| 0 <= i < s.len() implies self.keys().contains(
                    #[trigger] s[i],
                ) by {
                    if i == 0 {
                    } else if i < 1 + l.len() {
                        assert(s[i] == l[i - 1]);
                    } else {
                        assert(s[i] == r[i - 1 - l.len()]);
                    }
                }
            },
        }
    }

    /// The aggregate over a range splits at the root: what the root gives,
    /// then the left subtree, then the right.
    pub proof fn lemma_range_split(self, lo: T, hi: T)
        requires
            self is Node,
        ensures
            self.range_aggregate(lo, hi) == (if within(self->Node_0.val, lo, hi) {
                self->Node_0.val
            } else {
                T::MEMPTY
            }).mappend_spec(
                self->Node_0.left.range_aggregate(lo, hi).mappend_spec(
                    self->Node_0.right.range_aggregate(lo, hi),
                ),
            ),
    {
        let n = self->Node_0;
        let pred = |v: T| within(v, lo, hi);
        let one = seq![n.val];
        let l = n.left.pre_order_seq();
        let r = n.right.pre_order_seq();
        assert(self.pre_order_seq() == one + l + r);
        Seq::filter_distributes_over_add(one + l, r, pred);
        Seq::filter_distributes_over_add(one, l, pred);
        lemma_fold_concat(one.filter(pred) + l.filter(pred), r.filter(pred));
        lemma_fold_concat(one.filter(pred), l.filter(pred));
        if within(n.val, lo, hi) {
            lemma_in_range_all(one, lo, hi);
            lemma_fold_one(n.val);
        } else {
            lemma_in_range_none(one, lo, hi);
        }
        T::lemma_associative(
            fold(one.filter(pred)),
            fold(l.filter(pred)),
            fold(r.filter(pred)),
        );
    }

    /// A tree with no value in the range has the identity as its aggregate
    /// over it.
    pub proof fn lemma_range_none(self, lo: T, hi: T)
        requires
            forall|x: T| #[trigger] self.keys().contains(x) ==> !within(x, lo, hi),
        ensures
            self.range_aggregate(lo, hi) == T::MEMPTY,
    {
        self.lemma_pre_order_keys();
        lemma_in_range_none(self.pre_order_seq(), lo, hi);
    }

    /// A tree with every value in the range has its whole aggregate as its
    /// aggregate over it.
    pub proof fn lemma_range_all(self, lo: T, hi: T)
        requires
            forall|x: T| #[trigger] self.keys().contains(x) ==> within(x, lo, hi),
        ensures
            self.range_aggregate(lo, hi) == self.aggregate(),
    {
        self.lemma_pre_order_keys();
        lemma_in_range_all(self.pre_order_seq(), lo, hi);
    }

    /// The aggregate of the values `v` with `min <= v <= max`: those values
    /// combined, each node before its subtrees, which for a commutative
    /// operation is their combination in order; the identity where there is
    /// none. A subtree that lies wholly outside the range is not entered, and
    /// one that lies wholly inside gives its cached aggregate.
    pub fn mappend_from_to(&self, min: T, max: T) -> (r: T)
        requires
            self.wf(),
        ensures
            r == self.range_aggregate(min, max),
            commutative::<T>() ==> r == fold(in_range(self@, min, max)),
        decreases self,
    {
        proof {
            if commutative::<T>() {
                self.lemma_range_in_order(min, max);
            }
        }
        match self {
            Tree::Empty => {
                proof {
                    self.lemma_range_none(min, max);
                }
                T::MEMPTY
            },
            Tree::Node(n) => {
                proof {
                    self.lemma_range_split(min, max);
                    assert(self.root_ordered());
                    assert(self.root_cached());
                    T::lemma_identity(n.left.range_aggregate(min, max));
                    T::lemma_identity(n.right.range_aggregate(min, max));
                    T::lemma_identity(
                        n.left.range_aggregate(min, max).mappend_spec(
                            n.right.range_aggregate(min, max),
                        ),
                    );
                }
                let here = !n.val.less(&min) && !max.less(&n.val);
                if !n.left.is_empty() && n.left.max().less(&min) {
                    proof {
                        n.left.lemma_range_none(min, max);
                    }
                    let rest = n.right.mappend_from_to(min, max);
                    return if here {
                        n.val.mappend(rest)
                    } else {
                        rest
                    };
                }
                if !n.right.is_empty() && max.less(&n.right.min()) {
                    proof {
                        n.right.lemma_range_none(min, max);
                    }
                    let rest = n.left.mappend_from_to(min, max);
                    return if here {
                        n.val.mappend(rest)
                    } else {
                        rest
                    };
                }
                if !n.left.is_empty() && !n.right.is_empty() && !n.left.min().less(&min)
                    && n.right.max().less(&max) {
                    proof {
                        assert(self.keys() == n.left.keys().union(n.right.keys()).insert(n.val));
                        assert(n.left.keys().contains(n.left@.first()));
                        assert(n.right.keys().contains(n.right@.last()));
                        self.lemma_range_all(min, max);
                    }
                    return n.sum;
                }
                let rest = n.left.mappend_from_to(min, max).mappend(
                    n.right.mappend_from_to(min, max),
                );
                if here {
                    n.val.mappend(rest)
                } else {
                    rest
                }
            },
        }
    }
}

} // verus!
