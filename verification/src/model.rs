//! How the models of a tree relate: its values in order, its set of values,
//! and its height.

use vstd::prelude::*;
use crate::monoid::fold;
use crate::monoid::lemma_fold_concat;
use crate::monoid::lemma_fold_one;
use crate::monoid::Monoid;
use crate::monoid::Ordered;
use crate::tree::Tree;

verus! {

/// Each value of `s` comes strictly before the next in the order of `T`.
pub open spec fn strictly_increasing<T: Ordered>(s: Seq<T>) -> bool {
    forall|i: int, j: int|
        0 <= i < j < s.len() ==> (#[trigger] s[i]).rank() < (#[trigger] s[j]).rank()
}

/// A strictly increasing sequence is determined by the set of its values.
pub proof fn lemma_increasing_unique<T: Ordered>(a: Seq<T>, b: Seq<T>)
    requires
        strictly_increasing(a),
        strictly_increasing(b),
        a.to_set() == b.to_set(),
    ensures
        a == b,
    decreases a.len(),
{
    if a.len() == 0 {
        if b.len() > 0 {
            assert(b.to_set().contains(b[0]));
            assert(a.contains(b[0]));
        }
        assert(a =~= b);
    } else {
        assert(a.to_set().contains(a.last()));
        assert(b.contains(a.last()));
        assert(b.len() > 0);
        assert(b.to_set().contains(b.last()));
        assert(a.contains(b.last()));
        let i = choose|i: int| 0 <= i < b.len() && b[i] == a.last();
        let j = choose|j: int| 0 <= j < a.len() && a[j] == b.last();
        assert(b[i].rank() <= b.last().rank());
        assert(a[j].rank() <= a.last().rank());
        T::lemma_rank_injective(a.last(), b.last());
        let a0 = a.drop_last();
        let b0 = b.drop_last();
        assert forall|x: T| a0.to_set().contains(x) <==> b0.to_set().contains(x) by {
            if a0.contains(x) {
                let p = choose|p: int| 0 <= p < a0.len() && a0[p] == x;
                assert(a[p] == x);
                assert(a[p].rank() < a.last().rank());
                assert(a.to_set().contains(x));
                assert(b.contains(x));
                let q = choose|q: int| 0 <= q < b.len() && b[q] == x;
                assert(q < b.len() - 1);
                assert(b0[q] == x);
            }
            if b0.contains(x) {
                let p = choose|p: int| 0 <= p < b0.len() && b0[p] == x;
                assert(b[p] == x);
                assert(b[p].rank() < b.last().rank());
                assert(b.to_set().contains(x));
                assert(a.contains(x));
                let q = choose|q: int| 0 <= q < a.len() && a[q] == x;
                assert(q < a.len() - 1);
                assert(a0[q] == x);
            }
        }
        assert(a0.to_set() =~= b0.to_set());
        assert forall|i: int, j: int| 0 <= i < j < a0.len() implies (#[trigger] a0[i]).rank() < (
        #[trigger] a0[j]).rank() by {
            assert(a0[i] == a[i] && a0[j] == a[j]);
        }
        assert forall|i: int, j: int| 0 <= i < j < b0.len() implies (#[trigger] b0[i]).rank() < (
        #[trigger] b0[j]).rank() by {
            assert(b0[i] == b[i] && b0[j] == b[j]);
        }
        lemma_increasing_unique(a0, b0);
        assert(a =~= a0.push(a.last()));
        assert(b =~= b0.push(b.last()));
    }
}

impl<T: Monoid + Ordered + Copy> Tree<T> {
    /// The values in order are exactly the set of values.
    pub proof fn lemma_view_keys(self)
        ensures
            forall|x: T| #[trigger] self@.contains(x) <==> self.keys().contains(x),
            forall|i: int| 0 <= i < self@.len() ==> self.keys().contains(#[trigger] self@[i]),
            self@.to_set() == self.keys(),
            self.keys().finite(),
        decreases self,
    {
        match self {
            Tree::Empty => {
                assert(self@.to_set() =~= self.keys());
            },
            Tree::Node(n) => {
                n.left.lemma_view_keys();
                n.right.lemma_view_keys();
                let l = n.left@;
                let r = n.right@;
                let s = self@;
                assert(s == l + seq![n.val] + r);
                assert forall|x: T| #[trigger] s.contains(x) implies self.keys().contains(x) by {
                    let i = choose|i: int| 0 <= i < s.len() && s[i] == x;
                    if i < l.len() {
                        assert(l[i] == x);
                    } else if i == l.len() {
                    } else {
                        assert(r[i - l.len() - 1] == x);
                    }
                }
                assert forall|x: T| #[trigger] self.keys().contains(x) implies s.contains(x) by {
                    if x == n.val {
                        assert(s[l.len() as int] == x);
                    } else if n.left.keys().contains(x) {
                        let i = choose|i: int| 0 <= i < l.len() && l[i] == x;
                        assert(s[i] == x);
                    } else {
                        let i = choose|i: int| 0 <= i < r.len() && r[i] == x;
                        assert(s[l.len() + 1 + i] == x);
                    }
                }
                assert(self@.to_set() =~= self.keys());
            },
        }
    }

    /// The values of a well-formed tree are in strictly increasing order.
    pub proof fn lemma_sorted(self)
        requires
            self.wf(),
        ensures
            strictly_increasing(self@),
        decreases self,
    {
        match self {
            Tree::Empty => {},
            Tree::Node(n) => {
                n.left.lemma_sorted();
                n.right.lemma_sorted();
                n.left.lemma_view_keys();
                n.right.lemma_view_keys();
                let l = n.left@;
                let r = n.right@;
                let s = self@;
                assert(s == l + seq![n.val] + r);
                assert(self.root_ordered());
                assert forall|i: int, j: int| 0 <= i < j < s.len() implies (#[trigger] s[i]).rank()
                    < (#[trigger] s[j]).rank() by {
                    if i < l.len() {
                        assert(s[i] == l[i]);
                        assert(n.left.keys().contains(l[i]));
                    } else if i > l.len() {
                        assert(s[i] == r[i - l.len() - 1]);
                    }
                    if j < l.len() {
                        assert(s[j] == l[j]);
                    } else if j > l.len() {
                        assert(s[j] == r[j - l.len() - 1]);
                        assert(n.right.keys().contains(r[j - l.len() - 1]));
                    }
                }
            },
        }
    }

    /// Where the first and the last value of a tree stand, and that in a
    /// well-formed tree they are the smallest and the largest.
    pub proof fn lemma_first_last(self)
        requires
            self is Node,
        ensures
            self@.len() > 0,
            self@.first() == (if *self->Node_0.left is Node {
                self->Node_0.left@.first()
            } else {
                self->Node_0.val
            }),
            self@.last() == (if *self->Node_0.right is Node {
                self->Node_0.right@.last()
            } else {
                self->Node_0.val
            }),
            self.keys().contains(self@.first()),
            self.keys().contains(self@.last()),
            self.wf() ==> forall|x: T| #[trigger]
                self.keys().contains(x) ==> self@.first().rank() <= x.rank() <= self@.last().rank(),
    {
        let n = self->Node_0;
        let l = n.left@;
        let r = n.right@;
        let s = self@;
        assert(s == l + seq![n.val] + r);
        self.lemma_view_keys();
        match *n.left {
            Tree::Empty => {},
            Tree::Node(m) => {
                assert(n.left@ == m.left@ + seq![m.val] + m.right@);
                assert(s[0] == l[0]);
            },
        }
        match *n.right {
            Tree::Empty => {},
            Tree::Node(m) => {
                assert(n.right@ == m.left@ + seq![m.val] + m.right@);
                assert(s[s.len() - 1] == r[r.len() - 1]);
            },
        }
        if self.wf() {
            self.lemma_sorted();
            assert forall|x: T| #[trigger] self.keys().contains(x) implies s.first().rank()
                <= x.rank() <= s.last().rank() by {
                let i = choose|i: int| 0 <= i < s.len() && s[i] == x;
                assert(s[0].rank() <= s[i].rank());
                assert(s[i].rank() <= s[s.len() - 1].rank());
            }
        }
    }

    /// What the root of a well-formed tree has cached is what its
    /// subtrees' cached fields give.
    pub proof fn lemma_cached_from_children(self)
        requires
            self.wf(),
        ensures
            self matches Tree::Node(n) ==> {
                &&& n.height == 1 + if n.left.cached_height() >= n.right.cached_height() {
                    n.left.cached_height()
                } else {
                    n.right.cached_height()
                }
                &&& n.size == 1 + n.left.cached_size() + n.right.cached_size()
                &&& n.sum == n.val.mappend_spec(
                    n.left.cached_sum().mappend_spec(n.right.cached_sum()),
                )
            },
    {
        match self {
            Tree::Empty => {},
            Tree::Node(n) => {
                assert(self.root_cached() && n.left.wf() && n.right.wf());
                let one = seq![n.val];
                let l = n.left.pre_order_seq();
                let r = n.right.pre_order_seq();
                assert(self.pre_order_seq() == one + l + r);
                assert(self@ == n.left@ + one + n.right@);
                lemma_fold_concat(one + l, r);
                lemma_fold_concat(one, l);
                lemma_fold_one(n.val);
                T::lemma_associative(n.val, fold(l), fold(r));
                match *n.left {
                    Tree::Empty => {},
                    Tree::Node(_) => {
                        assert(n.left.root_cached());
                    },
                }
                match *n.right {
                    Tree::Empty => {},
                    Tree::Node(_) => {
                        assert(n.right.root_cached());
                    },
                }
            },
        }
    }

    /// Recomputing the cached fields of a well-formed tree's root changes
    /// nothing.
    pub proof fn lemma_cached_is_computed(self)
        requires
            self.wf(),
        ensures
            self matches Tree::Node(n) ==> {
                &&& Self::parts_fit(*n.left, *n.right)
                &&& self == Self::spec_from_parts(n.val, *n.left, *n.right)
            },
    {
        match self {
            Tree::Empty => {},
            Tree::Node(n) => {
                assert(self.root_cached() && self.root_ordered() && self.leans_at_most(1));
                Self::lemma_node_wf(n.val, *n.left, *n.right, 1);
                let t = Self::spec_from_parts(n.val, *n.left, *n.right);
                assert(t.root_cached());
                assert(t@ == self@);
                assert(t.pre_order_seq() == self.pre_order_seq());
                assert(t.depth() == self.depth());
                assert(t->Node_0.height == n.height);
                assert(t->Node_0.size == n.size);
                assert(t->Node_0.sum == n.sum);
                assert(t->Node_0.left == n.left);
            },
        }
    }
}

} // verus!
