//! General laws of the tree, each proved from the contracts and models of
//! the operations it speaks of.

use vstd::prelude::*;
use crate::model::lemma_increasing_unique;
use crate::monoid::commutative;
use crate::monoid::fold;
use crate::monoid::lemma_fold_concat;
use crate::monoid::within;
use crate::monoid::Monoid;
use crate::monoid::Ordered;
use crate::range::in_range;
use crate::tree::Tree;

verus! {

/// The fewest values that a tree of height `h` can hold when at every node
/// the subtrees' heights differ by at most one.
pub open spec fn fewest(h: nat) -> nat
    decreases h,
{
    if h == 0 {
        0
    } else if h == 1 {
        1
    } else {
        1 + fewest((h - 1) as nat) + fewest((h - 2) as nat)
    }
}

/// A higher tree needs no fewer values.
pub proof fn lemma_fewest_grows(a: nat, b: nat)
    requires
        a <= b,
    ensures
        fewest(a) <= fewest(b),
    decreases b,
{
    if a < b {
        lemma_fewest_grows(a, (b - 1) as nat);
    }
}

impl<T: Monoid + Ordered + Copy> Tree<T> {
    /// `sub` is the tree itself or a subtree of one of its nodes.
    pub open spec fn has_subtree(self, sub: Tree<T>) -> bool
        decreases self,
    {
        sub == self || match self {
            Tree::Empty => false,
            Tree::Node(n) => n.left.has_subtree(sub) || n.right.has_subtree(sub),
        }
    }

    /// Two well-formed trees with the same set of values hold them in the
    /// same order.
    pub proof fn lemma_view_unique(self, other: Tree<T>)
        requires
            self.wf(),
            other.wf(),
            self.keys() == other.keys(),
        ensures
            self@ == other@,
    {
        self.lemma_sorted();
        other.lemma_sorted();
        self.lemma_view_keys();
        other.lemma_view_keys();
        lemma_increasing_unique(self@, other@);
    }

    /// Of two positions in a well-formed tree, the earlier holds the
    /// smaller value.
    pub proof fn lemma_index_increasing(self, i: int, j: int)
        requires
            self.wf(),
            0 <= i < j < self@.len(),
        ensures
            self@[i].rank() < self@[j].rank(),
    {
        self.lemma_sorted();
    }

    /// At every node of a well-formed tree the two subtrees' heights
    /// differ by at most one, and every subtree is well formed.
    pub proof fn lemma_balanced_everywhere(self, sub: Tree<T>)
        requires
            self.wf(),
            self.has_subtree(sub),
        ensures
            sub.wf(),
            sub matches Tree::Node(n) ==> {
                &&& n.left.depth() <= n.right.depth() + 1
                &&& n.right.depth() <= n.left.depth() + 1
                &&& n.height == sub.depth()
            },
        decreases self,
    {
        if sub != self {
            match self {
                Tree::Empty => {},
                Tree::Node(n) => {
                    if n.left.has_subtree(sub) {
                        n.left.lemma_balanced_everywhere(sub);
                    } else {
                        n.right.lemma_balanced_everywhere(sub);
                    }
                },
            }
        } else {
            assert(sub.leans_at_most(1) && sub.root_cached());
        }
    }

    /// A well-formed tree of height `h` holds at least `fewest(h)` values,
    /// which grows like the Fibonacci numbers: the height is logarithmic in
    /// the size.
    pub proof fn lemma_height_bound(self)
        requires
            self.wf(),
        ensures
            fewest(self.depth()) <= self@.len(),
        decreases self,
    {
        match self {
            Tree::Empty => {},
            Tree::Node(n) => {
                self.lemma_open();
                n.left.lemma_height_bound();
                n.right.lemma_height_bound();
                let h = self.depth();
                if n.left.depth() >= n.right.depth() {
                    if h >= 2 {
                        lemma_fewest_grows((h - 2) as nat, n.right.depth());
                    }
                } else {
                    lemma_fewest_grows((h - 2) as nat, n.left.depth());
                }
            },
        }
    }

    /// The cached size of a well-formed tree is the number of distinct
    /// values it holds, and at a node it is one more than the sizes of the
    /// two subtrees.
    pub proof fn lemma_size(self)
        requires
            self.wf(),
        ensures
            self.cached_size() == self@.len(),
            self@.len() == self.keys().len(),
            self@.no_duplicates(),
            self matches Tree::Node(n) ==> self.cached_size() == 1 + n.left.cached_size()
                + n.right.cached_size(),
    {
        self.lemma_sorted();
        self.lemma_view_keys();
        let s = self@;
        assert forall|i: int, j: int| 0 <= i < s.len() && 0 <= j < s.len() && i != j implies s[i]
            != s[j] by {
            if i < j {
                assert(s[i].rank() < s[j].rank());
            } else {
                assert(s[j].rank() < s[i].rank());
            }
        }
        s.unique_seq_to_set();
        match self {
            Tree::Empty => {},
            Tree::Node(n) => {
                assert(self.root_cached() && n.left.wf() && n.right.wf());
                assert(s == n.left@ + seq![n.val] + n.right@);
                match *n.left {
                    Tree::Empty => {},
                    Tree::Node(_) => {
                        assert(n.left.root_cached());
                    },
                }
                match *n.right {
                    Tree::Empty => {},
                    Tree::Node(_) => {
                        assert(n.right.root_cached());
                    },
                }
            },
        }
    }

    /// In every subtree of a well-formed tree the cached aggregate is the
    /// combination of the subtree's values, each node before its subtrees;
    /// at a node it is the node's value combined with the aggregates of the
    /// left and of the right subtree.
    pub proof fn lemma_aggregate(self, sub: Tree<T>)
        requires
            self.wf(),
            self.has_subtree(sub),
        ensures
            sub.cached_sum() == fold(sub.pre_order_seq()),
            sub matches Tree::Node(n) ==> sub.cached_sum() == n.val.mappend_spec(
                n.left.cached_sum().mappend_spec(n.right.cached_sum()),
            ),
    {
        self.lemma_balanced_everywhere(sub);
        match sub {
            Tree::Empty => {},
            Tree::Node(n) => {
                assert(sub.root_cached());
                sub.lemma_depth_le_len();
                sub.lemma_cached_from_children();
            },
        }
    }

    /// For a commutative operation, the aggregate is the combination of
    /// the values in order.
    pub proof fn lemma_aggregate_in_order(self)
        requires
            commutative::<T>(),
        ensures
            self.aggregate() == fold(self@),
    {
        self.lemma_pre_order_fold_in_order(|v: T| true);
        assert(self.pre_order_seq().filter(|v: T| true) =~= self.pre_order_seq()) by {
            lemma_filter_true(self.pre_order_seq());
        }
        assert(self@.filter(|v: T| true) =~= self@) by {
            lemma_filter_true(self@);
        }
    }

    /// For a commutative operation, the combination of the values that
    /// meet `pred` is the same whether a node is taken before its subtrees or
    /// between them.
    pub proof fn lemma_pre_order_fold_in_order(self, pred: spec_fn(T) -> bool)
        requires
            commutative::<T>(),
        ensures
            fold(self.pre_order_seq().filter(pred)) == fold(self@.filter(pred)),
        decreases self,
    {
        match self {
            Tree::Empty => {},
            Tree::Node(n) => {
                n.left.lemma_pre_order_fold_in_order(pred);
                n.right.lemma_pre_order_fold_in_order(pred);
                let one = seq![n.val].filter(pred);
                let pl = n.left.pre_order_seq().filter(pred);
                let pr = n.right.pre_order_seq().filter(pred);
                let il = n.left@.filter(pred);
                let ir = n.right@.filter(pred);
                assert(self.pre_order_seq() == seq![n.val] + n.left.pre_order_seq()
                    + n.right.pre_order_seq());
                assert(self@ == n.left@ + seq![n.val] + n.right@);
                Seq::filter_distributes_over_add(
                    seq![n.val] + n.left.pre_order_seq(),
                    n.right.pre_order_seq(),
                    pred,
                );
                Seq::filter_distributes_over_add(seq![n.val], n.left.pre_order_seq(), pred);
                Seq::filter_distributes_over_add(n.left@ + seq![n.val], n.right@, pred);
                Seq::filter_distributes_over_add(n.left@, seq![n.val], pred);
                lemma_fold_concat(one + pl, pr);
                lemma_fold_concat(one, pl);
                lemma_fold_concat(il + one, ir);
                lemma_fold_concat(il, one);
                assert(fold(one).mappend_spec(fold(pl)) == fold(pl).mappend_spec(fold(one)));
            },
        }
    }

    /// Dividing a well-formed tree and joining the two parts again gives a
    /// tree with the same values, in the same order. The parts meet what
    /// joining asks of them.
    pub proof fn lemma_divide_merge(self, k: T, low: Tree<T>, high: Tree<T>, joined: Tree<T>)
        requires
            self.wf(),
            self.divided(k, low, high),
            Self::merged(low, high, joined),
        ensures
            Self::all_before(low, high),
            low@.len() + high@.len() == self@.len(),
            joined.keys() == self.keys(),
            joined@ == self@,
    {
        assert(joined.keys() =~= self.keys());
    }

    /// Inserting a value a second time changes nothing, so the set of
    /// values and the aggregate stay as they are.
    pub proof fn lemma_insert_twice(self, x: T, once: Tree<T>, twice: Tree<T>)
        requires
            self.inserted(x, once),
            once.inserted(x, twice),
        ensures
            twice == once,
            twice.keys() == once.keys(),
            twice.aggregate() == once.aggregate(),
            twice.cached_sum() == once.cached_sum(),
    {
    }

    /// For a commutative operation, the aggregate over a range is the
    /// combination, in order, of the values within it.
    pub proof fn lemma_range_in_order(self, lo: T, hi: T)
        requires
            commutative::<T>(),
        ensures
            self.range_aggregate(lo, hi) == fold(in_range(self@, lo, hi)),
    {
        self.lemma_pre_order_fold_in_order(|v: T| within(v, lo, hi));
    }

    /// A range that ends before the smallest value or begins after the
    /// largest, or that is empty, gives the identity.
    pub proof fn lemma_range_outside(self, lo: T, hi: T)
        requires
            self.wf(),
            self is Empty || hi.rank() < lo.rank() || hi.rank() < self@.first().rank()
                || self@.last().rank() < lo.rank(),
        ensures
            self.range_aggregate(lo, hi) == T::MEMPTY,
    {
        if self is Node {
            self.lemma_first_last();
        }
        self.lemma_range_none(lo, hi);
    }
}

/// Selecting by a condition that always holds selects everything.
pub proof fn lemma_filter_true<A>(s: Seq<A>)
    ensures
        s.filter(|v: A| true) == s,
    decreases s.len(),
{
    reveal(Seq::filter);
    if s.len() > 0 {
        lemma_filter_true(s.drop_last());
        assert(s.drop_last().push(s.last()) =~= s);
    }
}

} // verus!
