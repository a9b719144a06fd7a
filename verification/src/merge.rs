//! Joining two trees into one and dividing one tree in two, each in time
//! proportional to the heights involved.

use vstd::prelude::*;
use crate::model::lemma_increasing_unique;
use crate::model::strictly_increasing;
use crate::monoid::Monoid;
use crate::monoid::Ordered;
use crate::tree::Tree;

verus! {

impl<T: Monoid + Ordered + Copy> Tree<T> {
    /// Every value of `left` comes strictly before every value of `right`.
    pub open spec fn all_before(left: Tree<T>, right: Tree<T>) -> bool {
        forall|x: T, y: T| #[trigger]
            left.keys().contains(x) && #[trigger] right.keys().contains(y) ==> x.rank() < y.rank()
    }

    /// The join of `left`, `vert` and `right`. Where the cached heights
    /// differ by at most one it is the node of `vert` over the two; else it
    /// descends along the inner edge of the higher tree and rebuilds each
    /// node on the way back.
    #[verifier::opaque]
    pub open spec fn joined_with_root(vert: T, left: Tree<T>, right: Tree<T>) -> Tree<T>
        decreases left, right,
    {
        if left.cached_height() <= right.cached_height() + 1 && right.cached_height()
            <= left.cached_height() + 1 {
            Self::spec_from_parts(vert, left, right)
        } else if left.cached_height() > right.cached_height() {
            match left {
                Tree::Empty => Tree::Empty,
                Tree::Node(n) => Self::rebuilt(
                    n.val,
                    *n.left,
                    Self::joined_with_root(vert, *n.right, right),
                ),
            }
        } else {
            match right {
                Tree::Empty => Tree::Empty,
                Tree::Node(n) => Self::rebuilt(
                    n.val,
                    Self::joined_with_root(vert, left, *n.left),
                    *n.right,
                ),
            }
        }
    }

    /// The join of `left` and `right`: around the largest value of `left`,
    /// taken out of it; around the smallest of `right` where `left` is empty.
    pub open spec fn joined(left: Tree<T>, right: Tree<T>) -> Tree<T> {
        if left is Empty && right is Empty {
            Tree::Empty
        } else if left is Node {
            Self::joined_with_root(left@.last(), left.deletion(left@.last()), right)
        } else {
            Self::joined_with_root(right@.first(), left, right.deletion(right@.first()))
        }
    }

    /// The two parts of the tree at `k`. The subtree on the side of `k` is
    /// divided; the root's value and the other subtree are joined to the part
    /// next to them.
    #[verifier::opaque]
    pub open spec fn division(self, k: T) -> (Tree<T>, Tree<T>)
        decreases self,
    {
        match self {
            Tree::Empty => (Tree::Empty, Tree::Empty),
            Tree::Node(n) => {
                let root = Self::spec_from_parts(n.val, Tree::Empty, Tree::Empty);
                if k.rank() < n.val.rank() {
                    let below = n.left.division(k);
                    (below.0, Self::joined(below.1, Self::joined(root, *n.right)).rotation())
                } else {
                    let above = n.right.division(k);
                    (Self::joined(Self::joined(*n.left, root), above.0).rotation(), above.1)
                }
            },
        }
    }

    /// What joining promises of its result `r` for `left` and `right`.
    pub open spec fn merged(left: Tree<T>, right: Tree<T>, r: Tree<T>) -> bool {
        &&& r.wf()
        &&& r@ == left@ + right@
        &&& r.keys() == left.keys().union(right.keys())
    }

    /// What division at `k` promises of its results for the tree `self`.
    pub open spec fn divided(self, k: T, low: Tree<T>, high: Tree<T>) -> bool {
        &&& low.wf()
        &&& high.wf()
        &&& low.keys() == self.keys().filter(|x: T| x.rank() <= k.rank())
        &&& high.keys() == self.keys().filter(|x: T| x.rank() > k.rank())
        &&& low@ + high@ == self@
    }

    /// The values of two well-formed trees, the first's all before the
    /// second's, are in order when put one after the other.
    pub proof fn lemma_concat_sorted(left: Tree<T>, right: Tree<T>)
        requires
            left.wf(),
            right.wf(),
            Self::all_before(left, right),
        ensures
            strictly_increasing(left@ + right@),
            (left@ + right@).to_set() == left.keys().union(right.keys()),
    {
        left.lemma_sorted();
        right.lemma_sorted();
        left.lemma_view_keys();
        right.lemma_view_keys();
        let l = left@;
        let r = right@;
        let s = l + r;
        assert forall|i: int, j: int| 0 <= i < j < s.len() implies (#[trigger] s[i]).rank() < (
        #[trigger] s[j]).rank() by {
            if i < l.len() {
                assert(s[i] == l[i]);
                assert(left.keys().contains(l[i]));
            } else {
                assert(s[i] == r[i - l.len()]);
            }
            if j < l.len() {
                assert(s[j] == l[j]);
            } else {
                assert(s[j] == r[j - l.len()]);
                assert(right.keys().contains(r[j - l.len()]));
            }
        }
        assert forall|x: T| s.to_set().contains(x) <==> left.keys().union(right.keys()).contains(
            x,
        ) by {
            if s.contains(x) {
                let i = choose|i: int| 0 <= i < s.len() && s[i] == x;
                if i < l.len() {
                    assert(l[i] == x);
                } else {
                    assert(r[i - l.len()] == x);
                }
            }
            if left.keys().contains(x) {
                let i = choose|i: int| 0 <= i < l.len() && l[i] == x;
                assert(s[i] == x);
            }
            if right.keys().contains(x) {
                let i = choose|i: int| 0 <= i < r.len() && r[i] == x;
                assert(s[l.len() + i] == x);
            }
        }
        assert(s.to_set() =~= left.keys().union(right.keys()));
    }

    /// One well-formed tree of the values of `left`, `vert` and `right`,
    /// where `vert` lies between the two trees. It descends along the
    /// higher tree only, down to where the heights meet.
    pub fn avl_merge_with_root(vert: T, left: Tree<T>, right: Tree<T>) -> (r: Self)
        requires
            Self::joinable(vert, left, right),
        ensures
            r == Self::joined_with_root(vert, left, right),
            Self::lifted(
                vert,
                left,
                right,
                if left.depth() >= right.depth() {
                    left.depth()
                } else {
                    right.depth()
                },
                r,
            ),
        decreases left, right,
    {
        proof {
            reveal(Tree::joined_with_root);
            left.lemma_depth_le_len();
            right.lemma_depth_le_len();
        }
        let lh = left.height();
        let rh = right.height();
        if lh <= rh + 1 && rh <= lh + 1 {
            proof {
                Self::lemma_node_wf(vert, left, right, 1);
            }
            return Tree::from_parts(vert, left, right);
        }
        if lh > rh {
            let (var, left_t, right_t) = left.destruct();
            proof {
                Self::lemma_descend_left(vert, left, right);
            }
            let right_t = Tree::avl_merge_with_root(vert, right_t, right);
            proof {
                Self::lemma_ascend_left(vert, left, right, right_t);
            }
            let mut tree = Tree::from_parts(var, left_t, right_t);
            tree.balance();
            proof {
                tree.lemma_cached_is_computed();
            }
            tree.update();
            tree
        } else {
            let (var, left_t, right_t) = right.destruct();
            proof {
                Self::lemma_descend_right(vert, left, right);
            }
            let left_t = Tree::avl_merge_with_root(vert, left, left_t);
            proof {
                Self::lemma_ascend_right(vert, left, right, left_t);
            }
            let mut tree = Tree::from_parts(var, left_t, right_t);
            tree.balance();
            proof {
                tree.lemma_cached_is_computed();
            }
            tree.update();
            tree
        }
    }

    /// Where `left` is more than one higher than `right`, its right subtree
    /// can be joined with `right` around `vert`, and is no lower than `right`.
    pub proof fn lemma_descend_left(vert: T, left: Tree<T>, right: Tree<T>)
        requires
            Self::joinable(vert, left, right),
            left.depth() > right.depth() + 1,
        ensures
            left is Node,
            Self::joinable(vert, *left->Node_0.right, right),
            left->Node_0.right.depth() >= right.depth(),
    {
        let n = left->Node_0;
        assert(left.root_ordered() && left.leans_at_most(1) && left.root_cached());
        assert(left@ == n.left@ + seq![n.val] + n.right@);
        assert forall|x: T| #[trigger] n.right.keys().contains(x) implies x.rank()
            < vert.rank() by {
            assert(left.keys().contains(x));
        }
    }

    /// Where `left` is more than one higher than `right` and `sub` joins
    /// its right subtree with `right` around `vert`: the node of `left`'s
    /// value over `left`'s left subtree and `sub` leans by at most two, and
    /// once rebalanced it joins `left` and `right` around `vert`.
    pub proof fn lemma_ascend_left(vert: T, left: Tree<T>, right: Tree<T>, sub: Tree<T>)
        requires
            Self::joinable(vert, left, right),
            left.depth() > right.depth() + 1,
            left matches Tree::Node(n) && Self::lifted(vert, *n.right, right, n.right.depth(), sub),
        ensures
            ({
                let n = left->Node_0;
                let node = Self::spec_from_parts(n.val, *n.left, sub);
                &&& Self::parts_fit(*n.left, sub)
                &&& node.wf_but_root(2)
                &&& node@.len() <= usize::MAX
                &&& forall|t: Tree<T>| #[trigger]
                    node.rotated(t) ==> Self::lifted(vert, left, right, left.depth(), t)
            }),
    {
        let n = left->Node_0;
        assert(left.root_ordered() && left.leans_at_most(1) && left.root_cached());
        assert(left@ == n.left@ + seq![n.val] + n.right@);
        assert(left.keys() == n.left.keys().union(n.right.keys()).insert(n.val));
        assert(left.keys().contains(n.val));
        assert forall|x: T| #[trigger] sub.keys().contains(x) implies n.val.rank() < x.rank() by {
            if n.right.keys().contains(x) {
            } else if right.keys().contains(x) {
            }
        }
        Self::lemma_node_wf(n.val, *n.left, sub, 2);
        let node = Self::spec_from_parts(n.val, *n.left, sub);
        assert(node@ =~= left@ + seq![vert] + right@);
        assert(node.keys() =~= left.keys().union(right.keys()).insert(vert));
    }

    /// Where `right` is more than one higher than `left`, its left subtree
    /// can be joined with `left` around `vert`, and is no lower than `left`.
    pub proof fn lemma_descend_right(vert: T, left: Tree<T>, right: Tree<T>)
        requires
            Self::joinable(vert, left, right),
            right.depth() > left.depth() + 1,
        ensures
            right is Node,
            Self::joinable(vert, left, *right->Node_0.left),
            right->Node_0.left.depth() >= left.depth(),
    {
        let n = right->Node_0;
        assert(right.root_ordered() && right.leans_at_most(1) && right.root_cached());
        assert(right@ == n.left@ + seq![n.val] + n.right@);
        assert forall|x: T| #[trigger] n.left.keys().contains(x) implies vert.rank()
            < x.rank() by {
            assert(right.keys().contains(x));
        }
    }

    /// The mirror image of [`Tree::lemma_ascend_left`].
    pub proof fn lemma_ascend_right(vert: T, left: Tree<T>, right: Tree<T>, sub: Tree<T>)
        requires
            Self::joinable(vert, left, right),
            right.depth() > left.depth() + 1,
            right matches Tree::Node(n) && Self::lifted(vert, left, *n.left, n.left.depth(), sub),
        ensures
            ({
                let n = right->Node_0;
                let node = Self::spec_from_parts(n.val, sub, *n.right);
                &&& Self::parts_fit(sub, *n.right)
                &&& node.wf_but_root(2)
                &&& node@.len() <= usize::MAX
                &&& forall|t: Tree<T>| #[trigger]
                    node.rotated(t) ==> Self::lifted(vert, left, right, right.depth(), t)
            }),
    {
        let n = right->Node_0;
        assert(right.root_ordered() && right.leans_at_most(1) && right.root_cached());
        assert(right@ == n.left@ + seq![n.val] + n.right@);
        assert(right.keys() == n.left.keys().union(n.right.keys()).insert(n.val));
        assert(right.keys().contains(n.val));
        assert forall|x: T| #[trigger] sub.keys().contains(x) implies x.rank() < n.val.rank() by {
            if n.left.keys().contains(x) {
            } else if left.keys().contains(x) {
            }
        }
        Self::lemma_node_wf(n.val, sub, *n.right, 2);
        let node = Self::spec_from_parts(n.val, sub, *n.right);
        assert(node@ =~= left@ + seq![vert] + right@);
        assert(node.keys() =~= left.keys().union(right.keys()).insert(vert));
    }

    /// One well-formed tree of the values of `left` and `right`, where
    /// every value of `left` comes before every value of `right`.
    pub fn avl_merge(left: Tree<T>, right: Tree<T>) -> (r: Self)
        requires
            left.wf(),
            right.wf(),
            Self::all_before(left, right),
            left@.len() + right@.len() <= usize::MAX,
        ensures
            r == Self::joined(left, right),
            Self::merged(left, right, r),
    {
        proof {
            Self::lemma_concat_sorted(left, right);
        }
        if left.is_empty() && right.is_empty() {
            proof {
                assert(left@ + right@ =~= Seq::<T>::empty());
                assert(left.keys().union(right.keys()) =~= Set::<T>::empty());
            }
            return Tree::Empty;
        }
        if !left.is_empty() {
            let mut lft = left;
            let vert = lft.max();
            lft.delete(vert);
            proof {
                assert forall|x: T| #[trigger] lft.keys().contains(x) implies x.rank()
                    < vert.rank() by {
                    assert(left.keys().contains(x));
                    if x.rank() == vert.rank() {
                        T::lemma_rank_injective(x, vert);
                    }
                }
            }
            let r = Tree::avl_merge_with_root(vert, lft, right);
            proof {
                assert(r.keys() =~= left.keys().union(right.keys()));
                r.lemma_sorted();
                r.lemma_view_keys();
                lemma_increasing_unique(r@, left@ + right@);
            }
            return r;
        }
        let mut righ = right;
        let vert = righ.min();
        righ.delete(vert);
        proof {
            assert forall|x: T| #[trigger] righ.keys().contains(x) implies vert.rank()
                < x.rank() by {
                assert(right.keys().contains(x));
                if x.rank() == vert.rank() {
                    T::lemma_rank_injective(x, vert);
                }
            }
            assert(left.keys() =~= Set::empty());
        }
        let r = Tree::avl_merge_with_root(vert, left, righ);
        proof {
            assert(r.keys() =~= left.keys().union(right.keys()));
            r.lemma_sorted();
            r.lemma_view_keys();
            lemma_increasing_unique(r@, left@ + right@);
        }
        r
    }

    /// The tree in two: the values up to and including `k`, and those
    /// after `k`. Both are well formed, and put one after the other they hold
    /// the values of `self` in order.
    pub fn divide(self, k: T) -> (parts: (Self, Self))
        requires
            self.wf(),
        ensures
            parts == self.division(k),
            self.divided(k, parts.0, parts.1),
        decreases self,
    {
        proof {
            reveal(Tree::division);
        }
        if self.is_empty() {
            proof {
                let e = Tree::<T>::Empty;
                assert(e@ + e@ =~= self@);
                assert(e.keys() =~= self.keys().filter(|x: T| x.rank() <= k.rank()));
                assert(e.keys() =~= self.keys().filter(|x: T| x.rank() > k.rank()));
            }
            return (Tree::Empty, Tree::Empty);
        }
        let (vert, left, right) = self.destruct();
        proof {
            self.lemma_open();
        }
        if k.less(&vert) {
            let right_t = Tree::avl_merge(Tree::from_value(vert), right);
            let (left_t, right_d) = left.divide(k);
            proof {
                self.lemma_divide_below(k, left_t, right_d, right_t);
            }
            let mut right_t = Tree::avl_merge(right_d, right_t);
            right_t.balance();
            (left_t, right_t)
        } else {
            let left_t = Tree::avl_merge(left, Tree::from_value(vert));
            let (left_d, right_t) = right.divide(k);
            proof {
                self.lemma_divide_above(k, left_t, left_d, right_t);
            }
            let mut left_t = Tree::avl_merge(left_t, left_d);
            left_t.balance();
            (left_t, right_t)
        }
    }

    /// Division at a `k` below the root's value: the left subtree is
    /// divided, and its high part, joined with the root's value and the right
    /// subtree, is the high part of the whole.
    pub proof fn lemma_divide_below(self, k: T, low: Tree<T>, mid: Tree<T>, high: Tree<T>)
        requires
            self.wf(),
            self matches Tree::Node(n) && {
                &&& k.rank() < n.val.rank()
                &&& n.left.divided(k, low, mid)
                &&& high.wf()
                &&& high@ == seq![n.val] + n.right@
                &&& high.keys() == set![n.val].union(n.right.keys())
            },
        ensures
            mid.wf(),
            Self::all_before(mid, high),
            mid@.len() + high@.len() <= usize::MAX,
            forall|m: Tree<T>, r: Tree<T>|
                Self::merged(mid, high, m) && #[trigger] m.rotated(r) ==> self.divided(k, low, r),
    {
        let n = self->Node_0;
        self.lemma_open();
        assert(self.root_cached());
        assert(low@.len() + mid@.len() == n.left@.len()) by {
            assert((low@ + mid@).len() == n.left@.len());
        }
        assert forall|x: T, y: T| #[trigger]
            mid.keys().contains(x) && #[trigger] high.keys().contains(y) implies x.rank()
            < y.rank() by {
            assert(n.left.keys().contains(x));
        }
        assert forall|m: Tree<T>, r: Tree<T>|
            Self::merged(mid, high, m) && #[trigger] m.rotated(r) implies self.divided(
            k,
            low,
            r,
        ) by {
            assert(low@ + r@ =~= self@) by {
                assert(r@ == mid@ + (seq![n.val] + n.right@));
                assert(n.left@ == low@ + mid@);
            }
            assert(low.keys() =~= self.keys().filter(|x: T| x.rank() <= k.rank()));
            assert(r.keys() =~= self.keys().filter(|x: T| x.rank() > k.rank()));
        }
    }

    /// Division at a `k` not below the root's value: the right subtree is
    /// divided, and its low part, joined after the left subtree and the
    /// root's value, is the low part of the whole.
    pub proof fn lemma_divide_above(self, k: T, low: Tree<T>, mid: Tree<T>, high: Tree<T>)
        requires
            self.wf(),
            self matches Tree::Node(n) && {
                &&& n.val.rank() <= k.rank()
                &&& n.right.divided(k, mid, high)
                &&& low.wf()
                &&& low@ == n.left@ + seq![n.val]
                &&& low.keys() == n.left.keys().union(set![n.val])
            },
        ensures
            mid.wf(),
            Self::all_before(low, mid),
            low@.len() + mid@.len() <= usize::MAX,
            forall|m: Tree<T>, r: Tree<T>|
                Self::merged(low, mid, m) && #[trigger] m.rotated(r) ==> self.divided(k, r, high),
    {
        let n = self->Node_0;
        self.lemma_open();
        assert(self.root_cached());
        assert(mid@.len() + high@.len() == n.right@.len()) by {
            assert((mid@ + high@).len() == n.right@.len());
        }
        assert forall|x: T, y: T| #[trigger]
            low.keys().contains(x) && #[trigger] mid.keys().contains(y) implies x.rank()
            < y.rank() by {
            assert(n.right.keys().contains(y));
        }
        assert forall|m: Tree<T>, r: Tree<T>|
            Self::merged(low, mid, m) && #[trigger] m.rotated(r) implies self.divided(
            k,
            r,
            high,
        ) by {
            assert(r@ + high@ =~= self@) by {
                assert(r@ == (n.left@ + seq![n.val]) + mid@);
                assert(n.right@ == mid@ + high@);
            }
            assert(r.keys() =~= self.keys().filter(|x: T| x.rank() <= k.rank()));
            assert(high.keys() =~= self.keys().filter(|x: T| x.rank() > k.rank()));
        }
    }
}

} // verus!
