//! Insertion, deletion and the queries that descend from the root.

use vstd::prelude::*;
use replace_with::replace_with;
use crate::monoid::Monoid;
use crate::monoid::Ordered;
use crate::tree::Tree;

verus! {

impl<T: Monoid + Ordered + Copy> Tree<T> {
    /// The tree with `i` added. The search descends by comparison; a node
    /// that holds `i` already stays, and every node above the place of
    /// insertion is rebuilt.
    #[verifier::opaque]
    pub open spec fn insertion(self, i: T) -> Tree<T>
        decreases self,
    {
        match self {
            Tree::Empty => Self::spec_from_parts(i, Tree::Empty, Tree::Empty),
            Tree::Node(n) => {
                if i == n.val {
                    self.recomputed()
                } else if i.rank() < n.val.rank() {
                    Self::rebuilt(n.val, n.left.insertion(i), *n.right)
                } else {
                    Self::rebuilt(n.val, *n.left, n.right.insertion(i))
                }
            },
        }
    }

    /// The tree without `i`. A node that holds `i` and has at most one
    /// subtree gives way to that subtree; one with two subtrees takes the
    /// smallest value of the right one, which is deleted there. Every node
    /// above is rebuilt.
    #[verifier::opaque]
    pub open spec fn deletion(self, i: T) -> Tree<T>
        decreases self,
    {
        match self {
            Tree::Empty => Tree::Empty,
            Tree::Node(n) => {
                if n.val == i {
                    if *n.left is Empty {
                        *n.right
                    } else if *n.right is Empty {
                        *n.left
                    } else {
                        let next = n.right@.first();
                        Self::rebuilt(next, *n.left, n.right.deletion(next))
                    }
                } else if i.rank() < n.val.rank() {
                    Self::rebuilt(n.val, n.left.deletion(i), *n.right)
                } else {
                    Self::rebuilt(n.val, *n.left, n.right.deletion(i))
                }
            },
        }
    }

    /// What insertion of `i` promises of its result `r` for the tree `self`.
    pub open spec fn inserted(self, i: T, r: Tree<T>) -> bool {
        &&& r.wf()
        &&& r.keys() == self.keys().insert(i)
        &&& self.keys().contains(i) ==> r == self
        &&& !self.keys().contains(i) ==> r@.len() == self@.len() + 1
        &&& self.depth() <= r.depth() <= self.depth() + 1
    }

    /// Inserts `i` in place: see [`Tree::ins`].
    pub fn insert(&mut self, i: T)
        requires
            old(self).wf(),
            old(self)@.len() < usize::MAX,
        ensures
            *final(self) == old(self).insertion(i),
            old(self).inserted(i, *final(self)),
        decreases *old(self), 1nat,
    {
        let ghost before = *self;
        let put = |t: Tree<T>| -> (r: Tree<T>)
            requires
                t == before,
                t.wf(),
                t@.len() < usize::MAX,
            ensures
                r == t.insertion(i),
                t.inserted(i, r),
            {
                t.ins(i)
            };
        replace_with(self, || Tree::Empty, put);
    }

    /// The tree with `i` added. A tree that holds `i` already comes back as
    /// it was; otherwise every node on the way down is rebalanced and has its
    /// cached fields recomputed.
    #[verifier::rlimit(30)]
    pub fn ins(self, i: T) -> (r: Self)
        requires
            self.wf(),
            self@.len() < usize::MAX,
        ensures
            r == self.insertion(i),
            self.inserted(i, r),
        decreases self, 0nat,
    {
        proof {
            reveal(Tree::insertion);
        }
        match self {
            Tree::Empty => {
                let r = Tree::from_value(i);
                proof {
                    assert(r.keys() =~= self.keys().insert(i));
                }
                r
            },
            _ => {
                let (val, left, right) = self.destruct();
                proof {
                    self.lemma_open();
                    self.lemma_cached_is_computed();
                }
                if i.same(&val) {
                    let mut ans = Tree::from_parts(val, left, right);
                    ans.update();
                    proof {
                        assert(self.keys() =~= self.keys().insert(i));
                    }
                    return ans;
                }
                let mut t_left = left;
                let mut t_right = right;
                if i.less(&val) {
                    t_left.insert(i);
                    proof {
                        Self::lemma_inserted_below(val, i, left, t_left, right);
                    }
                } else {
                    proof {
                        if i.rank() == val.rank() {
                            T::lemma_rank_injective(i, val);
                        }
                    }
                    t_right.insert(i);
                    proof {
                        Self::lemma_inserted_above(val, i, left, right, t_right);
                    }
                }
                proof {
                    Self::lemma_node_wf(val, t_left, t_right, 2);
                }
                let mut ans = Tree::from_parts(val, t_left, t_right);
                ans.balance();
                proof {
                    ans.lemma_cached_is_computed();
                }
                ans.update();
                ans
            },
        }
    }

    /// Inserting below a node's value, in its left subtree, keeps the
    /// order, and adds the inserted value to the values.
    pub proof fn lemma_inserted_below(val: T, i: T, left: Tree<T>, more: Tree<T>, right: Tree<T>)
        requires
            Self::joinable(val, left, right),
            left@.len() + right@.len() + 1 < usize::MAX,
            left.inserted(i, more),
            i.rank() < val.rank(),
        ensures
            Self::joinable(val, more, right),
            more.keys().union(right.keys()).insert(val) == left.keys().union(right.keys()).insert(
                val,
            ).insert(i),
            !right.keys().contains(i),
    {
        assert(more.keys().union(right.keys()).insert(val) =~= left.keys().union(
            right.keys(),
        ).insert(val).insert(i));
    }

    /// Inserting above a node's value, in its right subtree, keeps the
    /// order, and adds the inserted value to the values.
    pub proof fn lemma_inserted_above(val: T, i: T, left: Tree<T>, right: Tree<T>, more: Tree<T>)
        requires
            Self::joinable(val, left, right),
            left@.len() + right@.len() + 1 < usize::MAX,
            right.inserted(i, more),
            val.rank() < i.rank(),
        ensures
            Self::joinable(val, left, more),
            left.keys().union(more.keys()).insert(val) == left.keys().union(right.keys()).insert(
                val,
            ).insert(i),
            !left.keys().contains(i),
    {
        assert(left.keys().union(more.keys()).insert(val) =~= left.keys().union(
            right.keys(),
        ).insert(val).insert(i));
    }

    /// The value at position `i` of the values in order, counted from 0.
    pub fn index(&self, i: usize) -> (v: T)
        requires
            self.wf(),
            i < self@.len(),
        ensures
            v == self@[i as int],
        decreases self,
    {
        match self {
            Tree::Empty => vstd::pervasive::unreached(),
            Tree::Node(n) => {
                let left_size = n.left.size();
                if i == left_size {
                    return n.val;
                }
                if i < left_size {
                    n.left.index(i)
                } else {
                    n.right.index(i - left_size - 1)
                }
            },
        }
    }

    /// The leftmost value, which in a well-formed tree is the smallest.
    pub fn min(&self) -> (v: T)
        requires
            *self is Node,
        ensures
            v == self@.first(),
            self.keys().contains(v),
            self.wf() ==> forall|x: T| #[trigger] self.keys().contains(x) ==> v.rank() <= x.rank(),
        decreases self,
    {
        proof {
            self.lemma_first_last();
        }
        match self {
            Tree::Empty => vstd::pervasive::unreached(),
            Tree::Node(n) => {
                if n.left.is_empty() {
                    return n.val;
                }
                n.left.min()
            },
        }
    }

    /// The rightmost value, which in a well-formed tree is the largest.
    pub fn max(&self) -> (v: T)
        requires
            *self is Node,
        ensures
            v == self@.last(),
            self.keys().contains(v),
            self.wf() ==> forall|x: T| #[trigger] self.keys().contains(x) ==> x.rank() <= v.rank(),
        decreases self,
    {
        proof {
            self.lemma_first_last();
        }
        match self {
            Tree::Empty => vstd::pervasive::unreached(),
            Tree::Node(n) => {
                if n.right.is_empty() {
                    return n.val;
                }
                n.right.max()
            },
        }
    }

    /// Whether the tree holds `i`.
    pub fn find(&self, i: T) -> (b: bool)
        requires
            self.wf(),
        ensures
            b == self.keys().contains(i),
        decreases self,
    {
        match self {
            Tree::Empty => false,
            Tree::Node(n) => {
                proof {
                    assert(self.root_ordered());
                }
                if i.same(&n.val) {
                    return true;
                }
                if n.val.less(&i) {
                    proof {
                        assert(!n.left.keys().contains(i));
                    }
                    n.right.find(i)
                } else {
                    proof {
                        if i.rank() == n.val.rank() {
                            T::lemma_rank_injective(i, n.val);
                        }
                        assert(!n.right.keys().contains(i));
                    }
                    n.left.find(i)
                }
            },
        }
    }

    /// What deletion of `i` promises of its result `r` for the tree `self`.
    pub open spec fn deleted(self, i: T, r: Tree<T>) -> bool {
        &&& r.wf()
        &&& r.keys() == self.keys().remove(i)
        &&& !self.keys().contains(i) ==> r == self
        &&& self.keys().contains(i) ==> r@.len() + 1 == self@.len()
        &&& r.depth() <= self.depth() <= r.depth() + 1
    }

    /// Deletes `i` in place: see [`Tree::del`].
    pub fn delete(&mut self, i: T)
        requires
            old(self).wf(),
        ensures
            *final(self) == old(self).deletion(i),
            old(self).deleted(i, *final(self)),
        decreases *old(self), 1nat,
    {
        let ghost before = *self;
        let cut = |t: Tree<T>| -> (r: Tree<T>)
            requires
                t == before,
                t.wf(),
            ensures
                r == t.deletion(i),
                t.deleted(i, r),
            {
                t.del(i)
            };
        replace_with(self, || Tree::Empty, cut);
    }

    /// The tree without `i`. A tree that does not hold `i` comes back as it
    /// was. A node with at most one subtree gives way to that subtree; one
    /// with two takes the smallest value of its right subtree, which is
    /// deleted there. Every node on the way down is rebalanced and has its
    /// cached fields recomputed.
    #[verifier::rlimit(30)]
    pub fn del(self, i: T) -> (r: Self)
        requires
            self.wf(),
        ensures
            r == self.deletion(i),
            self.deleted(i, r),
        decreases self, 0nat,
    {
        proof {
            reveal(Tree::deletion);
        }
        if self.is_empty() {
            proof {
                assert(self.keys() =~= self.keys().remove(i));
            }
            return self;
        }
        let (val, mut left, mut right) = self.destruct();
        let ghost old_left = left;
        let ghost old_right = right;
        let mut vert = val;
        proof {
            self.lemma_open();
        }
        if val.same(&i) {
            if left.is_empty() {
                proof {
                    assert(left.keys() =~= Set::empty());
                    assert(right.keys() =~= self.keys().remove(i));
                }
                return right;
            }
            if right.is_empty() {
                proof {
                    assert(right.keys() =~= Set::empty());
                    assert(left.keys() =~= self.keys().remove(i));
                }
                return left;
            }
            vert = right.min();
            right.delete(vert);
            proof {
                Self::lemma_successor(val, left, old_right, right);
            }
        } else if i.less(&val) {
            left.delete(i);
            proof {
                Self::lemma_deleted_below(val, i, old_left, left, right);
            }
        } else {
            proof {
                if i.rank() == val.rank() {
                    T::lemma_rank_injective(i, val);
                }
            }
            right.delete(i);
            proof {
                Self::lemma_deleted_above(val, i, left, old_right, right);
            }
        }
        proof {
            Self::lemma_node_wf(vert, left, right, 2);
        }
        let mut ans = Tree::from_parts(vert, left, right);
        ans.balance();
        proof {
            ans.lemma_cached_is_computed();
        }
        ans.update();
        proof {
            if !self.keys().contains(i) {
                self.lemma_cached_is_computed();
            }
        }
        ans
    }

    /// Deleting the smallest value of `right` and putting it in the place
    /// of `val` keeps the order, and the values but for `val`.
    pub proof fn lemma_successor(val: T, left: Tree<T>, right: Tree<T>, rest: Tree<T>)
        requires
            Self::joinable(val, left, right),
            right is Node,
            right.deleted(right@.first(), rest),
        ensures
            Self::joinable(right@.first(), left, rest),
            left.keys().union(rest.keys()).insert(right@.first()) == left.keys().union(
                right.keys(),
            ).insert(val).remove(val),
            left@.len() + rest@.len() + 1 == left@.len() + right@.len(),
    {
        let vert = right@.first();
        right.lemma_first_last();
        assert forall|x: T| #[trigger] rest.keys().contains(x) implies vert.rank() < x.rank() by {
            assert(right.keys().contains(x));
            if x.rank() == vert.rank() {
                T::lemma_rank_injective(x, vert);
            }
        }
        assert(left.keys().union(rest.keys()).insert(vert) =~= left.keys().union(
            right.keys(),
        ).insert(val).remove(val));
    }

    /// Deleting below a node's value, in its left subtree, keeps the order,
    /// and the values but for the deleted one.
    pub proof fn lemma_deleted_below(val: T, i: T, left: Tree<T>, rest: Tree<T>, right: Tree<T>)
        requires
            Self::joinable(val, left, right),
            left.deleted(i, rest),
            i.rank() < val.rank(),
        ensures
            Self::joinable(val, rest, right),
            rest.keys().union(right.keys()).insert(val) == left.keys().union(right.keys()).insert(
                val,
            ).remove(i),
    {
        assert(rest.keys().union(right.keys()).insert(val) =~= left.keys().union(
            right.keys(),
        ).insert(val).remove(i));
    }

    /// Deleting above a node's value, in its right subtree, keeps the
    /// order, and the values but for the deleted one.
    pub proof fn lemma_deleted_above(val: T, i: T, left: Tree<T>, right: Tree<T>, rest: Tree<T>)
        requires
            Self::joinable(val, left, right),
            right.deleted(i, rest),
            val.rank() < i.rank(),
        ensures
            Self::joinable(val, left, rest),
            left.keys().union(rest.keys()).insert(val) == left.keys().union(right.keys()).insert(
                val,
            ).remove(i),
    {
        assert(left.keys().union(rest.keys()).insert(val) =~= left.keys().union(
            right.keys(),
        ).insert(val).remove(i));
    }

    /// The node whose value is the smallest of `right`, over `left` and
    /// what is left of `right` without that value. Its cached fields are
    /// computed; it is not rebalanced.
    pub fn from_pair(left: Tree<T>, right: Tree<T>) -> (t: Self)
        requires
            right is Node,
            right.wf(),
            left.cached_height() < usize::MAX,
            left.cached_size() + right@.len() <= usize::MAX,
        ensures
            t matches Tree::Node(n) && {
                &&& n.val == right@.first()
                &&& *n.left == left
                &&& *n.right == right.deletion(n.val)
                &&& right.deleted(n.val, *n.right)
                &&& t == Self::spec_from_parts(n.val, left, *n.right)
            },
    {
        let mut right = right;
        let vert = right.min();
        right.delete(vert);
        proof {
            right.lemma_depth_le_len();
        }
        Tree::from_parts(vert, left, right)
    }
}

} // verus!
