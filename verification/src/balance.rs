//! Restoring the cached fields and the balance of a node after a change to
//! one of its subtrees.

use vstd::prelude::*;
use replace_with::replace_with;
use crate::monoid::Monoid;
use crate::monoid::Ordered;
use crate::tree::Tree;

verus! {

impl<T: Monoid + Ordered + Copy> Tree<T> {
    /// Recomputes, in place, the root's cached fields from what its subtrees
    /// have cached.
    pub fn update(&mut self)
        requires
            *old(self) matches Tree::Node(n) ==> Self::parts_fit(*n.left, *n.right),
        ensures
            *final(self) == old(self).recomputed(),
    {
        let recompute = |t: Tree<T>| -> (r: Tree<T>)
            requires
                t matches Tree::Node(n) ==> Self::parts_fit(*n.left, *n.right),
            ensures
                r == t.recomputed(),
            {
                t.upd()
            };
        replace_with(self, || Tree::Empty, recompute);
    }

    /// The rebalanced tree. Where the left subtree is more than one higher
    /// than the right, its root comes to the top, unless it leans to the
    /// right: then the root of its right subtree does. The mirror image where
    /// the right subtree is more than one higher. Heights are the cached
    /// ones.
    #[verifier::opaque]
    pub open spec fn rotation(self) -> Tree<T> {
        match self {
            Tree::Empty => Tree::Empty,
            Tree::Node(n) => {
                let left = *n.left;
                let right = *n.right;
                if left.cached_height() > right.cached_height() + 1 {
                    let d = left->Node_0;
                    if d.left.cached_height() >= d.right.cached_height() {
                        Self::spec_from_parts(
                            d.val,
                            *d.left,
                            Self::spec_from_parts(n.val, *d.right, right),
                        )
                    } else {
                        let dd = d.right->Node_0;
                        Self::spec_from_parts(
                            dd.val,
                            Self::spec_from_parts(d.val, *d.left, *dd.left),
                            Self::spec_from_parts(n.val, *dd.right, right),
                        )
                    }
                } else if right.cached_height() > left.cached_height() + 1 {
                    let d = right->Node_0;
                    if d.right.cached_height() >= d.left.cached_height() {
                        Self::spec_from_parts(
                            d.val,
                            Self::spec_from_parts(n.val, left, *d.left),
                            *d.right,
                        )
                    } else {
                        let dd = d.left->Node_0;
                        Self::spec_from_parts(
                            dd.val,
                            Self::spec_from_parts(n.val, left, *dd.left),
                            Self::spec_from_parts(d.val, *dd.right, *d.right),
                        )
                    }
                } else {
                    Self::spec_from_parts(n.val, left, right)
                }
            },
        }
    }

    /// The node of `val` over `left` and `right`, rebalanced, its cached
    /// fields computed: what every changed node on the way back up becomes.
    pub open spec fn rebuilt(val: T, left: Tree<T>, right: Tree<T>) -> Tree<T> {
        Self::spec_from_parts(val, left, right).rotation().recomputed()
    }

    /// What `rotate` promises of its result `r` for the tree `self`.
    pub open spec fn rotated(self, r: Tree<T>) -> bool {
        &&& r == self.rotation()
        &&& r.wf()
        &&& r@ == self@
        &&& r.keys() == self.keys()
        &&& self is Empty ==> r is Empty
        &&& self matches Tree::Node(n) ==> {
            let top = if n.left.depth() >= n.right.depth() {
                n.left.depth()
            } else {
                n.right.depth()
            };
            &&& top <= r.depth() <= top + 1
            &&& self.leans_at_most(1) ==> r == Self::spec_from_parts(n.val, *n.left, *n.right)
        }
    }

    /// The rebalancing step: where one subtree is more than one higher
    /// than the other, a single or double rotation; in any case the cached
    /// fields are recomputed. The values and their order stay as they are.
    /// Where the heights differ by at most two and the root's value lies
    /// between its subtrees, the result is well formed.
    pub fn rotate(self) -> (r: Self)
        requires
            self.children_wf(),
            self@.len() <= usize::MAX,
        ensures
            r == self.rotation(),
            r@ == self@,
            r.keys() == self.keys(),
            self.wf_but_root(2) ==> self.rotated(r),
    {
        proof {
            reveal(Tree::rotation);
        }
        if self.is_empty() {
            return Tree::Empty;
        }
        let (val, left, right) = self.destruct();
        proof {
            assert(self@ == left@ + seq![val] + right@);
            left.lemma_cached_true();
            right.lemma_cached_true();
        }
        if left.height() > right.height() && left.height() - right.height() > 1 {
            let (d_val, d_left, d_right) = left.destruct();
            proof {
                Self::lemma_grandchildren(left);
            }
            if d_left.height() >= d_right.height() {
                proof {
                    Self::lemma_single_right_shape(val, left, right);
                    if self.wf_but_root(2) {
                        assert(self.root_ordered());
                        Self::lemma_single_right(val, left, right);
                    }
                }
                let right_t = Tree::from_parts(val, d_right, right);
                Tree::from_parts(d_val, d_left, right_t)
            } else {
                let (dd_val, dd_left, dd_right) = d_right.destruct();
                proof {
                    Self::lemma_double_right_shape(val, left, right);
                    if self.wf_but_root(2) {
                        assert(self.root_ordered());
                        Self::lemma_double_right(val, left, right);
                    }
                }
                let left_t = Tree::from_parts(d_val, d_left, dd_left);
                let right_t = Tree::from_parts(val, dd_right, right);
                Tree::from_parts(dd_val, left_t, right_t)
            }
        } else if left.height() < right.height() && right.height() - left.height() > 1 {
            let (d_val, d_left, d_right) = right.destruct();
            proof {
                Self::lemma_grandchildren(right);
            }
            if d_right.height() >= d_left.height() {
                proof {
                    Self::lemma_single_left_shape(val, left, right);
                    if self.wf_but_root(2) {
                        assert(self.root_ordered());
                        Self::lemma_single_left(val, left, right);
                    }
                }
                let left_t = Tree::from_parts(val, left, d_left);
                Tree::from_parts(d_val, left_t, d_right)
            } else {
                let (dd_val, dd_left, dd_right) = d_left.destruct();
                proof {
                    Self::lemma_double_left_shape(val, left, right);
                    if self.wf_but_root(2) {
                        assert(self.root_ordered());
                        Self::lemma_double_left(val, left, right);
                    }
                }
                let left_t = Tree::from_parts(val, left, dd_left);
                let right_t = Tree::from_parts(d_val, dd_right, d_right);
                Tree::from_parts(dd_val, left_t, right_t)
            }
        } else {
            proof {
                if self.wf_but_root(2) {
                    assert(self.root_ordered());
                    Self::lemma_node_wf(val, left, right, 1);
                }
            }
            Tree::from_parts(val, left, right)
        }
    }

    /// The rotation to the right keeps the values in their order, and its
    /// cached fields fit the machine's integers.
    pub proof fn lemma_single_right_shape(val: T, left: Tree<T>, right: Tree<T>)
        requires
            left.wf(),
            right.wf(),
            left is Node,
            left@.len() + right@.len() < usize::MAX,
        ensures
            ({
                let d = left->Node_0;
                let right_t = Self::spec_from_parts(val, *d.right, right);
                let ans = Self::spec_from_parts(d.val, *d.left, right_t);
                &&& Self::parts_fit(*d.right, right)
                &&& Self::parts_fit(*d.left, right_t)
                &&& ans@ == left@ + seq![val] + right@
                &&& ans.keys() == left.keys().union(right.keys()).insert(val)
            }),
    {
        let d = left->Node_0;
        Self::lemma_grandchildren(left);
        right.lemma_cached_true();
        let right_t = Self::spec_from_parts(val, *d.right, right);
        let ans = Self::spec_from_parts(d.val, *d.left, right_t);
        assert(right_t@ == d.right@ + seq![val] + right@);
        assert(ans@ =~= left@ + seq![val] + right@);
        assert(right_t.keys() == d.right.keys().union(right.keys()).insert(val));
        assert(ans.keys() == d.left.keys().union(right_t.keys()).insert(d.val));
        assert(ans.keys() =~= left.keys().union(right.keys()).insert(val));
    }

    /// The double rotation to the right keeps the values in their order,
    /// and its cached fields fit the machine's integers.
    pub proof fn lemma_double_right_shape(val: T, left: Tree<T>, right: Tree<T>)
        requires
            left.wf(),
            right.wf(),
            left matches Tree::Node(d) && *d.right is Node,
            left@.len() + right@.len() < usize::MAX,
        ensures
            ({
                let d = left->Node_0;
                let dd = d.right->Node_0;
                let left_t = Self::spec_from_parts(d.val, *d.left, *dd.left);
                let right_t = Self::spec_from_parts(val, *dd.right, right);
                let ans = Self::spec_from_parts(dd.val, left_t, right_t);
                &&& Self::parts_fit(*d.left, *dd.left)
                &&& Self::parts_fit(*dd.right, right)
                &&& Self::parts_fit(left_t, right_t)
                &&& ans@ == left@ + seq![val] + right@
                &&& ans.keys() == left.keys().union(right.keys()).insert(val)
            }),
    {
        let d = left->Node_0;
        let dd = d.right->Node_0;
        Self::lemma_grandchildren(left);
        Self::lemma_grandchildren(*d.right);
        right.lemma_cached_true();
        let left_t = Self::spec_from_parts(d.val, *d.left, *dd.left);
        let right_t = Self::spec_from_parts(val, *dd.right, right);
        let ans = Self::spec_from_parts(dd.val, left_t, right_t);
        assert(left_t@ == d.left@ + seq![d.val] + dd.left@);
        assert(right_t@ == dd.right@ + seq![val] + right@);
        assert(ans@ =~= left@ + seq![val] + right@);
        assert(left_t.keys() == d.left.keys().union(dd.left.keys()).insert(d.val));
        assert(right_t.keys() == dd.right.keys().union(right.keys()).insert(val));
        assert(ans.keys() == left_t.keys().union(right_t.keys()).insert(dd.val));
        assert(ans.keys() =~= left.keys().union(right.keys()).insert(val));
    }

    /// The rotation to the left keeps the values in their order, and its
    /// cached fields fit the machine's integers.
    pub proof fn lemma_single_left_shape(val: T, left: Tree<T>, right: Tree<T>)
        requires
            left.wf(),
            right.wf(),
            right is Node,
            left@.len() + right@.len() < usize::MAX,
        ensures
            ({
                let d = right->Node_0;
                let left_t = Self::spec_from_parts(val, left, *d.left);
                let ans = Self::spec_from_parts(d.val, left_t, *d.right);
                &&& Self::parts_fit(left, *d.left)
                &&& Self::parts_fit(left_t, *d.right)
                &&& ans@ == left@ + seq![val] + right@
                &&& ans.keys() == left.keys().union(right.keys()).insert(val)
            }),
    {
        let d = right->Node_0;
        Self::lemma_grandchildren(right);
        left.lemma_cached_true();
        let left_t = Self::spec_from_parts(val, left, *d.left);
        let ans = Self::spec_from_parts(d.val, left_t, *d.right);
        assert(left_t@ == left@ + seq![val] + d.left@);
        assert(ans@ =~= left@ + seq![val] + right@);
        assert(left_t.keys() == left.keys().union(d.left.keys()).insert(val));
        assert(ans.keys() == left_t.keys().union(d.right.keys()).insert(d.val));
        assert(ans.keys() =~= left.keys().union(right.keys()).insert(val));
    }

    /// The double rotation to the left keeps the values in their order,
    /// and its cached fields fit the machine's integers.
    pub proof fn lemma_double_left_shape(val: T, left: Tree<T>, right: Tree<T>)
        requires
            left.wf(),
            right.wf(),
            right matches Tree::Node(d) && *d.left is Node,
            left@.len() + right@.len() < usize::MAX,
        ensures
            ({
                let d = right->Node_0;
                let dd = d.left->Node_0;
                let left_t = Self::spec_from_parts(val, left, *dd.left);
                let right_t = Self::spec_from_parts(d.val, *dd.right, *d.right);
                let ans = Self::spec_from_parts(dd.val, left_t, right_t);
                &&& Self::parts_fit(left, *dd.left)
                &&& Self::parts_fit(*dd.right, *d.right)
                &&& Self::parts_fit(left_t, right_t)
                &&& ans@ == left@ + seq![val] + right@
                &&& ans.keys() == left.keys().union(right.keys()).insert(val)
            }),
    {
        let d = right->Node_0;
        let dd = d.left->Node_0;
        Self::lemma_grandchildren(right);
        Self::lemma_grandchildren(*d.left);
        left.lemma_cached_true();
        let left_t = Self::spec_from_parts(val, left, *dd.left);
        let right_t = Self::spec_from_parts(d.val, *dd.right, *d.right);
        let ans = Self::spec_from_parts(dd.val, left_t, right_t);
        assert(left_t@ == left@ + seq![val] + dd.left@);
        assert(right_t@ == dd.right@ + seq![d.val] + d.right@);
        assert(ans@ =~= left@ + seq![val] + right@);
        assert(left_t.keys() == left.keys().union(dd.left.keys()).insert(val));
        assert(right_t.keys() == dd.right.keys().union(d.right.keys()).insert(d.val));
        assert(ans.keys() == left_t.keys().union(right_t.keys()).insert(dd.val));
        assert(ans.keys() =~= left.keys().union(right.keys()).insert(val));
    }

    /// The subtrees of a well-formed tree that is not empty are well
    /// formed, what they have cached is true, and the tree's values are
    /// theirs and the root's.
    pub proof fn lemma_grandchildren(t: Tree<T>)
        requires
            t.wf(),
            t is Node,
        ensures
            ({
                let n = t->Node_0;
                &&& n.left.wf()
                &&& n.right.wf()
                &&& n.left.cached_height() == n.left.depth() <= n.left@.len()
                &&& n.right.cached_height() == n.right.depth() <= n.right@.len()
                &&& n.left.cached_size() == n.left@.len()
                &&& n.right.cached_size() == n.right@.len()
                &&& (*n.left is Node) == (n.left.depth() > 0)
                &&& (*n.right is Node) == (n.right.depth() > 0)
                &&& t@ == n.left@ + seq![n.val] + n.right@
                &&& t.keys() == n.left.keys().union(n.right.keys()).insert(n.val)
                &&& t.depth() == if n.left.depth() >= n.right.depth() {
                    n.left.depth() + 1
                } else {
                    n.right.depth() + 1
                }
            }),
    {
        let n = t->Node_0;
        n.left.lemma_cached_true();
        n.right.lemma_cached_true();
    }

    /// What a rotation's result `r` keeps of the node `(val, left, right)`
    /// whose taller subtree has height `top`.
    pub open spec fn lifted(val: T, left: Tree<T>, right: Tree<T>, top: nat, r: Tree<T>) -> bool {
        &&& r.wf()
        &&& r@ == left@ + seq![val] + right@
        &&& r.keys() == left.keys().union(right.keys()).insert(val)
        &&& top <= r.depth() <= top + 1
    }

    /// The single rotation to the right: the left subtree is two higher
    /// and does not lean to the right.
    pub proof fn lemma_single_right(val: T, left: Tree<T>, right: Tree<T>)
        requires
            Self::joinable(val, left, right),
            left.depth() == right.depth() + 2,
            left matches Tree::Node(d) && d.left.depth() >= d.right.depth(),
        ensures
            ({
                let d = left->Node_0;
                let right_t = Self::spec_from_parts(val, *d.right, right);
                let ans = Self::spec_from_parts(d.val, *d.left, right_t);
                &&& Self::parts_fit(*d.right, right)
                &&& Self::parts_fit(*d.left, right_t)
                &&& Self::lifted(val, left, right, left.depth(), ans)
            }),
    {
        let d = left->Node_0;
        assert(left.root_ordered() && left.leans_at_most(1) && left.root_cached());
        assert(left.keys().contains(d.val));
        d.left.lemma_depth_le_len();
        d.right.lemma_depth_le_len();
        assert forall|x: T| #[trigger] d.right.keys().contains(x) implies x.rank()
            < val.rank() by {
            assert(left.keys().contains(x));
        }
        Self::lemma_node_wf(val, *d.right, right, 1);
        let right_t = Self::spec_from_parts(val, *d.right, right);
        Self::lemma_node_wf(d.val, *d.left, right_t, 1);
        Self::lemma_single_right_shape(val, left, right);
    }

    /// The double rotation to the right: the left subtree is two higher
    /// and leans to the right.
    pub proof fn lemma_double_right(val: T, left: Tree<T>, right: Tree<T>)
        requires
            Self::joinable(val, left, right),
            left.depth() == right.depth() + 2,
            left matches Tree::Node(d) && d.left.depth() < d.right.depth(),
        ensures
            ({
                let d = left->Node_0;
                let dd = d.right->Node_0;
                let left_t = Self::spec_from_parts(d.val, *d.left, *dd.left);
                let right_t = Self::spec_from_parts(val, *dd.right, right);
                let ans = Self::spec_from_parts(dd.val, left_t, right_t);
                &&& *d.right is Node
                &&& Self::parts_fit(*d.left, *dd.left)
                &&& Self::parts_fit(*dd.right, right)
                &&& Self::parts_fit(left_t, right_t)
                &&& Self::lifted(val, left, right, left.depth(), ans)
            }),
    {
        let d = left->Node_0;
        let mid = *d.right;
        let dd = mid->Node_0;
        left.lemma_open();
        mid.lemma_open();
        let a = *d.left;
        let b = *dd.left;
        let c = *dd.right;
        assert(Self::joinable(d.val, a, b)) by {
            assert forall|x: T| #[trigger] b.keys().contains(x) implies d.val.rank()
                < x.rank() by {
                assert(mid.keys().contains(x));
            }
        }
        assert(Self::joinable(val, c, right)) by {
            assert forall|x: T| #[trigger] c.keys().contains(x) implies x.rank()
                < val.rank() by {
                assert(mid.keys().contains(x));
                assert(left.keys().contains(x));
            }
        }
        Self::lemma_node_wf(d.val, a, b, 1);
        Self::lemma_node_wf(val, c, right, 1);
        let left_t = Self::spec_from_parts(d.val, a, b);
        let right_t = Self::spec_from_parts(val, c, right);
        assert(Self::joinable(dd.val, left_t, right_t)) by {
            assert(mid.keys().contains(dd.val));
            assert(left.keys().contains(dd.val));
            assert forall|x: T| #[trigger] left_t.keys().contains(x) implies x.rank()
                < dd.val.rank() by {
                if a.keys().contains(x) {
                    assert(left.keys().contains(x));
                }
            }
            assert forall|x: T| #[trigger] right_t.keys().contains(x) implies dd.val.rank()
                < x.rank() by {
                if right.keys().contains(x) {
                    assert(dd.val.rank() < val.rank());
                }
            }
        }
        Self::lemma_node_wf(dd.val, left_t, right_t, 1);
        Self::lemma_double_right_shape(val, left, right);
    }

    /// The single rotation to the left: the right subtree is two higher
    /// and does not lean to the left.
    pub proof fn lemma_single_left(val: T, left: Tree<T>, right: Tree<T>)
        requires
            Self::joinable(val, left, right),
            right.depth() == left.depth() + 2,
            right matches Tree::Node(d) && d.right.depth() >= d.left.depth(),
        ensures
            ({
                let d = right->Node_0;
                let left_t = Self::spec_from_parts(val, left, *d.left);
                let ans = Self::spec_from_parts(d.val, left_t, *d.right);
                &&& Self::parts_fit(left, *d.left)
                &&& Self::parts_fit(left_t, *d.right)
                &&& Self::lifted(val, left, right, right.depth(), ans)
            }),
    {
        let d = right->Node_0;
        assert(right.root_ordered() && right.leans_at_most(1) && right.root_cached());
        assert(right.keys().contains(d.val));
        d.left.lemma_depth_le_len();
        d.right.lemma_depth_le_len();
        assert forall|x: T| #[trigger] d.left.keys().contains(x) implies val.rank()
            < x.rank() by {
            assert(right.keys().contains(x));
        }
        Self::lemma_node_wf(val, left, *d.left, 1);
        let left_t = Self::spec_from_parts(val, left, *d.left);
        Self::lemma_node_wf(d.val, left_t, *d.right, 1);
        Self::lemma_single_left_shape(val, left, right);
    }

    /// The double rotation to the left: the right subtree is two higher
    /// and leans to the left.
    pub proof fn lemma_double_left(val: T, left: Tree<T>, right: Tree<T>)
        requires
            Self::joinable(val, left, right),
            right.depth() == left.depth() + 2,
            right matches Tree::Node(d) && d.right.depth() < d.left.depth(),
        ensures
            ({
                let d = right->Node_0;
                let dd = d.left->Node_0;
                let left_t = Self::spec_from_parts(val, left, *dd.left);
                let right_t = Self::spec_from_parts(d.val, *dd.right, *d.right);
                let ans = Self::spec_from_parts(dd.val, left_t, right_t);
                &&& *d.left is Node
                &&& Self::parts_fit(left, *dd.left)
                &&& Self::parts_fit(*dd.right, *d.right)
                &&& Self::parts_fit(left_t, right_t)
                &&& Self::lifted(val, left, right, right.depth(), ans)
            }),
    {
        let d = right->Node_0;
        let mid = *d.left;
        let dd = mid->Node_0;
        right.lemma_open();
        mid.lemma_open();
        let a = *dd.left;
        let b = *dd.right;
        let c = *d.right;
        assert(Self::joinable(val, left, a)) by {
            assert forall|x: T| #[trigger] a.keys().contains(x) implies val.rank()
                < x.rank() by {
                assert(mid.keys().contains(x));
                assert(right.keys().contains(x));
            }
        }
        assert(Self::joinable(d.val, b, c)) by {
            assert forall|x: T| #[trigger] b.keys().contains(x) implies x.rank()
                < d.val.rank() by {
                assert(mid.keys().contains(x));
            }
        }
        Self::lemma_node_wf(val, left, a, 1);
        Self::lemma_node_wf(d.val, b, c, 1);
        let left_t = Self::spec_from_parts(val, left, a);
        let right_t = Self::spec_from_parts(d.val, b, c);
        assert(Self::joinable(dd.val, left_t, right_t)) by {
            assert(mid.keys().contains(dd.val));
            assert(right.keys().contains(dd.val));
            assert forall|x: T| #[trigger] left_t.keys().contains(x) implies x.rank()
                < dd.val.rank() by {
                if left.keys().contains(x) {
                    assert(val.rank() < dd.val.rank());
                }
            }
            assert forall|x: T| #[trigger] right_t.keys().contains(x) implies dd.val.rank()
                < x.rank() by {
                if c.keys().contains(x) {
                    assert(right.keys().contains(x));
                }
            }
        }
        Self::lemma_node_wf(dd.val, left_t, right_t, 1);
        Self::lemma_double_left_shape(val, left, right);
    }

    /// Rebalances the root in place: see [`Tree::rotate`].
    pub fn balance(&mut self)
        requires
            old(self).children_wf(),
            old(self)@.len() <= usize::MAX,
        ensures
            *final(self) == old(self).rotation(),
            final(self)@ == old(self)@,
            final(self).keys() == old(self).keys(),
            old(self).wf_but_root(2) ==> old(self).rotated(*final(self)),
    {
        let turn = |t: Tree<T>| -> (r: Tree<T>)
            requires
                t.children_wf(),
                t@.len() <= usize::MAX,
            ensures
                r == t.rotation(),
                r@ == t@,
                r.keys() == t.keys(),
                t.wf_but_root(2) ==> t.rotated(r),
            {
                t.rotate()
            };
        replace_with(self, || Tree::Empty, turn);
    }
}

} // verus!
