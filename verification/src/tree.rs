//! The tree type, its mathematical model and its well-formedness.

use vstd::prelude::*;
use crate::monoid::commutative;
use crate::monoid::fold;
use crate::monoid::lemma_fold_concat;
use crate::monoid::lemma_fold_one;
use crate::monoid::Monoid;
use crate::monoid::Ordered;

verus! {

/// An inner node: a value, two subtrees, and what is cached about the subtree
/// rooted here.
#[derive(PartialEq, Eq)]
pub struct Node<T> {
    pub val: T,
    pub left: Box<Tree<T>>,
    pub right: Box<Tree<T>>,
    pub height: usize,
    pub size: usize,
    pub sum: T,
}

/// A binary tree of values with cached height, size and aggregate.
#[derive(PartialEq, Eq)]
pub enum Tree<T> {
    Empty,
    Node(Node<T>),
}

impl<T> View for Tree<T> {
    type V = Seq<T>;

    /// The values in order: see [`Tree::in_order_seq`].
    open spec fn view(&self) -> Seq<T> {
        self.in_order_seq()
    }
}

impl<T> Tree<T> {
    /// The values from left to right: left subtree, node, right subtree.
    pub open spec fn in_order_seq(self) -> Seq<T>
        decreases self,
    {
        match self {
            Tree::Empty => Seq::empty(),
            Tree::Node(n) => n.left.in_order_seq() + seq![n.val] + n.right.in_order_seq(),
        }
    }

    /// The values with each node before its subtrees: node, left, right.
    pub open spec fn pre_order_seq(self) -> Seq<T>
        decreases self,
    {
        match self {
            Tree::Empty => Seq::empty(),
            Tree::Node(n) => seq![n.val] + n.left.pre_order_seq() + n.right.pre_order_seq(),
        }
    }

    /// The values with each node after its subtrees: left, right, node.
    pub open spec fn post_order_seq(self) -> Seq<T>
        decreases self,
    {
        match self {
            Tree::Empty => Seq::empty(),
            Tree::Node(n) => n.left.post_order_seq() + n.right.post_order_seq() + seq![n.val],
        }
    }

    /// The set of values held.
    pub open spec fn keys(self) -> Set<T>
        decreases self,
    {
        match self {
            Tree::Empty => Set::empty(),
            Tree::Node(n) => n.left.keys().union(n.right.keys()).insert(n.val),
        }
    }

    /// The number of nodes on the longest path from the root down.
    pub open spec fn depth(self) -> nat
        decreases self,
    {
        match self {
            Tree::Empty => 0,
            Tree::Node(n) => {
                let l = n.left.depth();
                let r = n.right.depth();
                if l >= r {
                    l + 1
                } else {
                    r + 1
                }
            },
        }
    }

    /// The height that the root has cached; 0 for the empty tree.
    pub open spec fn cached_height(self) -> usize {
        match self {
            Tree::Empty => 0,
            Tree::Node(n) => n.height,
        }
    }

    /// The size that the root has cached; 0 for the empty tree.
    pub open spec fn cached_size(self) -> usize {
        match self {
            Tree::Empty => 0,
            Tree::Node(n) => n.size,
        }
    }
}

impl<T: Monoid + Ordered + Copy> Tree<T> {
    /// The aggregate that the root has cached; the identity for the empty
    /// tree.
    pub open spec fn cached_sum(self) -> T {
        match self {
            Tree::Empty => T::MEMPTY,
            Tree::Node(n) => n.sum,
        }
    }

    /// The aggregate of the tree: its values combined, each node before its
    /// subtrees.
    pub open spec fn aggregate(self) -> T {
        fold(self.pre_order_seq())
    }

    /// The heights of the root's subtrees differ by at most `slack`; true of
    /// the empty tree.
    pub open spec fn leans_at_most(self, slack: nat) -> bool {
        match self {
            Tree::Empty => true,
            Tree::Node(n) => {
                &&& n.left.depth() <= n.right.depth() + slack
                &&& n.right.depth() <= n.left.depth() + slack
            },
        }
    }

    /// The root's value lies strictly between the values of its subtrees.
    pub open spec fn root_ordered(self) -> bool {
        match self {
            Tree::Empty => true,
            Tree::Node(n) => {
                &&& forall|x: T| #[trigger] n.left.keys().contains(x) ==> x.rank() < n.val.rank()
                &&& forall|x: T| #[trigger] n.right.keys().contains(x) ==> n.val.rank() < x.rank()
            },
        }
    }

    /// What the root has cached is true of the tree.
    pub open spec fn root_cached(self) -> bool {
        match self {
            Tree::Empty => true,
            Tree::Node(n) => {
                &&& n.height == self.depth()
                &&& n.size == self@.len()
                &&& n.sum == self.aggregate()
            },
        }
    }

    /// Well-formedness: at every node the search order holds, the subtrees'
    /// heights differ by at most one, and the cached height, size and
    /// aggregate are those of the subtree.
    pub open spec fn wf(self) -> bool
        decreases self,
    {
        match self {
            Tree::Empty => true,
            Tree::Node(n) => {
                &&& n.left.wf()
                &&& n.right.wf()
                &&& self.root_ordered()
                &&& self.leans_at_most(1)
                &&& self.root_cached()
            },
        }
    }

    /// Both subtrees of the root are well formed; true of the empty tree.
    pub open spec fn children_wf(self) -> bool {
        match self {
            Tree::Empty => true,
            Tree::Node(n) => n.left.wf() && n.right.wf(),
        }
    }

    /// The heights of the subtrees differ by at most `slack`, and the tree
    /// is otherwise well formed but for what its root has cached.
    pub open spec fn wf_but_root(self, slack: nat) -> bool {
        match self {
            Tree::Empty => true,
            Tree::Node(n) => {
                &&& n.left.wf()
                &&& n.right.wf()
                &&& self.root_ordered()
                &&& self.leans_at_most(slack)
            },
        }
    }

    /// A tree has at least as many values as it is high.
    pub proof fn lemma_depth_le_len(self)
        ensures
            self.depth() <= self@.len(),
            self.pre_order_seq().len() == self@.len(),
            self.post_order_seq().len() == self@.len(),
        decreases self,
    {
        match self {
            Tree::Empty => {},
            Tree::Node(n) => {
                n.left.lemma_depth_le_len();
                n.right.lemma_depth_le_len();
            },
        }
    }
}

impl<T: Monoid + Ordered + Copy> Tree<T> {
    /// Whether the tree holds no value.
    pub fn is_empty(&self) -> (b: bool)
        ensures
            b == (*self is Empty),
    {
        match self {
            Tree::Empty => true,
            Tree::Node(_) => false,
        }
    }

    /// A tree of one value.
    pub fn from_value(val: T) -> (t: Self)
        ensures
            t == Self::spec_from_parts(val, Tree::Empty, Tree::Empty),
            t.wf(),
            t@ == seq![val],
            t.keys() == set![val],
    {
        let t = Tree::Node(
            Node {
                val,
                left: Box::new(Tree::Empty),
                right: Box::new(Tree::Empty),
                height: 1,
                size: 1,
                sum: val,
            },
        );
        proof {
            T::lemma_identity(val);
            T::lemma_identity(T::MEMPTY);
            let e = Tree::<T>::Empty;
            assert(e.wf() && e@ =~= Seq::empty() && e.keys() =~= Set::empty());
            Self::lemma_node_wf(val, e, e, 0);
            assert(t == Self::spec_from_parts(val, e, e));
            assert(t@ =~= seq![val]);
            assert(t.keys() =~= set![val]);
        }
        t
    }

    /// A node with exactly the given fields; nothing is recomputed.
    pub fn from_raw_parts(
        val: T,
        left: Tree<T>,
        right: Tree<T>,
        height: usize,
        size: usize,
        sum: T,
    ) -> (t: Self)
        ensures
            t == Tree::Node(
                Node { val, left: Box::new(left), right: Box::new(right), height, size, sum },
            ),
    {
        Tree::Node(Node { val, left: Box::new(left), right: Box::new(right), height, size, sum })
    }

    /// The node with the given value and subtrees whose cached fields are
    /// computed from what the subtrees have cached.
    pub open spec fn spec_from_parts(val: T, left: Tree<T>, right: Tree<T>) -> Tree<T> {
        let h = if left.cached_height() >= right.cached_height() {
            left.cached_height()
        } else {
            right.cached_height()
        };
        Tree::Node(
            Node {
                val,
                left: Box::new(left),
                right: Box::new(right),
                height: (h + 1) as usize,
                size: (left.cached_size() + right.cached_size() + 1) as usize,
                sum: val.mappend_spec(left.cached_sum().mappend_spec(right.cached_sum())),
            },
        )
    }

    /// The tree with its root's cached fields computed from what the
    /// subtrees have cached.
    pub open spec fn recomputed(self) -> Tree<T> {
        match self {
            Tree::Empty => Tree::Empty,
            Tree::Node(n) => Self::spec_from_parts(n.val, *n.left, *n.right),
        }
    }

    /// Whether the cached fields of a node over these subtrees fit the
    /// machine's integers.
    pub open spec fn parts_fit(left: Tree<T>, right: Tree<T>) -> bool {
        &&& left.cached_height() < usize::MAX
        &&& right.cached_height() < usize::MAX
        &&& left.cached_size() + right.cached_size() < usize::MAX
    }

    /// The root's value and subtrees.
    pub fn destruct(self) -> (parts: (T, Tree<T>, Tree<T>))
        requires
            self is Node,
        ensures
            parts.0 == self->Node_0.val,
            parts.1 == *self->Node_0.left,
            parts.2 == *self->Node_0.right,
    {
        match self {
            Tree::Node(n) => {
                let Node { val, left, right, .. } = n;
                (val, *left, *right)
            },
            Tree::Empty => vstd::pervasive::unreached(),
        }
    }

    /// The cached height.
    pub fn height(&self) -> (h: usize)
        ensures
            h == self.cached_height(),
            self.wf() ==> h == self.depth(),
    {
        match self {
            Tree::Empty => 0usize,
            Tree::Node(n) => n.height,
        }
    }

    /// The cached size.
    pub fn size(&self) -> (n: usize)
        ensures
            n == self.cached_size(),
            self.wf() ==> n == self@.len(),
    {
        match self {
            Tree::Empty => 0usize,
            Tree::Node(n) => n.size,
        }
    }

    /// The cached aggregate: in a well-formed tree, the combination of all
    /// its values, each node before its subtrees; which for a commutative
    /// operation is their combination in order.
    pub fn sum(&self) -> (s: T)
        ensures
            s == self.cached_sum(),
            self.wf() ==> s == self.aggregate(),
            self.wf() && commutative::<T>() ==> s == fold(self@),
    {
        proof {
            if commutative::<T>() {
                self.lemma_aggregate_in_order();
            }
        }
        match self {
            Tree::Empty => T::MEMPTY,
            Tree::Node(n) => n.sum,
        }
    }

    /// Recomputes the root's cached height, size and aggregate from what its
    /// subtrees have cached.
    pub fn upd(self) -> (t: Self)
        requires
            self matches Tree::Node(n) ==> Self::parts_fit(*n.left, *n.right),
        ensures
            t == self.recomputed(),
    {
        if self.is_empty() {
            return Tree::Empty;
        }
        let (val, left, right) = self.destruct();
        let lh = left.height();
        let rh = right.height();
        let height = if lh >= rh { lh + 1 } else { rh + 1 };
        let size = left.size() + right.size() + 1;
        let sum = val.mappend(left.sum().mappend(right.sum()));
        Self::from_raw_parts(val, left, right, height, size, sum)
    }

    /// The node with the given value and subtrees, its cached fields
    /// computed from what the subtrees have cached.
    pub fn from_parts(val: T, left: Tree<T>, right: Tree<T>) -> (t: Self)
        requires
            Self::parts_fit(left, right),
        ensures
            t == Self::spec_from_parts(val, left, right),
    {
        let stale = Self::from_raw_parts(val, left, right, 0, 0, T::MEMPTY);
        stale.upd()
    }
}

impl<T: Monoid + Ordered + Copy> Tree<T> {
    /// A node could stand over `left` and `right` with the value `val`:
    /// both are well formed, `val` lies between them, and together they are
    /// few enough to be counted.
    pub open spec fn joinable(val: T, left: Tree<T>, right: Tree<T>) -> bool {
        &&& left.wf()
        &&& right.wf()
        &&& left@.len() + right@.len() < usize::MAX
        &&& forall|x: T| #[trigger] left.keys().contains(x) ==> x.rank() < val.rank()
        &&& forall|x: T| #[trigger] right.keys().contains(x) ==> val.rank() < x.rank()
    }

    /// What a well-formed tree has cached is true of it, and fits the
    /// machine's integers.
    pub proof fn lemma_cached_true(self)
        requires
            self.wf(),
        ensures
            self.cached_height() == self.depth(),
            self.cached_size() == self@.len(),
            self.depth() <= self@.len(),
            (self is Node) == (self.depth() > 0),
    {
        self.lemma_depth_le_len();
        match self {
            Tree::Empty => {},
            Tree::Node(_) => {
                assert(self.root_cached());
            },
        }
    }

    /// What well-formedness says at the root of a tree that is not empty.
    pub proof fn lemma_open(self)
        requires
            self.wf(),
            self is Node,
        ensures
            ({
                let n = self->Node_0;
                &&& n.left.wf()
                &&& n.right.wf()
                &&& self@ == n.left@ + seq![n.val] + n.right@
                &&& self.keys() == n.left.keys().union(n.right.keys()).insert(n.val)
                &&& self.keys().contains(n.val)
                &&& self.depth() == if n.left.depth() >= n.right.depth() {
                    n.left.depth() + 1
                } else {
                    n.right.depth() + 1
                }
                &&& n.left.depth() <= n.right.depth() + 1
                &&& n.right.depth() <= n.left.depth() + 1
                &&& forall|x: T| #[trigger] n.left.keys().contains(x) ==> x.rank() < n.val.rank()
                &&& forall|x: T| #[trigger] n.right.keys().contains(x) ==> n.val.rank() < x.rank()
                &&& n.left.depth() <= n.left@.len()
                &&& n.right.depth() <= n.right@.len()
            }),
    {
        let n = self->Node_0;
        assert(self.root_ordered() && self.leans_at_most(1));
        n.left.lemma_depth_le_len();
        n.right.lemma_depth_le_len();
    }

    /// A node over well-formed subtrees that its value separates, and whose
    /// heights differ by at most `slack`, is well formed but for the balance
    /// of its root; with `slack` at most one it is well formed.
    pub proof fn lemma_node_wf(val: T, left: Tree<T>, right: Tree<T>, slack: nat)
        requires
            Self::joinable(val, left, right),
            left.depth() <= right.depth() + slack,
            right.depth() <= left.depth() + slack,
        ensures
            Self::parts_fit(left, right),
            Self::spec_from_parts(val, left, right).wf_but_root(slack),
            Self::spec_from_parts(val, left, right).root_cached(),
            slack <= 1 ==> Self::spec_from_parts(val, left, right).wf(),
            Self::spec_from_parts(val, left, right)@ == left@ + seq![val] + right@,
            Self::spec_from_parts(val, left, right).keys() == left.keys().union(right.keys()).insert(
                val,
            ),
            Self::spec_from_parts(val, left, right).depth() == if left.depth() >= right.depth() {
                left.depth() + 1
            } else {
                right.depth() + 1
            },
    {
        let t = Self::spec_from_parts(val, left, right);
        left.lemma_depth_le_len();
        right.lemma_depth_le_len();
        assert(t.pre_order_seq() == seq![val] + left.pre_order_seq() + right.pre_order_seq());
        lemma_fold_concat(seq![val] + left.pre_order_seq(), right.pre_order_seq());
        lemma_fold_concat(seq![val], left.pre_order_seq());
        lemma_fold_one(val);
        T::lemma_associative(val, left.aggregate(), right.aggregate());
        match left {
            Tree::Empty => {},
            Tree::Node(_) => {},
        }
        match right {
            Tree::Empty => {},
            Tree::Node(_) => {},
        }
    }
}

impl<T: Monoid + Ordered + Copy> From<T> for Tree<T> {
    /// A tree of one value.
    fn from(val: T) -> (t: Self) {
        Tree::from_value(val)
    }
}

impl<T: Monoid + Ordered + Copy> vstd::std_specs::convert::FromSpecImpl<T> for Tree<T> {
    open spec fn obeys_from_spec() -> bool {
        true
    }

    open spec fn from_spec(val: T) -> Self {
        Self::spec_from_parts(val, Tree::Empty, Tree::Empty)
    }
}

impl<T: Monoid + Ordered + Copy> From<(T, Tree<T>, Tree<T>, usize, usize, T)> for Tree<T> {
    /// A node with exactly the given fields; nothing is recomputed.
    fn from(parts: (T, Tree<T>, Tree<T>, usize, usize, T)) -> (t: Self) {
        let (val, left, right, height, size, sum) = parts;
        Tree::from_raw_parts(val, left, right, height, size, sum)
    }
}

impl<T: Monoid + Ordered + Copy> vstd::std_specs::convert::FromSpecImpl<(T, Tree<T>, Tree<T>, usize, usize, T)> for Tree<T> {
    open spec fn obeys_from_spec() -> bool {
        true
    }

    open spec fn from_spec(parts: (T, Tree<T>, Tree<T>, usize, usize, T)) -> Self {
        Tree::Node(
            Node {
                val: parts.0,
                left: Box::new(parts.1),
                right: Box::new(parts.2),
                height: parts.3,
                size: parts.4,
                sum: parts.5,
            },
        )
    }
}

impl<T: Monoid + Ordered + Copy> Clone for Tree<T> {
    /// A copy of the tree, node for node.
    fn clone(&self) -> (t: Self)
        ensures
            t == *self,
        decreases self,
    {
        match self {
            Tree::Empty => Tree::Empty,
            Tree::Node(n) => {
                let left = (*n.left).clone();
                let right = (*n.right).clone();
                Tree::from_raw_parts(n.val, left, right, n.height, n.size, n.sum)
            },
        }
    }
}

} // verus!
