//! What the tree asks of its element type: a monoid structure and a total
//! order, together with the combination of a whole sequence of elements.

use vstd::prelude::*;

verus! {

/// An identity element and an associative combining operation.
pub trait Monoid: Sized {
    /// The identity element.
    const MEMPTY: Self;

    /// The identity element, as a mathematical value.
    spec fn mempty_spec() -> Self;

    /// `MEMPTY` is the identity element.
    proof fn lemma_mempty()
        ensures
            Self::MEMPTY == Self::mempty_spec(),
    ;

    /// The combining operation, as a mathematical function.
    spec fn mappend_spec(self, other: Self) -> Self;

    /// The identity is neutral on both sides.
    proof fn lemma_identity(a: Self)
        ensures
            Self::MEMPTY.mappend_spec(a) == a,
            a.mappend_spec(Self::MEMPTY) == a,
    ;

    /// The operation is associative.
    proof fn lemma_associative(a: Self, b: Self, c: Self)
        ensures
            a.mappend_spec(b).mappend_spec(c) == a.mappend_spec(b.mappend_spec(c)),
    ;

    /// Combines two values.
    fn mappend(self, other: Self) -> (r: Self)
        ensures
            r == self.mappend_spec(other),
    ;
}

/// A total order, given by an order-preserving, one-to-one map into the
/// integers.
pub trait Ordered: Sized {
    /// The place of a value in the order.
    spec fn rank(self) -> int;

    /// Distinct values have distinct places.
    proof fn lemma_rank_injective(a: Self, b: Self)
        requires
            a.rank() == b.rank(),
        ensures
            a == b,
    ;

    /// Whether `self` comes strictly before `other`.
    fn less(&self, other: &Self) -> (b: bool)
        ensures
            b == (self.rank() < other.rank()),
    ;

    /// Whether `self` and `other` are the same value.
    fn same(&self, other: &Self) -> (b: bool)
        ensures
            b == (*self == *other),
    ;
}

/// The combining operation of `T` gives the same for both orders of its
/// arguments.
pub open spec fn commutative<T: Monoid>() -> bool {
    forall|a: T, b: T| #[trigger] a.mappend_spec(b) == b.mappend_spec(a)
}

/// Whether `lo <= v <= hi` in the order of `T`.
pub open spec fn within<T: Ordered>(v: T, lo: T, hi: T) -> bool {
    lo.rank() <= v.rank() <= hi.rank()
}

/// The combination of the values of `s`, from left to right; the identity for
/// the empty sequence.
pub open spec fn fold<T: Monoid>(s: Seq<T>) -> T
    decreases s.len(),
{
    if s.len() == 0 {
        T::MEMPTY
    } else {
        s[0].mappend_spec(fold(s.drop_first()))
    }
}

/// The combination of a concatenation is the combination of the two parts'
/// combinations.
pub proof fn lemma_fold_concat<T: Monoid>(a: Seq<T>, b: Seq<T>)
    ensures
        fold(a + b) == fold(a).mappend_spec(fold(b)),
    decreases a.len(),
{
    if a.len() == 0 {
        assert(a + b =~= b);
        T::lemma_identity(fold(b));
    } else {
        assert((a + b).drop_first() =~= a.drop_first() + b);
        lemma_fold_concat(a.drop_first(), b);
        T::lemma_associative(a[0], fold(a.drop_first()), fold(b));
    }
}

/// The combination of a single value is that value.
pub proof fn lemma_fold_one<T: Monoid>(v: T)
    ensures
        fold(seq![v]) == v,
{
    let s = seq![v];
    assert(s.drop_first() =~= Seq::<T>::empty());
    assert(fold(s.drop_first()) == T::MEMPTY);
    assert(fold(s) == s[0].mappend_spec(fold(s.drop_first())));
    T::lemma_identity(v);
}

} // verus!
