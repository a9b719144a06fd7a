//! The signed 64-bit integers as tree elements: ordered as integers, combined
//! by addition that wraps around at the type's bounds.

use vstd::prelude::*;
use crate::monoid::Monoid;
use crate::monoid::Ordered;
use crate::text::push_signed_decimal;
use crate::text::signed_decimal;
use crate::text::Render;

verus! {

impl Monoid for i64 {
    const MEMPTY: Self = 0i64;

    open spec fn mempty_spec() -> Self {
        0i64
    }

    proof fn lemma_mempty() {
    }

    open spec fn mappend_spec(self, other: Self) -> Self {
        self.wrapping_add(other)
    }

    proof fn lemma_identity(a: Self) {
    }

    proof fn lemma_associative(a: Self, b: Self, c: Self) {
    }

    fn mappend(self, other: Self) -> (r: Self) {
        self.wrapping_add(other)
    }
}

impl Ordered for i64 {
    open spec fn rank(self) -> int {
        self as int
    }

    proof fn lemma_rank_injective(a: Self, b: Self) {
    }

    fn less(&self, other: &Self) -> (b: bool) {
        *self < *other
    }

    fn same(&self, other: &Self) -> (b: bool) {
        *self == *other
    }
}

impl Render for i64 {
    open spec fn text(self) -> Seq<char> {
        signed_decimal(self as int)
    }

    fn render(&self) -> (s: String) {
        let mut out = String::new();
        push_signed_decimal(*self, &mut out);
        proof {
            assert(out@ =~= signed_decimal(*self as int));
        }
        out
    }
}

} // verus!
