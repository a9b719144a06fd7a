//! Optional numbers as tree elements, with a combination that depends on the
//! order of its arguments: the first of them that is a number. Nothing comes
//! before every number.

use vstd::prelude::*;
use crate::monoid::Monoid;
use crate::monoid::Ordered;
use crate::text::push_signed_decimal;
use crate::text::signed_decimal;
use crate::text::Render;

verus! {

impl Monoid for Option<i64> {
    const MEMPTY: Self = None;

    open spec fn mempty_spec() -> Self {
        None
    }

    proof fn lemma_mempty() {
    }

    open spec fn mappend_spec(self, other: Self) -> Self {
        if self is Some {
            self
        } else {
            other
        }
    }

    proof fn lemma_identity(a: Self) {
    }

    proof fn lemma_associative(a: Self, b: Self, c: Self) {
    }

    fn mappend(self, other: Self) -> (r: Self) {
        match self {
            Some(_) => self,
            None => other,
        }
    }
}

impl Ordered for Option<i64> {
    open spec fn rank(self) -> int {
        match self {
            None => i64::MIN - 1,
            Some(v) => v as int,
        }
    }

    proof fn lemma_rank_injective(a: Self, b: Self) {
    }

    fn less(&self, other: &Self) -> (b: bool) {
        match (*self, *other) {
            (None, None) => false,
            (None, Some(_)) => true,
            (Some(_), None) => false,
            (Some(a), Some(b)) => a < b,
        }
    }

    fn same(&self, other: &Self) -> (b: bool) {
        match (*self, *other) {
            (None, None) => true,
            (None, Some(_)) => false,
            (Some(_), None) => false,
            (Some(a), Some(b)) => a == b,
        }
    }
}

impl Render for Option<i64> {
    open spec fn text(self) -> Seq<char> {
        match self {
            None => seq!['_'],
            Some(v) => signed_decimal(v as int),
        }
    }

    fn render(&self) -> (s: String) {
        let mut out = String::new();
        match *self {
            None => {
                out.push('_');
            },
            Some(v) => {
                push_signed_decimal(v, &mut out);
            },
        }
        proof {
            assert(out@ =~= self.text());
        }
        out
    }
}

} // verus!
