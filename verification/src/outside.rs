//! What is taken on trust about code from outside this library.

use vstd::prelude::*;

verus! {

/// `replace_with::replace_with` moves the value out of `dest`, hands it to
/// `f`, and stores in `dest` what `f` returns. The contract claims exactly
/// that: `f` is called once, on the old value, and the new value is its
/// result. `default` is only called when `f` unwinds, which a verified `f`
/// called within its precondition does not do.
pub assume_specification<T, D: FnOnce() -> T, F: FnOnce(T) -> T>[ replace_with::replace_with::<T, D, F> ](
    dest: &mut T,
    default: D,
    f: F,
)
    requires
        call_requires(f, (*old(dest),)),
    ensures
        call_ensures(f, (*old(dest),), *final(dest)),
;

/// `String::push` appends the given character to the end of the string.
pub assume_specification[ String::push ](s: &mut String, c: char)
    ensures
        final(s)@ == old(s)@.push(c),
;

} // verus!
