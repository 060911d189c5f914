//! Contracts for the few outside calls the library relies on: `char`
//! conversion, `RangeInclusive` accessors, `String` building, and the
//! `NonEmpty` vector type of the `nonempty` crate.

use vstd::prelude::*;

verus! {

/// A Unicode scalar value: any code point outside the surrogate block.
pub open spec fn scalar_ok(v: int) -> bool {
    0 <= v <= 0x10FFFF && !(0xD800 <= v < 0xE000)
}

/// Relies on char::from_u32: `Some` exactly when the value is a Unicode
/// scalar value, and then the returned char is that value.
pub assume_specification[ char::from_u32 ](v: u32) -> (r: Option<char>)
    ensures
        scalar_ok(v as int) ==> r == Some(v as char),
        !scalar_ok(v as int) ==> r is None,
;

/// Relies on RangeInclusive::start: it returns the range's lower bound.
pub assume_specification<Idx>[ core::ops::RangeInclusive::<Idx>::start ](
    r: &core::ops::RangeInclusive<Idx>,
) -> (s: &Idx)
    ensures
        *s == r@.start,
;

/// Relies on RangeInclusive::end: it returns the range's upper bound.
pub assume_specification<Idx>[ core::ops::RangeInclusive::<Idx>::end ](
    r: &core::ops::RangeInclusive<Idx>,
) -> (e: &Idx)
    ensures
        *e == r@.end,
;

/// Relies on String::push: it appends the character to the string.
#[verifier::external_body]
pub(crate) fn string_push(s: &mut String, c: char)
    ensures
        final(s)@ == old(s)@.push(c),
{
    s.push(c);
}

/// Relies on str::chars: it yields the string's characters in order.
#[verifier::external_body]
pub(crate) fn str_chars(s: &str) -> (r: Vec<char>)
    ensures
        r@ == s@,
{
    s.chars().collect()
}

/// The non-empty vector of the `nonempty` crate: a public `head` element
/// followed by a `tail` vector.  Declared transparently so that contracts
/// can speak of both fields.
#[verifier::external_type_specification]
#[verifier::reject_recursive_types(T)]
pub struct ExNonEmpty<T>(nonempty::NonEmpty<T>);

/// Relies on NonEmpty's derived Clone; nothing is assumed of the copy.
pub assume_specification<T>[ <nonempty::NonEmpty<T> as core::clone::Clone>::clone ](
    ne: &nonempty::NonEmpty<T>,
) -> nonempty::NonEmpty<T> where T: core::clone::Clone;

/// The elements of a `NonEmpty`, head first.
pub open spec fn ne_seq<T>(ne: nonempty::NonEmpty<T>) -> Seq<T> {
    seq![ne.head] + ne.tail@
}

} // verus!
