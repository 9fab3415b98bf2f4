//! Arguments that are turned into text.

use vstd::prelude::*;

verus! {

/// `value` may turn into `text`.
pub open spec fn converts_to<P: Into<String>>(value: P, text: Seq<char>) -> bool {
    exists|string: String| #[trigger] call_ensures(P::into, (value,), string) && string@ == text
}

/// `String::from` on a string slice holds the same characters as the slice.
pub assume_specification<'a>[ <String as From<&'a str>>::from ](text: &str) -> (string: String)
    ensures
        string@ == text@,
;

/// `From::from` from a type to itself returns its argument unchanged.
pub assume_specification<T>[ <T as From<T>>::from ](value: T) -> (same: T)
    ensures
        same == value,
;

/// A string slice turns into its own characters and nothing else.
pub proof fn law_slice_keeps_its_characters(value: &str, text: Seq<char>)
    requires
        converts_to(value, text),
    ensures
        text == value@,
{
}

/// A string turns into its own characters and nothing else.
pub proof fn law_string_keeps_its_characters(value: String, text: Seq<char>)
    requires
        converts_to(value, text),
    ensures
        text == value@,
{
}

} // verus!
