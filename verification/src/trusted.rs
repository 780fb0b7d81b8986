use vstd::prelude::*;

verus! {

/// Relies on String::push: appends the given character to the end of the
/// string, so the new view is the old view with that character at the end.
pub assume_specification[ String::push ](s: &mut String, c: char)
    ensures
        final(s)@ == old(s)@.push(c),
;

/// Whether a code point is a Unicode scalar value, that is, a value a `char`
/// can hold: anything in the code point range except the surrogate block.
pub open spec fn valid_scalar(v: u32) -> bool {
    v < 0xD800 || (0xE000 <= v && v <= 0x10FFFF)
}

/// Relies on char::from_u32: returns the character with the given code point
/// for every Unicode scalar value, and None for surrogates and values past
/// the code point range.
pub assume_specification[ char::from_u32 ](v: u32) -> (r: Option<char>)
    ensures
        valid_scalar(v) ==> r == Some(v as char),
        !valid_scalar(v) ==> r is None,
;

} // verus!
