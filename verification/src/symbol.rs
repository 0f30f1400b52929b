//! Symbols are `char`s; this file holds what the crate relies on from the
//! standard library for them, beyond what vstd specifies.
use vstd::prelude::*;

verus! {

/// Whether `v` is a Unicode scalar value, that is, the code point of a `char`.
pub open spec fn is_scalar(v: u32) -> bool {
    v <= 0xD7FF || 0xE000 <= v <= 0x10_FFFF
}

/// `String::push`: appends one character.
pub assume_specification[ String::push ](s: &mut String, c: char)
    ensures
        final(s)@ == old(s)@.push(c),
;

/// `char::from_u32`: the character with code point `v`, if `v` is the code
/// point of a character at all.
pub assume_specification[ char::from_u32 ](v: u32) -> (r: Option<char>)
    ensures
        r == (if is_scalar(v) {
            Some(v as char)
        } else {
            None
        }),
;

} // verus!
