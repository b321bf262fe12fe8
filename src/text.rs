use vstd::prelude::*;

verus! {

/// The code point of a character.
pub open spec fn code_of(c: char) -> u32 {
    c as u32
}

/// Relies on `char::from_u32`: `Some(c)` exactly when `v` is the code of a
/// character `c`, `None` when no character has that code.
#[verifier::external_body]
pub(crate) fn char_from_code(v: u32) -> (r: Option<char>)
    ensures
        match r {
            Some(c) => code_of(c) == v,
            None => forall|c: char| #[trigger] code_of(c) != v,
        },
{
    char::from_u32(v)
}

/// Relies on `String::push`: appends one character.
#[verifier::external_body]
pub(crate) fn push_char(s: &mut String, c: char)
    ensures
        final(s)@ == old(s)@.push(c),
{
    s.push(c)
}

} // verus!
