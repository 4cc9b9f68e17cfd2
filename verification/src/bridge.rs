//! Thin trusted wrappers around functions of std and of outside crates that
//! vstd gives no specification. Each wrapper's contract states only what the
//! function's own documentation promises; everything built on top of them is
//! verified.

use vstd::prelude::*;

verus! {

/// Relies on `String::push`: appends the given character to the end of the
/// string.
#[verifier::external_body]
pub(crate) fn push_char(s: &mut String, c: char)
    ensures
        final(s)@ == old(s)@.push(c),
{
    s.push(c);
}

/// Relies on `uuid::Uuid::new_v4` and the `Display` form of `Uuid`: a fresh
/// random version-4 UUID rendered in the hyphenated form, which is exactly
/// 36 characters. The value itself is random, so nothing more is promised.
#[verifier::external_body]
pub(crate) fn fresh_name() -> (r: String)
    ensures
        r@.len() == 36,
{
    uuid::Uuid::new_v4().to_string()
}

} // verus!
