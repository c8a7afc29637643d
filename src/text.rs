//! Small string operations of std that the library relies on.

use vstd::prelude::*;

verus! {

/// Relies on `str::starts_with` with a string pattern: true exactly when
/// `prefix` is a prefix of `s`.
#[verifier::external_body]
pub(crate) fn has_prefix(s: &str, prefix: &str) -> (r: bool)
    ensures
        r == prefix@.is_prefix_of(s@),
{
    s.starts_with(prefix)
}

/// Relies on `str::strip_prefix` with a `char` pattern: the rest of `s` when
/// it begins with `c`.
#[verifier::external_body]
pub(crate) fn strip_leading_char(s: &str, c: char) -> (r: Option<String>)
    ensures
        r is Some <==> (s@.len() > 0 && s@[0] == c),
        r matches Some(rest) ==> rest@ == s@.drop_first(),
{
    s.strip_prefix(c).map(|rest| rest.to_string())
}

} // verus!
