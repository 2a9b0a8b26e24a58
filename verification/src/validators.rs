//! Syntax validation of identifiers through the outside crates that define
//! their grammars.  Each grammar is named by an uninterpreted predicate; the
//! wrappers tie the predicate to the outside parser that decides it.

use vstd::prelude::*;

verus! {

/// Whether a string is a syntactically valid URI, as `http::Uri` accepts it.
pub uninterp spec fn uri_valid(s: Seq<char>) -> bool;

/// Whether a string is a well-formed protocol user identifier, as
/// `ruma::UserId` accepts it.
pub uninterp spec fn user_id_valid(s: Seq<char>) -> bool;

/// Whether a string is acceptable as an HTTP header value, as
/// `http::HeaderValue` accepts it.
pub uninterp spec fn header_value_valid(s: Seq<char>) -> bool;

/// Relies on `<http::Uri as FromStr>::from_str`: whether a string parses as
/// a URI depends on its characters alone.
#[verifier::external_body]
pub(crate) fn uri_ok(s: &str) -> (r: bool)
    ensures
        r == uri_valid(s@),
{
    s.parse::<http::Uri>().is_ok()
}

/// Relies on `ruma::UserId::parse`: whether a string is a well-formed user
/// identifier depends on its characters alone.
#[verifier::external_body]
pub(crate) fn user_id_ok(s: &str) -> (r: bool)
    ensures
        r == user_id_valid(s@),
{
    ruma::UserId::parse(s).is_ok()
}

/// Relies on `http::HeaderValue::from_str`: whether a string is acceptable
/// as a header value depends on its characters alone.
#[verifier::external_body]
pub(crate) fn header_value_ok(s: &str) -> (r: bool)
    ensures
        r == header_value_valid(s@),
{
    http::HeaderValue::from_str(s).is_ok()
}

} // verus!
