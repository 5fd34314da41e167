//! Identifier generation.
//!
//! Node and container identifiers are RFC 4122 version-4 UUIDs in
//! their hyphenated text form, assigned once at creation and stable
//! for the record's lifetime.

use vstd::prelude::*;

verus! {

/// Relies on `uuid::Uuid::new_v4` and its `Display` impl: a fresh
/// random version-4 UUID rendered as its 36-character hyphenated text.
/// The value is random, so nothing is assumed of it beyond its length;
/// callers that need freshness check the tables themselves.
#[verifier::external_body]
pub(crate) fn fresh_uuid() -> (r: String)
    ensures
        r@.len() == 36,
{
    uuid::Uuid::new_v4().to_string()
}

} // verus!
