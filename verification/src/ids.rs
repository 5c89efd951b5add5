//! Fresh identifiers.

use vstd::prelude::*;
use vstd::utf8::is_ascii_chars;

verus! {

/// `uuid::Uuid::new_v4`, in its hyphenated form. The outcome is random; every
/// outcome has 36 characters, all of them ASCII. That two outcomes differ is
/// not claimed.
#[verifier::external_body]
pub(crate) fn fresh_id() -> (r: String)
    ensures
        r@.len() == 36,
        is_ascii_chars(r@),
{
    uuid::Uuid::new_v4().to_string()
}

} // verus!
