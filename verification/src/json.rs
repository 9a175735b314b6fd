//! JSON texts.

use vstd::prelude::*;
use vstd::string::*;

verus! {

/// What is wrong with a text that should be JSON, if anything is.
pub uninterp spec fn json_fault(text: Seq<char>) -> Option<Seq<char>>;

/// Trusted: `serde_json::from_str::<serde_json::Value>`. It accepts a text or
/// gives the error that the text alone decides; what the error says is its
/// `to_string`. Which texts are JSON is left unsaid.
#[verifier::external_body]
pub(crate) fn json_error(text: &str) -> (r: Option<String>)
    ensures
        match r {
            Some(reason) => json_fault(text@) == Some(reason@),
            None => json_fault(text@) is None,
        },
{
    match serde_json::from_str::<serde_json::Value>(text) {
        Ok(_) => None,
        Err(error) => Some(error.to_string()),
    }
}

} // verus!
