//! The boundary to `serde_json`: JSON text of a single string, written and
//! read back. Nothing here is proved; each contract gives the outside result
//! a name and says of it only that writing succeeds.

use vstd::prelude::*;

verus! {

/// `serde_json::Error`, carried through as an opaque value.
#[verifier::external_type_specification]
#[verifier::external_body]
pub struct ExJsonError(serde_json::Error);

/// The bytes that `serde_json::to_vec` writes for the string `s`.
pub uninterp spec fn json_text_of(s: Seq<char>) -> Seq<u8>;

/// The string that `serde_json::from_slice::<String>` reads from `text`, or
/// `None` where it reports an error.
pub uninterp spec fn json_string_in(text: Seq<u8>) -> Option<Seq<char>>;

/// Calls `serde_json::to_vec` on a string slice. The call succeeds: the
/// only failure on the way is one of the writer, and the writer is a
/// `Vec<u8>`, which takes whatever is written to it. The bytes are the ones
/// named `json_text_of`.
#[verifier::external_body]
pub(crate) fn write_json_string(s: &str) -> (r: Result<Vec<u8>, serde_json::Error>)
    ensures
        r is Ok,
        r matches Ok(text) ==> text@ == json_text_of(s@),
{
    serde_json::to_vec(s)
}

/// Calls `serde_json::from_slice::<String>`. The call succeeds exactly when
/// `json_string_in` names a string for these bytes, and then returns it.
#[verifier::external_body]
pub(crate) fn read_json_string(text: &[u8]) -> (r: Result<String, serde_json::Error>)
    ensures
        match r {
            Ok(s) => json_string_in(text@) == Some(s@),
            Err(_) => json_string_in(text@) is None,
        },
{
    serde_json::from_slice::<String>(text)
}

/// Calls `serde::de::Error::custom` to make a `serde_json::Error` that
/// carries `msg`. Nothing is claimed about the error value.
#[verifier::external_body]
pub(crate) fn json_error(msg: &str) -> serde_json::Error {
    serde::de::Error::custom(msg)
}

} // verus!
