//! Reading bytes as text.

use vstd::prelude::*;
use vstd::string::*;
use vstd::utf8::*;

verus! {

/// Calls `core::str::from_utf8`. Trusted: the call answers with a text
/// exactly when `bytes` are well-formed UTF-8, and that text is then encoded
/// by those same bytes.
#[verifier::external_body]
pub(crate) fn str_from_utf8(bytes: &[u8]) -> (text: Option<&str>)
    ensures
        text is Some <==> valid_utf8(bytes@),
        text matches Some(s) ==> s.spec_bytes() == bytes@,
{
    core::str::from_utf8(bytes).ok()
}

} // verus!
