//! Guessing a media type from a file name with the `mime_guess` crate.

use vstd::prelude::*;

verus! {

/// The media type that the `mime_guess` crate gives for a path by its
/// extension, in its textual form; `application/octet-stream` where it knows
/// none.
pub uninterp spec fn guessed_mime(path: Seq<char>) -> Seq<char>;

/// Calls `mime_guess::from_path(..).first_or_octet_stream()` and renders the
/// media type as text. Trusted: the result is [`guessed_mime`] of the path;
/// the guess looks at the path's text alone and never at the disk.
#[verifier::external_body]
pub(crate) fn guess_mime(path: &str) -> (mime: String)
    ensures
        mime@ == guessed_mime(path@),
{
    mime_guess::from_path(path).first_or_octet_stream().to_string()
}

} // verus!
