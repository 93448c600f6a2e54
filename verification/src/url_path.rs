//! Normalising the target of a request with the `url` crate.

use vstd::prelude::*;

verus! {

/// The path of the URL that `reference` denotes when it is resolved against
/// the URL `base`, as the `url` crate parses and serialises it (dot
/// segments collapsed, query and fragment cut off, bytes outside the path
/// set percent-encoded); `None` where the crate rejects the base or the
/// reference.
pub uninterp spec fn url_path(base: Seq<char>, reference: Seq<char>) -> Option<Seq<char>>;

/// Calls `Url::parse` of the `url` crate on the base, then
/// `Url::options().base_url(..).parse(..)` on the reference, then
/// `Url::path`. Trusted: the result is [`url_path`] of the two, and
/// nothing more.
#[verifier::external_body]
pub(crate) fn normalized_path(base: &str, reference: &str) -> (path: Option<String>)
    ensures
        path matches Some(p) ==> url_path(base@, reference@) == Some(p@),
        path is None ==> url_path(base@, reference@) is None,
{
    match url::Url::parse(base) {
        Ok(base) => match url::Url::options().base_url(Some(&base)).parse(reference) {
            Ok(url) => Some(url.path().to_owned()),
            Err(_) => None,
        },
        Err(_) => None,
    }
}

} // verus!
