//! What the server does with a request once its path is resolved.

use crate::http::{BodyView, HttpMethod, HttpResponse, HttpResponseBody, HttpStatus, ResponseView};
use crate::dirs_index::DirsIndex;
use crate::mime::{guess_mime, guessed_mime};
use crate::resolve::{
    are_candidates, dir_suffix, existing, file_in, file_name, lemma_candidates_are_distinct,
    lemma_one_file_among, resolution, says_file,
};
use crate::text::ends_with;
use crate::tree::{
    is_proper_listing, lemma_index_counts_directories, lemma_tree_dirs_are_tidy, tree_dirs,
    TreeEntry,
};
use vstd::prelude::*;
use vstd::utf8::*;

verus! {

/// The answer to `GET` for the file at `path`: its content under the media
/// type guessed from the path, or `500 Internal Server Error` where the
/// file could not be read.
pub open spec fn get_response(path: Seq<char>, content: Option<Seq<u8>>) -> ResponseView {
    match content {
        Some(bytes) => ResponseView::ok(encode_utf8(guessed_mime(path)), BodyView::Content(bytes)),
        None => ResponseView::internal_server_error(),
    }
}

/// The answer to `HEAD` for the file at `path`: as to `GET`, with the
/// content's length in place of the content.
pub open spec fn head_response(path: Seq<char>, content: Option<Seq<u8>>) -> ResponseView {
    match content {
        Some(bytes) => ResponseView::ok(
            encode_utf8(guessed_mime(path)),
            BodyView::Length(bytes.len()),
        ),
        None => ResponseView::internal_server_error(),
    }
}

/// Answers `GET` for the file at `path`, given what reading it gave.
pub fn get_file(path: &str, content: Option<Vec<u8>>) -> (response: HttpResponse)
    ensures
        response@ == get_response(
            path@,
            match content {
                Some(bytes) => Some(bytes@),
                None => None,
            },
        ),
{
    match content {
        Some(bytes) => HttpResponse::ok(guess_mime(path), HttpResponseBody::Content(bytes)),
        None => HttpResponse::internal_server_error(),
    }
}

/// Answers `HEAD` for the file at `path`, given what reading it gave.
pub fn head_file(path: &str, content: Option<Vec<u8>>) -> (response: HttpResponse)
    ensures
        response@ == head_response(
            path@,
            match content {
                Some(bytes) => Some(bytes@),
                None => None,
            },
        ),
{
    match content {
        Some(bytes) => HttpResponse::ok(guess_mime(path), HttpResponseBody::Length(bytes.len())),
        None => HttpResponse::internal_server_error(),
    }
}

/// On the wire, the answer to `GET` is the answer to `HEAD` followed by the
/// content of the file: the two announce the same length, and `HEAD` sends
/// no byte of a body.
pub proof fn lemma_get_is_head_and_content(path: Seq<char>, content: Seq<u8>)
    ensures
        get_response(path, Some(content)).wire_bytes() == head_response(
            path,
            Some(content),
        ).wire_bytes() + content,
        head_response(path, Some(content)).body.len() == content.len(),
        head_response(path, Some(content)).body.sent() == Seq::<u8>::empty(),
{
    let head = head_response(path, Some(content));
    assert(head.wire_bytes() + content =~= get_response(path, Some(content)).wire_bytes());
}

/// What the server needs of a resolved file before it can go on.
#[derive(Debug, Clone, Copy, PartialEq, Eq, Hash, Structural)]
pub enum Fetch {
    /// The content of the file.
    Content,
    /// The time at which the file was last modified.
    ModificationTime,
}

/// What a request of this method needs of the file: `WATCH` starts with
/// the modification time, the others with the content.
pub fn fetch_for(method: HttpMethod) -> (fetch: Fetch)
    ensures
        fetch == if method == HttpMethod::Watch {
            Fetch::ModificationTime
        } else {
            Fetch::Content
        },
{
    match method {
        HttpMethod::Watch => Fetch::ModificationTime,
        _ => Fetch::Content,
    }
}

/// The answer to a request of the given method for the file at `path`:
/// `HEAD` is answered without a body; `WATCH`, once the file has changed,
/// as `GET` is.
pub open spec fn response_to(
    method: HttpMethod,
    path: Seq<char>,
    content: Option<Seq<u8>>,
) -> ResponseView {
    if method == HttpMethod::Head {
        head_response(path, content)
    } else {
        get_response(path, content)
    }
}

/// Answers a request of the given method for the file at `path`, given
/// what reading the file gave.
pub fn respond(method: HttpMethod, path: &str, content: Option<Vec<u8>>) -> (response:
    HttpResponse)
    ensures
        response@ == response_to(
            method,
            path@,
            match content {
                Some(bytes) => Some(bytes@),
                None => None,
            },
        ),
{
    match method {
        HttpMethod::Head => head_file(path, content),
        _ => get_file(path, content),
    }
}

/// Whether the index has been built anew for the request at hand.
#[derive(Debug, Clone, Copy, PartialEq, Eq, Hash, Structural)]
pub enum Attempt {
    /// The request is resolved against the index as it stands.
    First,
    /// The index was built anew after a miss.
    Retry,
}

/// What follows a resolution.
#[derive(Debug)]
pub enum Step {
    /// The request names this file: go on with it.
    Serve(String),
    /// The file was not found and the index may be out of date. Build it
    /// anew and resolve once more, as a retry; if it cannot be built,
    /// answer with this response.
    Rebuild(HttpResponse),
    /// Answer with this response.
    Respond(HttpResponse),
}

/// The mathematical value of a [`Step`]; the file is a byte string.
pub enum StepView {
    Serve(Seq<u8>),
    Rebuild(ResponseView),
    Respond(ResponseView),
}

impl View for Step {
    type V = StepView;

    open spec fn view(&self) -> StepView {
        match self {
            Step::Serve(file) => StepView::Serve(encode_utf8(file@)),
            Step::Rebuild(response) => StepView::Rebuild(response@),
            Step::Respond(response) => StepView::Respond(response@),
        }
    }
}

/// The step after a resolution: a miss on the first attempt asks for the
/// index to be built anew, once; any other failure is final.
pub open spec fn step_after(attempt: Attempt, resolved: Result<Seq<u8>, ResponseView>) -> StepView {
    match resolved {
        Ok(file) => StepView::Serve(file),
        Err(response) => if attempt == Attempt::First && response.status
            == HttpStatus::NotFound {
            StepView::Rebuild(response)
        } else {
            StepView::Respond(response)
        },
    }
}

/// Decides what follows a resolution.
pub fn after_resolution(attempt: Attempt, resolved: Result<String, HttpResponse>) -> (step: Step)
    ensures
        step@ == step_after(
            attempt,
            match resolved {
                Ok(file) => Ok(encode_utf8(file@)),
                Err(response) => Err(response@),
            },
        ),
{
    match resolved {
        Ok(file) => Step::Serve(file),
        Err(response) => {
            if attempt == Attempt::First && response.is_not_found() {
                Step::Rebuild(response)
            } else {
                Step::Respond(response)
            }
        },
    }
}

/// A file that is created after a miss is served after one rebuild.
///
/// A request whose candidates hold no regular file is not answered at
/// once: the first miss asks for the index to be built anew. Let the index
/// then be that of a tree, as a file system gives it, with a directory
/// whose path ends as the request path asks, and let the file that the
/// request names in that directory be the one candidate that is a regular
/// file. Then the request resolves to that file, the retry serves it, and
/// `GET` is answered with `200 OK` and the bytes of the file. A retry never
/// asks for another rebuild.
pub proof fn lemma_created_file_is_served_after_rebuild(
    index: &DirsIndex,
    entries: Seq<TreeEntry>,
    path: Seq<u8>,
    inner: Seq<u8>,
    missed: Seq<Seq<u8>>,
    missed_is_file: Seq<bool>,
    candidates: Seq<Seq<u8>>,
    is_file: Seq<bool>,
    text: Seq<char>,
    content: Seq<u8>,
)
    requires
        existing(missed, missed_is_file).len() == 0,
        is_proper_listing(entries),
        index.entries() == tree_dirs(entries),
        tree_dirs(entries).contains(inner),
        ends_with(inner, dir_suffix(path)),
        are_candidates(index, path, candidates),
        forall|i: int|
            0 <= i < candidates.len() ==> (#[trigger] says_file(is_file, i) <==> candidates[i]
                == file_in(index.root(), inner, file_name(path))),
    ensures
        step_after(Attempt::First, resolution(missed, missed_is_file)) == StepView::Rebuild(
            ResponseView::not_found(),
        ),
        resolution(candidates, is_file) == Ok::<Seq<u8>, ResponseView>(
            file_in(index.root(), inner, file_name(path)),
        ),
        step_after(Attempt::Retry, resolution(candidates, is_file)) == StepView::Serve(
            file_in(index.root(), inner, file_name(path)),
        ),
        response_to(HttpMethod::Get, text, Some(content)).status == HttpStatus::Success,
        response_to(HttpMethod::Get, text, Some(content)).body == BodyView::Content(content),
        forall|resolved: Result<Seq<u8>, ResponseView>|
            !(#[trigger] step_after(Attempt::Retry, resolved) is Rebuild),
{
    let file = file_in(index.root(), inner, file_name(path));
    lemma_index_counts_directories(entries);
    lemma_tree_dirs_are_tidy(entries);
    lemma_candidates_are_distinct(index, path, candidates);
    assert(index.matching(dir_suffix(path)).contains(inner));
    assert(candidates.contains(file));
    let at = choose|at: int| 0 <= at < candidates.len() && candidates[at] == file;
    assert forall|i: int| 0 <= i < candidates.len() implies (#[trigger] says_file(is_file, i)
        <==> i == at) by {
        if candidates[i] == file && i != at {
            assert(candidates[i] == candidates[at]);
        }
    }
    lemma_one_file_among(candidates, is_file, at);
}

} // verus!
