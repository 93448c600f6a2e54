//! The plain file server: every path is served from the working directory,
//! as it stands.

use crate::error::{Error, ErrorView};
use crate::http::HttpStatus;
use crate::mime::{guess_mime, guessed_mime};
use crate::path::{text_of, SLASH};
use crate::text::push_bytes;
use vstd::prelude::*;
use vstd::string::*;
use vstd::utf8::*;

verus! {

/// The file that the path of a URL names below the working directory: the
/// path behind a dot, and `index.html` in a path that ends with a slash.
pub open spec fn served_path(url_path: Seq<u8>) -> Seq<u8> {
    if url_path.len() > 0 && url_path.last() == SLASH {
        ".".spec_bytes() + url_path + "index.html".spec_bytes()
    } else {
        ".".spec_bytes() + url_path
    }
}

/// The file that the path of a URL names below the working directory.
pub fn local_path(url_path: &str) -> (path: String)
    ensures
        encode_utf8(path@) == served_path(url_path.spec_bytes()),
{
    let target = url_path.as_bytes();
    let mut path: Vec<u8> = Vec::new();
    push_bytes(&mut path, ".".as_bytes());
    push_bytes(&mut path, target);
    proof {
        encode_utf8_valid_utf8("."@);
        encode_utf8_valid_utf8(url_path@);
        encode_utf8_valid_utf8("index.html"@);
        valid_utf8_concat(".".spec_bytes(), target@);
        valid_utf8_concat(".".spec_bytes() + target@, "index.html".spec_bytes());
    }
    if target.len() > 0 && target[target.len() - 1] == SLASH {
        push_bytes(&mut path, "index.html".as_bytes());
    }
    text_of(path.as_slice())
}

/// What is sent back for a request: a status, a body, and the media type
/// of the body where one is announced.
#[derive(Debug)]
pub struct Reply {
    pub status: HttpStatus,
    pub content_type: Option<String>,
    pub body: Vec<u8>,
}

/// The mathematical value of a [`Reply`].
pub struct ReplyView {
    pub status: HttpStatus,
    pub content_type: Option<Seq<char>>,
    pub body: Seq<u8>,
}

impl View for Reply {
    type V = ReplyView;

    open spec fn view(&self) -> ReplyView {
        ReplyView {
            status: self.status,
            content_type: match self.content_type {
                Some(mime) => Some(mime@),
                None => None,
            },
            body: self.body@,
        }
    }
}

/// The reply to a request for the file at `path`: its content under the
/// media type guessed from the path; for a file that could not be read, the
/// status of the failure with the failure's text as the body.
pub open spec fn reply_to(path: Seq<char>, read: Result<Seq<u8>, ErrorView>) -> ReplyView {
    match read {
        Ok(content) => ReplyView {
            status: HttpStatus::Success,
            content_type: Some(guessed_mime(path)),
            body: content,
        },
        Err(error) => ReplyView {
            status: error.kind.status(),
            content_type: None,
            body: error.message,
        },
    }
}

/// Replies to `GET` and to `HEAD` for the file at `path`, given what
/// reading it gave.
pub fn handle_get(path: &str, read: Result<Vec<u8>, Error>) -> (reply: Reply)
    ensures
        reply@ == reply_to(
            path@,
            match read {
                Ok(content) => Ok(content@),
                Err(error) => Err(error@),
            },
        ),
{
    match read {
        Err(error) => {
            let status = error.to_http_status();
            let body = error.message().as_bytes_vec();
            Reply { status, content_type: None, body }
        },
        Ok(content) => Reply {
            status: HttpStatus::Success,
            content_type: Some(guess_mime(path)),
            body: content,
        },
    }
}

} // verus!
