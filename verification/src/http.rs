//! The subset of HTTP/1.1 that the server speaks.

use crate::path::{absolute, is_absolute_path, text_of, SLASH};
use crate::percent::{percent_decode, percent_decoded};
use crate::text::{
    decimal_digits, ends_with, find_from, first_occurrence, has_prefix, has_suffix,
    is_first_occurrence, lemma_ascii_byte_is_boundary, lemma_decimal_is_utf8,
    lemma_first_occurrence_is, lemma_line_len_bounds,
    line_end, line_len, occurs_at, part_between, push_bytes, push_decimal, same_bytes,
    starts_with,
};
use crate::url_path::{normalized_path, url_path};
use crate::utf8::str_from_utf8;
use vstd::prelude::*;
use vstd::slice::slice_subrange;
use vstd::string::*;
use vstd::utf8::*;

verus! {

/// The request methods that the server answers.
#[derive(Debug, Clone, Copy, PartialEq, Eq, Hash, Structural)]
pub enum HttpMethod {
    Head,
    Get,
    /// Not a method of HTTP: answers like `GET`, once the file has changed.
    Watch,
}

/// The status lines that the server sends.
#[derive(Debug, Clone, Copy, PartialEq, Eq, Hash, Structural)]
pub enum HttpStatus {
    /// `200 OK`.
    Success,
    MultipleChoices,
    BadRequest,
    NotFound,
    MethodNotAllowed,
    InternalServerError,
}

impl HttpStatus {
    /// The status code followed by its reason phrase, as sent on the wire.
    pub open spec fn text(self) -> Seq<u8> {
        match self {
            HttpStatus::Success => "200 OK".spec_bytes(),
            HttpStatus::MultipleChoices => "303 Multiple Choices".spec_bytes(),
            HttpStatus::BadRequest => "400 Bad Request".spec_bytes(),
            HttpStatus::NotFound => "404 Not Found".spec_bytes(),
            HttpStatus::MethodNotAllowed => "405 Method Not Allowed".spec_bytes(),
            HttpStatus::InternalServerError => "500 Internal Server Error".spec_bytes(),
        }
    }

    /// The numeric status code.
    pub open spec fn spec_code(self) -> u16 {
        match self {
            HttpStatus::Success => 200,
            HttpStatus::MultipleChoices => 303,
            HttpStatus::BadRequest => 400,
            HttpStatus::NotFound => 404,
            HttpStatus::MethodNotAllowed => 405,
            HttpStatus::InternalServerError => 500,
        }
    }

    /// The status code followed by its reason phrase.
    pub fn as_str(self) -> (text: &'static str)
        ensures
            text.spec_bytes() == self.text(),
    {
        match self {
            HttpStatus::Success => "200 OK",
            HttpStatus::MultipleChoices => "303 Multiple Choices",
            HttpStatus::BadRequest => "400 Bad Request",
            HttpStatus::NotFound => "404 Not Found",
            HttpStatus::MethodNotAllowed => "405 Method Not Allowed",
            HttpStatus::InternalServerError => "500 Internal Server Error",
        }
    }

    /// The numeric status code.
    #[verifier::when_used_as_spec(spec_code)]
    pub fn code(self) -> (code: u16)
        ensures
            code == self.spec_code(),
    {
        match self {
            HttpStatus::Success => 200,
            HttpStatus::MultipleChoices => 303,
            HttpStatus::BadRequest => 400,
            HttpStatus::NotFound => 404,
            HttpStatus::MethodNotAllowed => 405,
            HttpStatus::InternalServerError => 500,
        }
    }
}

/// What a response carries after its head.
#[derive(Debug)]
pub enum HttpResponseBody {
    /// These bytes are sent.
    Content(Vec<u8>),
    /// Nothing is sent; a body of this length is announced.
    Length(usize),
}

/// The mathematical value of a [`HttpResponseBody`].
pub enum BodyView {
    Content(Seq<u8>),
    Length(nat),
}

impl BodyView {
    /// The length that the response announces.
    pub open spec fn len(self) -> nat {
        match self {
            BodyView::Content(bytes) => bytes.len(),
            BodyView::Length(n) => n,
        }
    }

    /// The bytes that follow the head on the wire.
    pub open spec fn sent(self) -> Seq<u8> {
        match self {
            BodyView::Content(bytes) => bytes,
            BodyView::Length(_) => Seq::empty(),
        }
    }
}

impl View for HttpResponseBody {
    type V = BodyView;

    open spec fn view(&self) -> BodyView {
        match self {
            HttpResponseBody::Content(bytes) => BodyView::Content(bytes@),
            HttpResponseBody::Length(n) => BodyView::Length(*n as nat),
        }
    }
}

impl HttpResponseBody {
    /// Whether the announced length is zero.
    pub fn is_empty(&self) -> (empty: bool)
        ensures
            empty == (self@.len() == 0),
    {
        self.len() == 0
    }

    /// The length that the response announces: that of the content, or the
    /// length that stands for a body that is not sent.
    pub fn len(&self) -> (len: usize)
        ensures
            len == self@.len(),
    {
        match self {
            HttpResponseBody::Content(x) => x.len(),
            HttpResponseBody::Length(x) => *x,
        }
    }
}

/// The mathematical value of a [`HttpResponse`]: header names and values are
/// byte strings.
pub struct ResponseView {
    pub status: HttpStatus,
    pub header: Seq<(Seq<u8>, Seq<u8>)>,
    pub body: BodyView,
}

/// The lines of the given header fields, each `name: value` and closed by
/// CR LF, in order.
pub open spec fn header_lines(fields: Seq<(Seq<u8>, Seq<u8>)>) -> Seq<u8>
    decreases fields.len(),
{
    if fields.len() == 0 {
        Seq::empty()
    } else {
        header_lines(fields.drop_last()) + fields.last().0 + ": ".spec_bytes() + fields.last().1
            + "\r\n".spec_bytes()
    }
}

impl ResponseView {
    /// The response as it goes over the wire: the status line, the
    /// announced length, `Connection: close`, the response's own header
    /// fields, an empty line, and the body bytes if there are any to send.
    pub open spec fn wire_bytes(self) -> Seq<u8> {
        "HTTP/1.1 ".spec_bytes() + self.status.text() + "\r\n".spec_bytes()
            + "Content-Length: ".spec_bytes() + decimal_digits(self.body.len()) + "\r\n".spec_bytes()
            + "Connection: close\r\n".spec_bytes() + header_lines(self.header)
            + "\r\n".spec_bytes() + self.body.sent()
    }

    /// A line for a log: the status and the announced length, without the
    /// header fields and the content.
    pub open spec fn summary(self) -> Seq<u8> {
        "HttpResponse { status: \"".spec_bytes() + self.status.text() + "\", body: ".spec_bytes()
            + decimal_digits(self.body.len()) + " bytes }".spec_bytes()
    }

    /// `400 Bad Request`, with the reason phrase as its body.
    pub open spec fn bad_request() -> ResponseView {
        ResponseView {
            status: HttpStatus::BadRequest,
            header: Seq::empty(),
            body: BodyView::Content("Bad Request".spec_bytes()),
        }
    }

    /// `404 Not Found`, with the reason phrase as its body.
    pub open spec fn not_found() -> ResponseView {
        ResponseView {
            status: HttpStatus::NotFound,
            header: Seq::empty(),
            body: BodyView::Content("Not Found".spec_bytes()),
        }
    }

    /// `405 Method Not Allowed`, with the header field `Allow: GET, HEAD`
    /// and the reason phrase as its body.
    pub open spec fn method_not_allowed() -> ResponseView {
        ResponseView {
            status: HttpStatus::MethodNotAllowed,
            header: seq![("Allow".spec_bytes(), "GET, HEAD".spec_bytes())],
            body: BodyView::Content("Method Not Allowed".spec_bytes()),
        }
    }

    /// `303 Multiple Choices`, with a body that gives the number of
    /// candidates in decimal.
    pub open spec fn multiple_choices(candidates: nat) -> ResponseView {
        ResponseView {
            status: HttpStatus::MultipleChoices,
            header: Seq::empty(),
            body: BodyView::Content(
                "Multiple Choices: ".spec_bytes() + decimal_digits(candidates)
                    + " candidates".spec_bytes(),
            ),
        }
    }

    /// `500 Internal Server Error`, with the reason phrase as its body.
    pub open spec fn internal_server_error() -> ResponseView {
        ResponseView {
            status: HttpStatus::InternalServerError,
            header: Seq::empty(),
            body: BodyView::Content("Internal Server Error".spec_bytes()),
        }
    }

    /// `200 OK` with the given body and the header field `Content-Type`
    /// for its media type.
    pub open spec fn ok(mime: Seq<u8>, body: BodyView) -> ResponseView {
        ResponseView {
            status: HttpStatus::Success,
            header: seq![("Content-Type".spec_bytes(), mime)],
            body,
        }
    }
}

/// A response: a status, the header fields that belong to it alone, and a
/// body. The announced length and `Connection: close` are not stored: they
/// are written with every response.
#[derive(Debug)]
pub struct HttpResponse {
    status: HttpStatus,
    header: Vec<(&'static str, String)>,
    body: HttpResponseBody,
}

/// The byte-string value of one stored header field.
pub open spec fn field_view(field: (&'static str, String)) -> (Seq<u8>, Seq<u8>) {
    (field.0.spec_bytes(), encode_utf8(field.1@))
}

impl View for HttpResponse {
    type V = ResponseView;

    closed spec fn view(&self) -> ResponseView {
        ResponseView {
            status: self.status,
            header: self.header@.map_values(|f: (&'static str, String)| field_view(f)),
            body: self.body@,
        }
    }
}

impl HttpResponse {
    /// `400 Bad Request`, with the reason phrase as its body.
    pub fn bad_request() -> (response: Self)
        ensures
            response@ == ResponseView::bad_request(),
    {
        let response = Self {
            status: HttpStatus::BadRequest,
            header: Vec::new(),
            body: HttpResponseBody::Content("Bad Request".as_bytes_vec()),
        };
        assert(response@.header =~= Seq::empty());
        response
    }

    /// `404 Not Found`, with the reason phrase as its body.
    pub fn not_found() -> (response: Self)
        ensures
            response@ == ResponseView::not_found(),
    {
        let response = Self {
            status: HttpStatus::NotFound,
            header: Vec::new(),
            body: HttpResponseBody::Content("Not Found".as_bytes_vec()),
        };
        assert(response@.header =~= Seq::empty());
        response
    }

    /// `405 Method Not Allowed`, naming the methods of HTTP that are served.
    pub fn method_not_allowed() -> (response: Self)
        ensures
            response@ == ResponseView::method_not_allowed(),
    {
        let mut header: Vec<(&'static str, String)> = Vec::new();
        header.push(("Allow", "GET, HEAD".to_owned()));
        let response = Self {
            status: HttpStatus::MethodNotAllowed,
            header,
            body: HttpResponseBody::Content("Method Not Allowed".as_bytes_vec()),
        };
        assert(response@.header =~= seq![("Allow".spec_bytes(), "GET, HEAD".spec_bytes())]);
        response
    }

    /// `303 Multiple Choices`: the request fits `candidates` files, and the
    /// body says how many.
    pub fn multiple_choices(candidates: usize) -> (response: Self)
        ensures
            response@ == ResponseView::multiple_choices(candidates as nat),
    {
        let mut body: Vec<u8> = Vec::new();
        push_bytes(&mut body, "Multiple Choices: ".as_bytes());
        push_decimal(&mut body, candidates);
        push_bytes(&mut body, " candidates".as_bytes());
        let response = Self {
            status: HttpStatus::MultipleChoices,
            header: Vec::new(),
            body: HttpResponseBody::Content(body),
        };
        assert(response@.header =~= Seq::empty());
        assert(body@ =~= "Multiple Choices: ".spec_bytes() + decimal_digits(candidates as nat)
            + " candidates".spec_bytes());
        response
    }

    /// `500 Internal Server Error`, with the reason phrase as its body.
    pub fn internal_server_error() -> (response: Self)
        ensures
            response@ == ResponseView::internal_server_error(),
    {
        let response = Self {
            status: HttpStatus::InternalServerError,
            header: Vec::new(),
            body: HttpResponseBody::Content("Internal Server Error".as_bytes_vec()),
        };
        assert(response@.header =~= Seq::empty());
        response
    }

    /// `200 OK` with the given body, announced as of the media type `mime`.
    pub fn ok(mime: String, body: HttpResponseBody) -> (response: Self)
        ensures
            response@ == ResponseView::ok(encode_utf8(mime@), body@),
    {
        let ghost mime_bytes = encode_utf8(mime@);
        let mut header: Vec<(&'static str, String)> = Vec::new();
        header.push(("Content-Type", mime));
        let response = Self { status: HttpStatus::Success, header, body };
        assert(response@.header =~= seq![("Content-Type".spec_bytes(), mime_bytes)]);
        response
    }

    /// Whether this is a `404 Not Found`.
    pub fn is_not_found(&self) -> (missing: bool)
        ensures
            missing == (self@.status == HttpStatus::NotFound),
    {
        self.status == HttpStatus::NotFound
    }

    /// The status of the response.
    pub fn status(&self) -> (status: HttpStatus)
        ensures
            status == self@.status,
    {
        self.status
    }

    /// The body of the response.
    pub fn body(&self) -> (body: &HttpResponseBody)
        ensures
            body@ == self@.body,
    {
        &self.body
    }

    /// A line for a log: the status and the announced length.
    pub fn summary(&self) -> (line: String)
        ensures
            encode_utf8(line@) == self@.summary(),
    {
        let mut line: Vec<u8> = Vec::new();
        let status_text = self.status.as_str();
        push_bytes(&mut line, "HttpResponse { status: \"".as_bytes());
        push_bytes(&mut line, status_text.as_bytes());
        push_bytes(&mut line, "\", body: ".as_bytes());
        push_decimal(&mut line, self.body.len());
        push_bytes(&mut line, " bytes }".as_bytes());
        proof {
            let open = "HttpResponse { status: \"".spec_bytes();
            let status = status_text.spec_bytes();
            let middle = "\", body: ".spec_bytes();
            let digits = decimal_digits(self@.body.len());
            let close = " bytes }".spec_bytes();
            encode_utf8_valid_utf8("HttpResponse { status: \""@);
            encode_utf8_valid_utf8(status_text@);
            encode_utf8_valid_utf8("\", body: "@);
            encode_utf8_valid_utf8(" bytes }"@);
            lemma_decimal_is_utf8(self@.body.len());
            valid_utf8_concat(open, status);
            valid_utf8_concat(open + status, middle);
            valid_utf8_concat(open + status + middle, digits);
            valid_utf8_concat(open + status + middle + digits, close);
            assert(line@ =~= open + status + middle + digits + close);
        }
        text_of(line.as_slice())
    }

    /// Appends the response to `writer` as it goes over the wire.
    pub fn to_writer(&self, writer: &mut Vec<u8>)
        ensures
            final(writer)@ == old(writer)@ + self@.wire_bytes(),
    {
        let ghost start = writer@;
        let ghost mut sent = Seq::<u8>::empty();
        assert(start + sent =~= start);
        put(writer, "HTTP/1.1 ".as_bytes(), Ghost(start), Ghost(sent));
        proof {
            sent = sent + "HTTP/1.1 ".spec_bytes();
            assert(sent =~= "HTTP/1.1 ".spec_bytes());
        }
        put(writer, self.status.as_str().as_bytes(), Ghost(start), Ghost(sent));
        proof {
            sent = sent + self@.status.text();
        }
        put(writer, "\r\n".as_bytes(), Ghost(start), Ghost(sent));
        proof {
            sent = sent + "\r\n".spec_bytes();
        }
        put(writer, "Content-Length: ".as_bytes(), Ghost(start), Ghost(sent));
        proof {
            sent = sent + "Content-Length: ".spec_bytes();
        }
        let ghost before_length = writer@;
        push_decimal(writer, self.body.len());
        proof {
            let digits = decimal_digits(self@.body.len());
            assert(before_length + digits =~= start + (sent + digits));
            sent = sent + digits;
        }
        put(writer, "\r\n".as_bytes(), Ghost(start), Ghost(sent));
        proof {
            sent = sent + "\r\n".spec_bytes();
        }
        put(writer, "Connection: close\r\n".as_bytes(), Ghost(start), Ghost(sent));
        proof {
            sent = sent + "Connection: close\r\n".spec_bytes();
        }
        let ghost head = sent;
        let mut i: usize = 0;
        assert(self@.header.subrange(0, 0) =~= Seq::empty());
        assert(head + header_lines(Seq::empty()) =~= head);
        while i < self.header.len()
            invariant
                i <= self.header@.len(),
                writer@ == start + sent,
                sent == head + header_lines(self@.header.subrange(0, i as int)),
            decreases self.header@.len() - i,
        {
            let ghost fields = self@.header.subrange(0, i + 1);
            let ghost lines = header_lines(self@.header.subrange(0, i as int));
            let ghost at_field = sent;
            let field = &self.header[i];
            put(writer, field.0.as_bytes(), Ghost(start), Ghost(sent));
            proof {
                sent = sent + field.0.spec_bytes();
            }
            put(writer, ": ".as_bytes(), Ghost(start), Ghost(sent));
            proof {
                sent = sent + ": ".spec_bytes();
            }
            put(writer, field.1.as_str().as_bytes(), Ghost(start), Ghost(sent));
            proof {
                sent = sent + encode_utf8(field.1@);
            }
            put(writer, "\r\n".as_bytes(), Ghost(start), Ghost(sent));
            proof {
                sent = sent + "\r\n".spec_bytes();
                assert(fields.drop_last() =~= self@.header.subrange(0, i as int));
                assert(fields.last() == field_view(*field));
                assert(header_lines(fields) == lines + fields.last().0 + ": ".spec_bytes()
                    + fields.last().1 + "\r\n".spec_bytes());
                assert(sent == at_field + fields.last().0 + ": ".spec_bytes() + fields.last().1
                    + "\r\n".spec_bytes());
                lemma_lines_follow(
                    head,
                    lines,
                    fields.last().0,
                    ": ".spec_bytes(),
                    fields.last().1,
                    "\r\n".spec_bytes(),
                );
            }
            i = i + 1;
        }
        assert(self@.header.subrange(0, i as int) =~= self@.header);
        put(writer, "\r\n".as_bytes(), Ghost(start), Ghost(sent));
        proof {
            sent = sent + "\r\n".spec_bytes();
        }
        match &self.body {
            HttpResponseBody::Content(content) => {
                put(writer, content.as_slice(), Ghost(start), Ghost(sent));
                proof {
                    sent = sent + content@;
                }
            },
            HttpResponseBody::Length(_) => {
                proof {
                    assert(sent + Seq::<u8>::empty() =~= sent);
                }
            },
        }
        assert(sent == self@.wire_bytes());
    }
}

/// Appends `bytes` to `writer`, which holds `sent` behind `start`.
fn put(writer: &mut Vec<u8>, bytes: &[u8], Ghost(start): Ghost<Seq<u8>>, Ghost(sent): Ghost<Seq<u8>>)
    requires
        old(writer)@ == start + sent,
    ensures
        final(writer)@ == start + (sent + bytes@),
{
    push_bytes(writer, bytes);
    assert(start + sent + bytes@ =~= start + (sent + bytes@));
}

/// Four pieces behind the lines that follow a head are four pieces behind
/// the head and the lines.
proof fn lemma_lines_follow(
    head: Seq<u8>,
    lines: Seq<u8>,
    a: Seq<u8>,
    b: Seq<u8>,
    c: Seq<u8>,
    d: Seq<u8>,
)
    ensures
        head + lines + a + b + c + d == head + (lines + a + b + c + d),
{
    assert(head + lines + a + b + c + d =~= head + (lines + a + b + c + d));
}

/// The protocol marker that closes every request line that is served.
pub open spec fn protocol_marker() -> Seq<u8> {
    " HTTP/1.1\r\n".spec_bytes()
}

/// The method's name and the space after it, as a request line begins.
pub open spec fn method_token(method: HttpMethod) -> Seq<u8> {
    match method {
        HttpMethod::Get => "GET ".spec_bytes(),
        HttpMethod::Head => "HEAD ".spec_bytes(),
        HttpMethod::Watch => "WATCH ".spec_bytes(),
    }
}

/// The method that a request line begins with, if it is one that is served.
pub open spec fn line_method(line: Seq<u8>) -> Option<HttpMethod> {
    if starts_with(line, method_token(HttpMethod::Get)) {
        Some(HttpMethod::Get)
    } else if starts_with(line, method_token(HttpMethod::Head)) {
        Some(HttpMethod::Head)
    } else if starts_with(line, method_token(HttpMethod::Watch)) {
        Some(HttpMethod::Watch)
    } else {
        None
    }
}

/// How a request line reads, before its target is normalised.
pub enum RequestLine {
    /// The line does not end with the protocol marker, or its target does
    /// not begin with a slash.
    Malformed,
    /// The line is well closed but begins with no method that is served.
    UnknownMethod,
    /// The method, and the target: the bytes between the method and the
    /// first protocol marker.
    Target(HttpMethod, Seq<u8>),
}

/// Reads a request line. The protocol marker is looked at first, then the
/// method, then the first byte of the target.
pub open spec fn request_line(line: Seq<u8>) -> RequestLine {
    if !ends_with(line, protocol_marker()) {
        RequestLine::Malformed
    } else {
        match line_method(line) {
            None => RequestLine::UnknownMethod,
            Some(method) => {
                let rest = line.skip(method_token(method).len() as int);
                if rest.len() > 0 && rest[0] == SLASH {
                    RequestLine::Target(
                        method,
                        rest.take(first_occurrence(rest, protocol_marker())),
                    )
                } else {
                    RequestLine::Malformed
                }
            },
        }
    }
}

/// The mathematical value of a [`HttpRequest`]: the path is a byte string.
pub struct RequestView {
    pub method: HttpMethod,
    pub path: Seq<u8>,
}

/// The URL against which the target of every request is resolved.
pub open spec fn request_base() -> Seq<char> {
    "http://localhost/"@
}

/// The request of the given method for the given path; `400 Bad Request`
/// for a path that is not well-formed UTF-8 or does not begin with a slash.
pub open spec fn request_for(method: HttpMethod, path: Seq<u8>) -> Result<
    RequestView,
    ResponseView,
> {
    if valid_utf8(path) && is_absolute_path(path) {
        Ok(RequestView { method, path })
    } else {
        Err(ResponseView::bad_request())
    }
}

/// What a request line leads to: the request, or the response that turns
/// the request down. The path of the request is the target of the line,
/// normalised as a URL path against [`request_base`] and then
/// percent-decoded.
pub open spec fn request_of_line(line: Seq<u8>) -> Result<RequestView, ResponseView> {
    match request_line(line) {
        RequestLine::Malformed => Err(ResponseView::bad_request()),
        RequestLine::UnknownMethod => Err(ResponseView::method_not_allowed()),
        RequestLine::Target(method, target) => match url_path(
            request_base(),
            decode_utf8(target),
        ) {
            Some(path) => request_for(method, percent_decoded(encode_utf8(path))),
            None => Err(ResponseView::bad_request()),
        },
    }
}

/// The bytes of the three literals that a request line is held against.
proof fn lemma_request_literals()
    ensures
        protocol_marker() == seq![32u8, 72, 84, 84, 80, 47, 49, 46, 49, 13, 10],
        method_token(HttpMethod::Get) == seq![71u8, 69, 84, 32],
        method_token(HttpMethod::Head) == seq![72u8, 69, 65, 68, 32],
        method_token(HttpMethod::Watch) == seq![87u8, 65, 84, 67, 72, 32],
{
    reveal_strlit(" HTTP/1.1\r\n");
    reveal_strlit("GET ");
    reveal_strlit("HEAD ");
    reveal_strlit("WATCH ");
    is_ascii_spec_bytes(" HTTP/1.1\r\n");
    is_ascii_spec_bytes("GET ");
    is_ascii_spec_bytes("HEAD ");
    is_ascii_spec_bytes("WATCH ");
    assert(protocol_marker() =~= seq![32u8, 72, 84, 84, 80, 47, 49, 46, 49, 13, 10]);
    assert(method_token(HttpMethod::Get) =~= seq![71u8, 69, 84, 32]);
    assert(method_token(HttpMethod::Head) =~= seq![72u8, 69, 65, 68, 32]);
    assert(method_token(HttpMethod::Watch) =~= seq![87u8, 65, 84, 67, 72, 32]);
}

/// In a line that ends with the protocol marker and whose target begins with
/// a slash, the closing marker stands behind the method: the slash is not
/// part of it.
proof fn lemma_marker_follows_method(line: Seq<u8>, method: HttpMethod)
    requires
        ends_with(line, protocol_marker()),
        starts_with(line, method_token(method)),
        method_token(method).len() < line.len(),
        line[method_token(method).len() as int] == 0x2f,
    ensures
        method_token(method).len() < line.len() - protocol_marker().len(),
{
    lemma_request_literals();
    let marker = protocol_marker();
    let token = method_token(method);
    let close = line.len() - marker.len();
    let skip = token.len() as int;
    assert(line.subrange(close, close + marker.len()) == marker);
    assert(line.subrange(0, skip) == token);
    if close <= skip {
        let within = skip - close;
        assert(line[skip] == line.subrange(close, close + marker.len())[within]);
        assert(within == 5);
        assert(line[close] == line.subrange(close, close + marker.len())[0]);
        assert(line[close] == line.subrange(0, skip)[close]);
    }
}

/// A pattern stands in the rest of a sequence where it stands in the whole,
/// moved by what was skipped.
proof fn lemma_occurs_at_skip(bytes: Seq<u8>, pattern: Seq<u8>, skip: int, at: int)
    requires
        0 <= skip <= bytes.len(),
        0 <= at,
    ensures
        occurs_at(bytes.skip(skip), pattern, at) == occurs_at(bytes, pattern, skip + at),
{
    if at + pattern.len() <= bytes.len() - skip {
        assert(bytes.skip(skip).subrange(at, at + pattern.len()) =~= bytes.subrange(
            skip + at,
            skip + at + pattern.len(),
        ));
    }
}

/// A request line as it reads, before its target is normalised; the target
/// is a part of the line.
#[derive(Debug)]
pub enum LineParts<'a> {
    Malformed,
    UnknownMethod,
    Target(HttpMethod, &'a str),
}

impl<'a> View for LineParts<'a> {
    type V = RequestLine;

    open spec fn view(&self) -> RequestLine {
        match self {
            LineParts::Malformed => RequestLine::Malformed,
            LineParts::UnknownMethod => RequestLine::UnknownMethod,
            LineParts::Target(method, target) => RequestLine::Target(*method, target.spec_bytes()),
        }
    }
}

/// Reads a request line: `GET`, `HEAD` or `WATCH`, a target that begins
/// with a slash, and the protocol marker ` HTTP/1.1` with the line's end.
pub fn read_request_line<'a>(line: &'a str) -> (parts: LineParts<'a>)
    ensures
        parts@ == request_line(line.spec_bytes()),
{
    let bytes = line.as_bytes();
    let marker = " HTTP/1.1\r\n".as_bytes();
    if !has_suffix(bytes, marker) {
        return LineParts::Malformed;
    }
    let method;
    let skip: usize;
    if has_prefix(bytes, "GET ".as_bytes()) {
        method = HttpMethod::Get;
        skip = "GET ".as_bytes().len();
    } else if has_prefix(bytes, "HEAD ".as_bytes()) {
        method = HttpMethod::Head;
        skip = "HEAD ".as_bytes().len();
    } else if has_prefix(bytes, "WATCH ".as_bytes()) {
        method = HttpMethod::Watch;
        skip = "WATCH ".as_bytes().len();
    } else {
        return LineParts::UnknownMethod;
    }
    let ghost rest = bytes@.skip(skip as int);
    assert(line_method(bytes@) == Some(method));
    assert(skip == method_token(method).len());
    if !(skip < bytes.len() && bytes[skip] == SLASH) {
        return LineParts::Malformed;
    }
    assert(rest.len() > 0 && rest[0] == SLASH);
    proof {
        lemma_marker_follows_method(bytes@, method);
    }
    let end: usize = match find_from(bytes, marker, skip) {
        Some(end) => end,
        None => {
            assert(occurs_at(bytes@, marker@, bytes@.len() - marker@.len()));
            unreached()
        },
    };
    proof {
        lemma_request_literals();
        lemma_occurs_at_skip(bytes@, marker@, skip as int, end - skip);
        assert forall|earlier: int| 0 <= earlier < end - skip implies !occurs_at(
            rest,
            marker@,
            earlier,
        ) by {
            lemma_occurs_at_skip(bytes@, marker@, skip as int, earlier);
        }
        assert(is_first_occurrence(rest, marker@, end - skip));
        lemma_first_occurrence_is(rest, marker@, end - skip);
        assert(bytes@[end as int] == bytes@.subrange(end as int, end + marker@.len())[0]);
        assert(rest.take(end - skip) =~= bytes@.subrange(skip as int, end as int));
        encode_utf8_valid_utf8(line@);
        lemma_ascii_byte_is_boundary(bytes@, skip as int);
        lemma_ascii_byte_is_boundary(bytes@, end as int);
    }
    LineParts::Target(method, part_between(line, skip, end))
}

/// A request: its method and the path that it asks for.
#[derive(Debug)]
pub struct HttpRequest {
    method: HttpMethod,
    path: String,
}

impl View for HttpRequest {
    type V = RequestView;

    closed spec fn view(&self) -> RequestView {
        RequestView { method: self.method, path: encode_utf8(self.path@) }
    }
}

impl HttpRequest {
    #[verifier::type_invariant]
    spec fn well_formed(&self) -> bool {
        is_absolute_path(encode_utf8(self.path@))
    }

    /// The request of the given method for the given path, which must
    /// begin with a slash: any other path is answered with
    /// `400 Bad Request`.
    pub fn new(method: HttpMethod, path: String) -> (request: Result<HttpRequest, HttpResponse>)
        ensures
            match request_for(method, encode_utf8(path@)) {
                Ok(view) => request matches Ok(r) && r@ == view,
                Err(response) => request matches Err(r) && r@ == response,
            },
    {
        proof {
            encode_utf8_valid_utf8(path@);
        }
        if absolute(path.as_str().as_bytes()) {
            Ok(HttpRequest { method, path })
        } else {
            Err(HttpResponse::bad_request())
        }
    }

    /// The request of the given method for the path that `path` encodes,
    /// which must be well-formed UTF-8 and begin with a slash: any other
    /// bytes are answered with `400 Bad Request`.
    pub fn from_path(method: HttpMethod, path: &[u8]) -> (request: Result<
        HttpRequest,
        HttpResponse,
    >)
        ensures
            match request_for(method, path@) {
                Ok(view) => request matches Ok(r) && r@ == view,
                Err(response) => request matches Err(r) && r@ == response,
            },
    {
        match str_from_utf8(path) {
            Some(text) => HttpRequest::new(method, text.to_owned()),
            None => Err(HttpResponse::bad_request()),
        }
    }

    /// Reads a request line, normalises its target as a URL path and
    /// decodes the escapes that are left in it. A line that does not read
    /// as a request that is served, a target that does not normalise, and a
    /// path that does not decode to a text, are answered with the response
    /// that turns the request down.
    pub fn parse_request_line(line: &str) -> (parsed: Result<HttpRequest, HttpResponse>)
        ensures
            match request_of_line(line.spec_bytes()) {
                Ok(request) => parsed matches Ok(r) && r@ == request,
                Err(response) => parsed matches Err(r) && r@ == response,
            },
    {
        match read_request_line(line) {
            LineParts::Malformed => Err(HttpResponse::bad_request()),
            LineParts::UnknownMethod => Err(HttpResponse::method_not_allowed()),
            LineParts::Target(method, target) => {
                proof {
                    encode_utf8_decode_utf8(target@);
                }
                match normalized_path("http://localhost/", target) {
                    Some(path) => {
                        let decoded = percent_decode(path.as_str().as_bytes());
                        HttpRequest::from_path(method, decoded.as_slice())
                    },
                    None => Err(HttpResponse::bad_request()),
                }
            },
        }
    }

    /// The method of the request.
    pub fn method(&self) -> (method: HttpMethod)
        ensures
            method == self@.method,
    {
        self.method
    }

    /// The path of the request: it begins with a slash, and no escape of
    /// the request line is left in it.
    pub fn path(&self) -> (path: &str)
        ensures
            path.spec_bytes() == self@.path,
            is_absolute_path(self@.path),
    {
        proof {
            use_type_invariant(self);
        }
        self.path.as_str()
    }
}

/// Why a request head could not be read to its end.
#[derive(Debug, Clone, Copy, PartialEq, Eq, Hash, Structural)]
pub enum ReadError {
    /// A line is not well-formed UTF-8.
    InvalidUtf8,
    /// The input ended before the empty line that closes the head.
    UnexpectedEof,
}

/// Where the reading of a request head stands. Lines are fed one by one,
/// each with its line end, until the state is final.
#[derive(Debug)]
pub enum HeadState {
    /// The request line is awaited.
    RequestLine,
    /// The request line was accepted; header fields are read and dropped.
    Fields(HttpRequest),
    /// Final: the head was closed by an empty line.
    Accepted(HttpRequest),
    /// Final: the request line was turned down, with this response.
    Rejected(HttpResponse),
    /// Final: the input ended among the header fields.
    Truncated,
}

/// The mathematical value of a [`HeadState`].
pub enum HeadView {
    RequestLine,
    Fields(RequestView),
    Accepted(RequestView),
    Rejected(ResponseView),
    Truncated,
}

impl HeadView {
    /// Whether no further line is asked for.
    pub open spec fn is_final(self) -> bool {
        !(self is RequestLine || self is Fields)
    }

    /// The state after one more line. An empty `line` stands for the end of
    /// the input. Header fields are not looked at: the empty line `CR LF`
    /// closes the head, anything else is dropped.
    pub open spec fn step(self, line: Seq<u8>) -> HeadView {
        match self {
            HeadView::RequestLine => match request_of_line(line) {
                Ok(request) => HeadView::Fields(request),
                Err(response) => HeadView::Rejected(response),
            },
            HeadView::Fields(request) => if line == "\r\n".spec_bytes() {
                HeadView::Accepted(request)
            } else if line.len() == 0 {
                HeadView::Truncated
            } else {
                HeadView::Fields(request)
            },
            _ => self,
        }
    }

    /// What the reading comes to when it stops in this state.
    pub open spec fn outcome(self) -> Result<Result<RequestView, ResponseView>, ReadError> {
        match self {
            HeadView::Accepted(request) => Ok(Ok(request)),
            HeadView::Rejected(response) => Ok(Err(response)),
            _ => Err(ReadError::UnexpectedEof),
        }
    }

    /// The state in which the reading of `input` stops when it starts in
    /// this state: lines are split off behind each line feed and fed until
    /// the state is final; the end of the input is fed as an empty line. A
    /// line that is not UTF-8 ends the reading with an error.
    pub open spec fn run(self, input: Seq<u8>) -> Result<HeadView, ReadError>
        decreases input.len(),
        via Self::run_shortens_input
    {
        let line = input.take(line_len(input) as int);
        if self.is_final() {
            Ok(self)
        } else if !valid_utf8(line) {
            Err(ReadError::InvalidUtf8)
        } else if line.len() == 0 {
            Ok(self.step(line))
        } else {
            self.step(line).run(input.skip(line.len() as int))
        }
    }

    #[via_fn]
    proof fn run_shortens_input(self, input: Seq<u8>) {
        lemma_line_len_bounds(input);
    }
}

/// What reading one request head from `input` comes to: the request, the
/// response that turns it down, or the failure to read it.
pub open spec fn request_of_input(input: Seq<u8>) -> Result<
    Result<RequestView, ResponseView>,
    ReadError,
> {
    match HeadView::RequestLine.run(input) {
        Ok(state) => state.outcome(),
        Err(error) => Err(error),
    }
}

/// A request line that does not end with the protocol marker is answered
/// with `400 Bad Request`, whatever it holds; one that ends with it and
/// begins with no method that is served, with `405 Method Not Allowed`,
/// which names `GET` and `HEAD`.
pub proof fn lemma_lines_that_are_turned_down(line: Seq<u8>)
    ensures
        !ends_with(line, protocol_marker()) ==> request_of_line(line) == Err::<
            RequestView,
            ResponseView,
        >(ResponseView::bad_request()),
        ends_with(line, protocol_marker()) && line_method(line) is None ==> request_of_line(line)
            == Err::<RequestView, ResponseView>(ResponseView::method_not_allowed()),
        ResponseView::method_not_allowed().header == seq![
            ("Allow".spec_bytes(), "GET, HEAD".spec_bytes()),
        ],
{
}

/// Reading a request head stops at a request line that is turned down:
/// the response is the outcome, whatever follows the line.
pub proof fn lemma_rejected_line_ends_reading(input: Seq<u8>)
    requires
        valid_utf8(input.take(line_len(input) as int)),
        request_of_line(input.take(line_len(input) as int)) is Err,
    ensures
        request_of_input(input) == Ok::<Result<RequestView, ResponseView>, ReadError>(
            Err(request_of_line(input.take(line_len(input) as int))->Err_0),
        ),
{
    let line = input.take(line_len(input) as int);
    let rejected = HeadView::RequestLine.step(line);
    assert(rejected.is_final());
    if line.len() > 0 {
        assert(rejected.run(input.skip(line.len() as int)) == Ok::<HeadView, ReadError>(rejected));
    }
}

impl View for HeadState {
    type V = HeadView;

    open spec fn view(&self) -> HeadView {
        match self {
            HeadState::RequestLine => HeadView::RequestLine,
            HeadState::Fields(request) => HeadView::Fields(request@),
            HeadState::Accepted(request) => HeadView::Accepted(request@),
            HeadState::Rejected(response) => HeadView::Rejected(response@),
            HeadState::Truncated => HeadView::Truncated,
        }
    }
}

impl HeadState {
    /// Whether no further line is asked for.
    pub fn is_final(&self) -> (done: bool)
        ensures
            done == self@.is_final(),
    {
        match self {
            HeadState::RequestLine => false,
            HeadState::Fields(_) => false,
            _ => true,
        }
    }

    /// Takes the next line of the input, with its line end; an empty line
    /// where the input has ended.
    pub fn feed(self, line: &str) -> (next: HeadState)
        ensures
            next@ == self@.step(line.spec_bytes()),
    {
        match self {
            HeadState::RequestLine => match HttpRequest::parse_request_line(line) {
                Ok(request) => HeadState::Fields(request),
                Err(response) => HeadState::Rejected(response),
            },
            HeadState::Fields(request) => {
                if same_bytes(line.as_bytes(), "\r\n".as_bytes()) {
                    HeadState::Accepted(request)
                } else if line.as_bytes().len() == 0 {
                    HeadState::Truncated
                } else {
                    HeadState::Fields(request)
                }
            },
            done => done,
        }
    }

    /// What the reading comes to when it stops in this state: a state that
    /// is not final means that the input was cut short.
    pub fn into_outcome(self) -> (outcome: Result<Result<HttpRequest, HttpResponse>, ReadError>)
        ensures
            match self@.outcome() {
                Ok(Ok(request)) => outcome matches Ok(Ok(r)) && r@ == request,
                Ok(Err(response)) => outcome matches Ok(Err(r)) && r@ == response,
                Err(error) => outcome == Err::<Result<HttpRequest, HttpResponse>, ReadError>(error),
            },
    {
        match self {
            HeadState::Accepted(request) => Ok(Ok(request)),
            HeadState::Rejected(response) => Ok(Err(response)),
            _ => Err(ReadError::UnexpectedEof),
        }
    }
}

impl HttpRequest {
    /// Reads one request head from `reader`: the request line, then header
    /// fields up to the empty line. A request line that cannot be served is
    /// answered with a response, and nothing behind it is read.
    pub fn from_reader(reader: &[u8]) -> (outcome: Result<
        Result<HttpRequest, HttpResponse>,
        ReadError,
    >)
        ensures
            match request_of_input(reader@) {
                Ok(Ok(request)) => outcome matches Ok(Ok(r)) && r@ == request,
                Ok(Err(response)) => outcome matches Ok(Err(r)) && r@ == response,
                Err(error) => outcome == Err::<Result<HttpRequest, HttpResponse>, ReadError>(error),
            },
    {
        let mut state = HeadState::RequestLine;
        let mut at: usize = 0;
        assert(reader@.skip(0) =~= reader@);
        while !state.is_final()
            invariant
                at <= reader@.len(),
                HeadView::RequestLine.run(reader@) == state@.run(reader@.skip(at as int)),
            decreases reader@.len() - at,
        {
            let ghost rest = reader@.skip(at as int);
            let end = line_end(reader, at);
            let line_bytes = slice_subrange(reader, at, end);
            proof {
                lemma_line_len_bounds(rest);
                assert(line_bytes@ =~= rest.take(line_len(rest) as int));
                assert(rest.skip(end - at) =~= reader@.skip(end as int));
            }
            match str_from_utf8(line_bytes) {
                None => {
                    return Err(ReadError::InvalidUtf8);
                },
                Some(line) => {
                    state = state.feed(line);
                    if end == at {
                        return state.into_outcome();
                    }
                    at = end;
                },
            }
        }
        state.into_outcome()
    }
}

} // verus!
