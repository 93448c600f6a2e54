use rofis::http::{
    read_request_line, HeadState, HttpMethod, HttpRequest, HttpResponse, HttpStatus, LineParts,
    ReadError,
};

fn wire(response: &HttpResponse) -> Vec<u8> {
    let mut out = Vec::new();
    response.to_writer(&mut out);
    out
}

#[test]
fn get_request_is_read() {
    let request = HttpRequest::from_reader(b"GET /a/b/ HTTP/1.1\r\nHost: localhost\r\n\r\n")
        .unwrap()
        .unwrap();
    assert_eq!(request.method(), HttpMethod::Get);
    assert_eq!(request.path(), "/a/b/");
}

#[test]
fn head_and_watch_are_read() {
    let head = HttpRequest::from_reader(b"HEAD /x HTTP/1.1\r\n\r\n").unwrap().unwrap();
    assert_eq!(head.method(), HttpMethod::Head);
    assert_eq!(head.path(), "/x");
    let watch = HttpRequest::from_reader(b"WATCH /x HTTP/1.1\r\n\r\n").unwrap().unwrap();
    assert_eq!(watch.method(), HttpMethod::Watch);
}

#[test]
fn path_is_normalised() {
    let request = HttpRequest::from_reader(b"GET /a/./b/../c?x=1#frag HTTP/1.1\r\n\r\n")
        .unwrap()
        .unwrap();
    assert_eq!(request.path(), "/a/c");
    let spaced = HttpRequest::from_reader("GET /a b/\u{e9} HTTP/1.1\r\n\r\n".as_bytes())
        .unwrap()
        .unwrap();
    assert_eq!(spaced.path(), "/a b/\u{e9}");
}

#[test]
fn path_is_percent_decoded() {
    let request = HttpRequest::from_reader(b"GET /a%20b/c.txt HTTP/1.1\r\n\r\n").unwrap().unwrap();
    assert_eq!(request.method(), HttpMethod::Get);
    assert_eq!(request.path(), "/a b/c.txt");
    let utf8 = HttpRequest::from_reader(b"HEAD /caf%C3%A9/men%c3%bc HTTP/1.1\r\n\r\n")
        .unwrap()
        .unwrap();
    assert_eq!(utf8.path(), "/caf\u{e9}/men\u{fc}");
    let slash = HttpRequest::from_reader(b"GET /a%2Fb%25c HTTP/1.1\r\n\r\n").unwrap().unwrap();
    assert_eq!(slash.path(), "/a/b%c");
}

#[test]
fn percent_sign_that_opens_no_escape_is_kept() {
    let request = HttpRequest::from_reader(b"GET /100%/a%2/b%zz%4 HTTP/1.1\r\n\r\n")
        .unwrap()
        .unwrap();
    assert_eq!(request.path(), "/100%/a%2/b%zz%4");
}

#[test]
fn path_that_decodes_to_no_text_is_bad_request() {
    let response = HttpRequest::from_reader(b"GET /a%FFb HTTP/1.1\r\n\r\n").unwrap().unwrap_err();
    assert_eq!(response.status(), HttpStatus::BadRequest);
    let cut = HttpRequest::from_reader(b"GET /caf%C3 HTTP/1.1\r\n\r\n").unwrap().unwrap_err();
    assert_eq!(cut.status(), HttpStatus::BadRequest);
    assert_eq!(
        HttpRequest::from_path(HttpMethod::Get, b"/a\xffb").unwrap_err().status(),
        HttpStatus::BadRequest
    );
    assert_eq!(
        HttpRequest::from_path(HttpMethod::Get, b"a/b").unwrap_err().status(),
        HttpStatus::BadRequest
    );
    let request = HttpRequest::from_path(HttpMethod::Watch, "/caf\u{e9}".as_bytes()).unwrap();
    assert_eq!(request.method(), HttpMethod::Watch);
    assert_eq!(request.path(), "/caf\u{e9}");
}

#[test]
fn wrong_protocol_is_bad_request() {
    let response = HttpRequest::from_reader(b"GET / HTTP/1.0\r\n\r\n").unwrap().unwrap_err();
    assert_eq!(response.status(), HttpStatus::BadRequest);
    assert_eq!(
        wire(&response),
        b"HTTP/1.1 400 Bad Request\r\nContent-Length: 11\r\nConnection: close\r\n\r\nBad Request"
            .to_vec()
    );
    let bare = HttpRequest::from_reader(b"GET / HTTP/1.1\n\r\n").unwrap().unwrap_err();
    assert_eq!(bare.status(), HttpStatus::BadRequest);
    let empty = HttpRequest::from_reader(b"").unwrap().unwrap_err();
    assert_eq!(empty.status(), HttpStatus::BadRequest);
}

#[test]
fn post_is_method_not_allowed() {
    let response = HttpRequest::from_reader(b"POST / HTTP/1.1\r\n\r\n").unwrap().unwrap_err();
    assert_eq!(response.status(), HttpStatus::MethodNotAllowed);
    assert_eq!(
        wire(&response),
        b"HTTP/1.1 405 Method Not Allowed\r\nContent-Length: 18\r\nConnection: close\r\nAllow: GET, HEAD\r\n\r\nMethod Not Allowed"
            .to_vec()
    );
}

#[test]
fn target_without_slash_is_bad_request() {
    let response = HttpRequest::from_reader(b"GET index.html HTTP/1.1\r\n\r\n")
        .unwrap()
        .unwrap_err();
    assert_eq!(response.status(), HttpStatus::BadRequest);
    let short = HttpRequest::from_reader(b"GET HTTP/1.1\r\n\r\n").unwrap().unwrap_err();
    assert_eq!(short.status(), HttpStatus::BadRequest);
}

#[test]
fn rejected_request_line_ends_the_reading() {
    let response = HttpRequest::from_reader(b"PUT / HTTP/1.1\r\n\xff\xfe").unwrap().unwrap_err();
    assert_eq!(response.status(), HttpStatus::MethodNotAllowed);
}

#[test]
fn truncated_head_fails() {
    let outcome = HttpRequest::from_reader(b"GET / HTTP/1.1\r\nHost: localhost\r\n");
    assert_eq!(outcome.unwrap_err(), ReadError::UnexpectedEof);
    let cut = HttpRequest::from_reader(b"GET / HTTP/1.1\r\nHost: local");
    assert_eq!(cut.unwrap_err(), ReadError::UnexpectedEof);
}

#[test]
fn invalid_utf8_fails() {
    let outcome = HttpRequest::from_reader(b"GET /\xff HTTP/1.1\r\n\r\n");
    assert_eq!(outcome.unwrap_err(), ReadError::InvalidUtf8);
    let in_field = HttpRequest::from_reader(b"GET / HTTP/1.1\r\nX: \xc3\r\n\r\n");
    assert_eq!(in_field.unwrap_err(), ReadError::InvalidUtf8);
}

#[test]
fn request_line_is_split_at_the_first_marker() {
    assert!(matches!(
        read_request_line("GET /a/b?x HTTP/1.1\r\n"),
        LineParts::Target(HttpMethod::Get, "/a/b?x")
    ));
    assert!(matches!(
        read_request_line("WATCH / HTTP/1.1\r\n"),
        LineParts::Target(HttpMethod::Watch, "/")
    ));
    assert!(matches!(
        read_request_line("HEAD /a HTTP/1.1\r\n/b HTTP/1.1\r\n"),
        LineParts::Target(HttpMethod::Head, "/a")
    ));
    assert!(matches!(
        read_request_line("GET /caf\u{e9} \u{fc} HTTP/1.1\r\n"),
        LineParts::Target(HttpMethod::Get, "/caf\u{e9} \u{fc}")
    ));
    let request = HttpRequest::parse_request_line("HEAD /a HTTP/1.1\r\n/b HTTP/1.1\r\n").unwrap();
    assert_eq!(request.path(), "/a");
}

#[test]
fn request_line_is_judged_by_marker_then_method_then_target() {
    assert!(matches!(read_request_line("POST /x HTTP/1.0\r\n"), LineParts::Malformed));
    assert!(matches!(read_request_line("POST x HTTP/1.1\r\n"), LineParts::UnknownMethod));
    assert!(matches!(read_request_line("get / HTTP/1.1\r\n"), LineParts::UnknownMethod));
    assert!(matches!(read_request_line("GET  / HTTP/1.1\r\n"), LineParts::Malformed));
    assert!(matches!(read_request_line("GET x HTTP/1.1\r\n"), LineParts::Malformed));
    assert!(matches!(read_request_line(" HTTP/1.1\r\n"), LineParts::UnknownMethod));
    assert!(matches!(read_request_line("GET / HTTP/1.1"), LineParts::Malformed));
}

#[test]
fn head_is_read_line_by_line() {
    let state = HeadState::RequestLine;
    assert!(!state.is_final());
    let state = state.feed("GET /a HTTP/1.1\r\n");
    assert!(matches!(state, HeadState::Fields(_)));
    let state = state.feed("Host: localhost\r\n");
    let state = state.feed("\n");
    assert!(!state.is_final());
    let state = state.feed("\r\n");
    assert!(state.is_final());
    let state = state.feed("GET /b HTTP/1.1\r\n");
    let request = state.into_outcome().unwrap().unwrap();
    assert_eq!(request.path(), "/a");

    let cut = HeadState::RequestLine.feed("GET /a HTTP/1.1\r\n").feed("");
    assert!(matches!(cut, HeadState::Truncated));
    assert_eq!(cut.into_outcome().unwrap_err(), ReadError::UnexpectedEof);
    let unfinished = HeadState::RequestLine.feed("GET /a HTTP/1.1\r\n");
    assert_eq!(unfinished.into_outcome().unwrap_err(), ReadError::UnexpectedEof);
    assert_eq!(HeadState::RequestLine.into_outcome().unwrap_err(), ReadError::UnexpectedEof);
    let rejected = HeadState::RequestLine.feed("");
    assert_eq!(rejected.into_outcome().unwrap().unwrap_err().status(), HttpStatus::BadRequest);
}

#[test]
fn nothing_behind_the_head_is_read() {
    let request = HttpRequest::from_reader(b"GET /a HTTP/1.1\r\n\r\n\xff\xfe body").unwrap().unwrap();
    assert_eq!(request.path(), "/a");
}
