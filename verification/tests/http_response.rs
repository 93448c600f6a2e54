use rofis::http::{HttpResponse, HttpResponseBody, HttpStatus};

fn wire(response: &HttpResponse) -> Vec<u8> {
    let mut out = Vec::new();
    response.to_writer(&mut out);
    out
}

#[test]
fn not_found_on_the_wire() {
    let response = HttpResponse::not_found();
    assert!(response.is_not_found());
    assert_eq!(
        wire(&response),
        b"HTTP/1.1 404 Not Found\r\nContent-Length: 9\r\nConnection: close\r\n\r\nNot Found".to_vec()
    );
}

#[test]
fn only_not_found_is_not_found() {
    assert!(!HttpResponse::bad_request().is_not_found());
    assert!(!HttpResponse::method_not_allowed().is_not_found());
    assert!(!HttpResponse::multiple_choices(3).is_not_found());
    assert!(!HttpResponse::internal_server_error().is_not_found());
    assert!(!HttpResponse::ok("text/plain".to_owned(), HttpResponseBody::Length(0)).is_not_found());
}

#[test]
fn multiple_choices_on_the_wire() {
    assert_eq!(
        wire(&HttpResponse::multiple_choices(12)),
        b"HTTP/1.1 303 Multiple Choices\r\nContent-Length: 31\r\nConnection: close\r\n\r\nMultiple Choices: 12 candidates"
            .to_vec()
    );
    assert_eq!(
        wire(&HttpResponse::multiple_choices(0)),
        b"HTTP/1.1 303 Multiple Choices\r\nContent-Length: 30\r\nConnection: close\r\n\r\nMultiple Choices: 0 candidates"
            .to_vec()
    );
}

#[test]
fn largest_count_is_written_in_full() {
    let response = HttpResponse::multiple_choices(usize::MAX);
    let expected = format!("Multiple Choices: {} candidates", usize::MAX).into_bytes();
    assert!(matches!(response.body(), HttpResponseBody::Content(c) if *c == expected));
}

#[test]
fn ok_writes_its_media_type_behind_the_common_fields() {
    let response =
        HttpResponse::ok("text/plain".to_owned(), HttpResponseBody::Content(b"hi\n".to_vec()));
    assert_eq!(
        wire(&response),
        b"HTTP/1.1 200 OK\r\nContent-Length: 3\r\nConnection: close\r\nContent-Type: text/plain\r\n\r\nhi\n"
            .to_vec()
    );
}

#[test]
fn to_writer_appends() {
    let mut out = b"before".to_vec();
    HttpResponse::bad_request().to_writer(&mut out);
    assert!(out.starts_with(b"beforeHTTP/1.1 400 Bad Request\r\n"));
}

#[test]
fn body_length() {
    assert_eq!(HttpResponseBody::Content(b"abc".to_vec()).len(), 3);
    assert_eq!(HttpResponseBody::Length(1234).len(), 1234);
    assert!(HttpResponseBody::Content(Vec::new()).is_empty());
    assert!(HttpResponseBody::Length(0).is_empty());
    assert!(!HttpResponseBody::Length(1).is_empty());
}

#[test]
fn status_codes_and_phrases() {
    let all = [
        (HttpStatus::Success, 200, "200 OK"),
        (HttpStatus::MultipleChoices, 303, "303 Multiple Choices"),
        (HttpStatus::BadRequest, 400, "400 Bad Request"),
        (HttpStatus::NotFound, 404, "404 Not Found"),
        (HttpStatus::MethodNotAllowed, 405, "405 Method Not Allowed"),
        (HttpStatus::InternalServerError, 500, "500 Internal Server Error"),
    ];
    for (status, code, text) in all {
        assert_eq!(status.code(), code);
        assert_eq!(status.as_str(), text);
    }
}

#[test]
fn summary_names_status_and_length() {
    assert_eq!(
        HttpResponse::not_found().summary(),
        "HttpResponse { status: \"404 Not Found\", body: 9 bytes }".to_owned()
    );
    let head = HttpResponse::ok("text/plain".to_owned(), HttpResponseBody::Length(1200));
    assert_eq!(head.summary(), "HttpResponse { status: \"200 OK\", body: 1200 bytes }".to_owned());
}
