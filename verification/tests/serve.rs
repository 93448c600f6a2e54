use rofis::http::{HttpMethod, HttpResponse, HttpResponseBody, HttpStatus};
use rofis::serve::{fetch_for, get_file, head_file, respond, Fetch};
use rofis::watch::{Poll, WatchSession, POLL_INTERVAL_MILLIS};

fn wire(response: &HttpResponse) -> Vec<u8> {
    let mut out = Vec::new();
    response.to_writer(&mut out);
    out
}

#[test]
fn head_announces_the_length_and_sends_no_body() {
    let content = vec![b'x'; 100];
    let response = head_file("/srv/a/page.html", Some(content));
    assert_eq!(response.status(), HttpStatus::Success);
    assert_eq!(response.body().len(), 100);
    assert_eq!(
        wire(&response),
        b"HTTP/1.1 200 OK\r\nContent-Length: 100\r\nConnection: close\r\nContent-Type: text/html\r\n\r\n"
            .to_vec()
    );
}

#[test]
fn get_sends_the_content() {
    let content = vec![b'x'; 100];
    let response = get_file("/srv/a/page.html", Some(content.clone()));
    let mut expected =
        b"HTTP/1.1 200 OK\r\nContent-Length: 100\r\nConnection: close\r\nContent-Type: text/html\r\n\r\n"
            .to_vec();
    expected.extend_from_slice(&content);
    assert_eq!(wire(&response), expected);
    let head = head_file("/srv/a/page.html", Some(content.clone()));
    let mut head_and_content = wire(&head);
    head_and_content.extend_from_slice(&content);
    assert_eq!(wire(&response), head_and_content);
}

#[test]
fn media_type_is_guessed_from_the_extension() {
    let css = get_file("/srv/style.css", Some(Vec::new()));
    assert!(wire(&css).windows(24).any(|w| w == b"Content-Type: text/css\r\n"));
    let unknown = get_file("/srv/data.zzzz", Some(Vec::new()));
    assert!(wire(&unknown)
        .windows(40)
        .any(|w| w == b"Content-Type: application/octet-stream\r\n"));
    let bare = get_file("/srv/Makefile", Some(Vec::new()));
    assert!(wire(&bare)
        .windows(40)
        .any(|w| w == b"Content-Type: application/octet-stream\r\n"));
}

#[test]
fn unreadable_file_is_internal_server_error() {
    let get = get_file("/srv/a.html", None);
    assert_eq!(get.status(), HttpStatus::InternalServerError);
    assert_eq!(
        wire(&get),
        b"HTTP/1.1 500 Internal Server Error\r\nContent-Length: 21\r\nConnection: close\r\n\r\nInternal Server Error"
            .to_vec()
    );
    let head = head_file("/srv/a.html", None);
    assert_eq!(head.status(), HttpStatus::InternalServerError);
}

#[test]
fn empty_file_is_served() {
    let response = get_file("/srv/empty.txt", Some(Vec::new()));
    assert!(response.body().is_empty());
    assert_eq!(
        wire(&response),
        b"HTTP/1.1 200 OK\r\nContent-Length: 0\r\nConnection: close\r\nContent-Type: text/plain\r\n\r\n"
            .to_vec()
    );
}

#[test]
fn responses_are_dispatched_by_method() {
    let content = b"hello".to_vec();
    let head = respond(HttpMethod::Head, "/a.txt", Some(content.clone()));
    assert!(matches!(head.body(), HttpResponseBody::Length(5)));
    let get = respond(HttpMethod::Get, "/a.txt", Some(content.clone()));
    assert!(matches!(get.body(), HttpResponseBody::Content(c) if *c == content));
    let watch = respond(HttpMethod::Watch, "/a.txt", Some(content.clone()));
    assert_eq!(wire(&watch), wire(&get));
    assert_eq!(fetch_for(HttpMethod::Get), Fetch::Content);
    assert_eq!(fetch_for(HttpMethod::Head), Fetch::Content);
    assert_eq!(fetch_for(HttpMethod::Watch), Fetch::ModificationTime);
}

#[test]
fn watch_waits_until_the_file_changes() {
    let mut session = WatchSession::arm("/srv/a.txt".to_owned(), Some(1_000)).unwrap();
    assert!(session.is_armed());
    assert_eq!(session.path(), "/srv/a.txt");
    assert_eq!(session.poll(Some(1_000)), Poll::Wait);
    assert_eq!(session.poll(Some(1_000)), Poll::Wait);
    assert!(session.is_armed());
    assert_eq!(session.poll(Some(1_001)), Poll::Changed);
    assert!(!session.is_armed());
    assert_eq!(session.poll(Some(1_002)), Poll::Closed);
    assert_eq!(session.poll(Some(1_000)), Poll::Closed);
    let response = session.answer(Poll::Changed, Some(b"new".to_vec())).unwrap();
    assert_eq!(wire(&response), wire(&get_file("/srv/a.txt", Some(b"new".to_vec()))));
    let gone = session.answer(Poll::Changed, None).unwrap();
    assert_eq!(gone.status(), HttpStatus::InternalServerError);
    let failed = session.answer(Poll::Unreadable, None).unwrap();
    assert_eq!(failed.status(), HttpStatus::InternalServerError);
    assert!(session.answer(Poll::Wait, None).is_none());
    assert!(session.answer(Poll::Closed, Some(b"new".to_vec())).is_none());
}

#[test]
fn watch_answers_exactly_once() {
    let mut session = WatchSession::arm("/srv/a.txt".to_owned(), Some(7)).unwrap();
    let polls = session.poll_all(&[Some(7), Some(7), Some(9), Some(7), None, Some(9)]);
    assert_eq!(
        polls,
        vec![Poll::Wait, Poll::Wait, Poll::Changed, Poll::Closed, Poll::Closed, Poll::Closed]
    );
    let mut still = WatchSession::arm("/srv/a.txt".to_owned(), Some(7)).unwrap();
    assert_eq!(still.poll_all(&[Some(7), Some(7)]), vec![Poll::Wait, Poll::Wait]);
    assert!(still.is_armed());
    assert!(!session.is_armed());
    assert_eq!(still.poll_all(&[]), Vec::<Poll>::new());
}

#[test]
fn watch_of_an_older_time_is_a_change() {
    let mut session = WatchSession::arm("/srv/a.txt".to_owned(), Some(7)).unwrap();
    assert_eq!(session.poll(Some(6)), Poll::Changed);
}

#[test]
fn watch_fails_when_the_file_becomes_unreadable() {
    let mut session = WatchSession::arm("/srv/a.txt".to_owned(), Some(7)).unwrap();
    assert_eq!(session.poll_all(&[Some(7), None, Some(8)]), vec![
        Poll::Wait,
        Poll::Unreadable,
        Poll::Closed
    ]);
}

#[test]
fn watch_of_an_unreadable_file_is_answered_at_once() {
    let response = WatchSession::arm("/srv/a.txt".to_owned(), None).unwrap_err();
    assert_eq!(response.status(), HttpStatus::InternalServerError);
}

#[test]
fn poll_interval_is_a_tenth_of_a_second() {
    assert_eq!(POLL_INTERVAL_MILLIS, 100);
}
