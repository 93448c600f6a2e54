use rofis::error::{Error, ErrorKind};
use rofis::file_server::{handle_get, local_path};
use rofis::http::HttpStatus;

#[test]
fn url_path_is_served_from_the_working_directory() {
    assert_eq!(local_path("/a/b.txt"), "./a/b.txt".to_owned());
    assert_eq!(local_path("/a/"), "./a/index.html".to_owned());
    assert_eq!(local_path("/"), "./index.html".to_owned());
    assert_eq!(local_path(""), ".".to_owned());
}

#[test]
fn content_is_replied_with_its_media_type() {
    let reply = handle_get("./a/b.json", Ok(b"{}".to_vec()));
    assert_eq!(reply.status, HttpStatus::Success);
    assert_eq!(reply.content_type, Some("application/json".to_owned()));
    assert_eq!(reply.body, b"{}".to_vec());
}

#[test]
fn missing_file_is_replied_with_not_found() {
    let error = Error::from_read_failure(true, "no such file".to_owned());
    assert_eq!(error.kind(), ErrorKind::NotFound);
    assert_eq!(error.to_http_status(), HttpStatus::NotFound);
    let reply = handle_get("./a", Err(error));
    assert_eq!(reply.status, HttpStatus::NotFound);
    assert_eq!(reply.content_type, None);
    assert_eq!(reply.body, b"no such file".to_vec());
}

#[test]
fn other_failure_is_replied_with_internal_server_error() {
    let error = Error::from_read_failure(false, "permission denied".to_owned());
    assert_eq!(error.kind(), ErrorKind::InternalServerError);
    assert_eq!(error.message(), "permission denied");
    let reply = handle_get("./a", Err(error));
    assert_eq!(reply.status, HttpStatus::InternalServerError);
    assert_eq!(reply.body, b"permission denied".to_vec());
    let made = Error::new(ErrorKind::InternalServerError, "x".to_owned());
    assert_eq!(made.clone().to_http_status(), HttpStatus::InternalServerError);
}
