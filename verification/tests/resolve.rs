use rofis::dirs_index::DirsIndex;
use rofis::http::{HttpMethod, HttpRequest, HttpResponse, HttpStatus};
use rofis::resolve::{candidate_files, resolve_path, split_path};
use rofis::serve::{after_resolution, Attempt, Step};
use rofis::tree::TreeEntry;

fn dir(name: &str, entries: Vec<TreeEntry>) -> TreeEntry {
    TreeEntry::Dir(name.to_owned(), entries)
}

fn request(path: &str) -> HttpRequest {
    HttpRequest::new(HttpMethod::Get, path.to_owned()).unwrap()
}

fn body_of(response: &HttpResponse) -> Vec<u8> {
    let mut out = Vec::new();
    response.to_writer(&mut out);
    let head_end = out.windows(4).position(|w| w == b"\r\n\r\n").unwrap() + 4;
    out[head_end..].to_vec()
}

fn two_sites() -> DirsIndex {
    let tree = vec![
        dir("x", vec![dir("a", vec![dir("b", vec![])])]),
        dir("y", vec![dir("a", vec![dir("b", vec![])])]),
        dir("z", vec![]),
    ];
    DirsIndex::build("/srv".to_owned(), &tree)
}

#[test]
fn path_that_ends_with_slash_asks_for_index_html() {
    assert_eq!(split_path(&request("/a/b/")), ("a/b", "index.html"));
    assert_eq!(split_path(&request("/")), ("", "index.html"));
    assert_eq!(split_path(&request("//a//")), ("a", "index.html"));
}

#[test]
fn last_segment_is_the_file_name() {
    assert_eq!(split_path(&request("/a/b/c.txt")), ("a/b", "c.txt"));
    assert_eq!(split_path(&request("/c.txt")), ("", "c.txt"));
    assert_eq!(split_path(&request("/a//c.txt")), ("a", "c.txt"));
}

#[test]
fn request_path_must_be_absolute() {
    assert_eq!(
        HttpRequest::new(HttpMethod::Get, "a/b".to_owned()).unwrap_err().status(),
        HttpStatus::BadRequest
    );
    assert_eq!(
        HttpRequest::new(HttpMethod::Get, String::new()).unwrap_err().status(),
        HttpStatus::BadRequest
    );
    assert_eq!(
        HttpRequest::new(HttpMethod::Head, "/caf\u{e9}".to_owned()).unwrap().path(),
        "/caf\u{e9}"
    );
}

#[test]
fn path_that_is_not_ascii_is_split_between_characters() {
    assert_eq!(
        split_path(&request("/caf\u{e9}/\u{fc}ber/\u{e9}t\u{e9}.txt")),
        ("caf\u{e9}/\u{fc}ber", "\u{e9}t\u{e9}.txt")
    );
    assert_eq!(split_path(&request("/\u{e9}/")), ("\u{e9}", "index.html"));
    assert_eq!(split_path(&request("//\u{e9}//\u{fc}")), ("\u{e9}", "\u{fc}"));
}

#[test]
fn decoded_path_finds_a_directory_with_a_space_in_its_name() {
    let tree = vec![dir("my docs", vec![dir("caf\u{e9}", vec![])])];
    let index = DirsIndex::build("/srv".to_owned(), &tree);
    let asked = HttpRequest::from_reader(b"GET /my%20docs/caf%C3%A9/a.txt HTTP/1.1\r\n\r\n")
        .unwrap()
        .unwrap();
    assert_eq!(
        candidate_files(&index, &asked),
        vec!["/srv/my docs/caf\u{e9}/a.txt".to_owned()]
    );
}

#[test]
fn candidates_are_the_file_in_each_matching_directory() {
    let index = two_sites();
    let mut files = candidate_files(&index, &request("/a/b/"));
    files.sort();
    assert_eq!(
        files,
        vec!["/srv/x/a/b/index.html".to_owned(), "/srv/y/a/b/index.html".to_owned()]
    );
    assert_eq!(
        candidate_files(&index, &request("/x/a/b/page.html")),
        vec!["/srv/x/a/b/page.html".to_owned()]
    );
    assert_eq!(candidate_files(&index, &request("/q/b/")), Vec::<String>::new());
}

#[test]
fn file_in_one_directory_is_resolved() {
    let index = two_sites();
    let files = candidate_files(&index, &request("/a/b/"));
    let is_file: Vec<bool> = files.iter().map(|f| f == "/srv/y/a/b/index.html").collect();
    assert_eq!(resolve_path(&files, &is_file).unwrap(), "/srv/y/a/b/index.html".to_owned());
}

#[test]
fn file_in_two_directories_is_multiple_choices() {
    let index = two_sites();
    let files = candidate_files(&index, &request("/a/b/"));
    let response = resolve_path(&files, &[true, true]).unwrap_err();
    assert_eq!(response.status(), HttpStatus::MultipleChoices);
    assert_eq!(body_of(&response), b"Multiple Choices: 2 candidates".to_vec());
}

#[test]
fn file_in_no_directory_is_not_found() {
    let index = two_sites();
    let files = candidate_files(&index, &request("/a/b/"));
    let response = resolve_path(&files, &[false, false]).unwrap_err();
    assert!(response.is_not_found());
    assert_eq!(body_of(&response), b"Not Found".to_vec());
    let none = resolve_path(&Vec::new(), &[]).unwrap_err();
    assert!(none.is_not_found());
}

#[test]
fn candidate_without_an_answer_counts_as_no_file() {
    let files = vec!["/srv/a".to_owned(), "/srv/b".to_owned()];
    assert_eq!(resolve_path(&files, &[true]).unwrap(), "/srv/a".to_owned());
    assert!(resolve_path(&files, &[]).unwrap_err().is_not_found());
    assert_eq!(resolve_path(&files, &[false, true, true]).unwrap(), "/srv/b".to_owned());
}

#[test]
fn miss_is_retried_once_after_a_rebuild() {
    // The directory is created after the index was built.
    let old = DirsIndex::build("/srv".to_owned(), &vec![dir("a", vec![])]);
    let asked = request("/new/page.html");
    let files = candidate_files(&old, &asked);
    assert_eq!(files, Vec::<String>::new());
    let miss = resolve_path(&files, &[]);
    let Step::Rebuild(kept) = after_resolution(Attempt::First, miss) else {
        panic!("a miss on the first attempt asks for a rebuild");
    };
    assert!(kept.is_not_found());

    let fresh = DirsIndex::build("/srv".to_owned(), &vec![dir("a", vec![]), dir("new", vec![])]);
    let files = candidate_files(&fresh, &asked);
    assert_eq!(files, vec!["/srv/new/page.html".to_owned()]);
    let hit = resolve_path(&files, &[true]);
    let Step::Serve(path) = after_resolution(Attempt::Retry, hit) else {
        panic!("the file is there now");
    };
    assert_eq!(path, "/srv/new/page.html".to_owned());
    let response = rofis::serve::get_file(&path, Some(b"<p>new</p>".to_vec()));
    assert_eq!(response.status(), HttpStatus::Success);
}

#[test]
fn miss_after_a_rebuild_is_final() {
    let miss = resolve_path(&Vec::new(), &[]);
    let Step::Respond(response) = after_resolution(Attempt::Retry, miss) else {
        panic!("a second miss is answered");
    };
    assert!(response.is_not_found());
}

#[test]
fn ambiguity_is_not_retried() {
    let files = vec!["/srv/a".to_owned(), "/srv/b".to_owned()];
    let Step::Respond(response) = after_resolution(Attempt::First, resolve_path(&files, &[true, true]))
    else {
        panic!("several candidates are answered at once");
    };
    assert_eq!(response.status(), HttpStatus::MultipleChoices);
}
