use rofis::dirs_index::{DirsIndex, IndexBuilder};
use rofis::tree::TreeEntry;

fn file(name: &str) -> TreeEntry {
    TreeEntry::File(name.to_owned())
}

fn dir(name: &str, entries: Vec<TreeEntry>) -> TreeEntry {
    TreeEntry::Dir(name.to_owned(), entries)
}

fn sample_tree() -> Vec<TreeEntry> {
    vec![
        file("README.md"),
        dir(
            "src",
            vec![
                file("main.rs"),
                dir("lib", vec![file("index.html")]),
                dir(".cache", vec![dir("deep", vec![])]),
            ],
        ),
        dir("docs", vec![dir("lib", vec![]), dir("api", vec![dir("v1", vec![])])]),
        dir(".git", vec![dir("objects", vec![]), file("HEAD")]),
        file(".hidden_file"),
    ]
}

fn sorted(mut paths: Vec<String>) -> Vec<String> {
    paths.sort();
    paths
}

#[test]
fn len_counts_directories_that_are_not_hidden() {
    let index = DirsIndex::build("/srv/www".to_owned(), &sample_tree());
    // src, src/lib, docs, docs/lib, docs/api, docs/api/v1
    assert_eq!(index.len(), 6);
    assert!(!index.is_empty());
    assert_eq!(index.root_dir(), "/srv/www");
}

#[test]
fn empty_tree_gives_empty_index() {
    let index = DirsIndex::build("/srv/www".to_owned(), &Vec::new());
    assert_eq!(index.len(), 0);
    assert!(index.is_empty());
    assert_eq!(index.find_dirs_by_suffix(""), Vec::<String>::new());
    let none = DirsIndex::empty("/tmp".to_owned());
    assert_eq!(none.len(), 0);
    assert_eq!(none.root_dir(), "/tmp");
}

#[test]
fn only_files_and_hidden_directories_give_empty_index() {
    let tree = vec![file("a"), dir(".b", vec![dir("c", vec![])]), file("d")];
    let index = DirsIndex::build("/r".to_owned(), &tree);
    assert_eq!(index.len(), 0);
    assert_eq!(index.find_dirs_by_suffix("c"), Vec::<String>::new());
}

#[test]
fn find_gives_every_directory_that_ends_with_the_suffix() {
    let index = DirsIndex::build("/srv/www".to_owned(), &sample_tree());
    assert_eq!(
        sorted(index.find_dirs_by_suffix("lib")),
        vec!["/srv/www/docs/lib".to_owned(), "/srv/www/src/lib".to_owned()]
    );
    assert_eq!(index.find_dirs_by_suffix("src/lib"), vec!["/srv/www/src/lib".to_owned()]);
    assert_eq!(index.find_dirs_by_suffix("docs/api/v1"), vec!["/srv/www/docs/api/v1".to_owned()]);
    assert_eq!(index.find_dirs_by_suffix("nothing"), Vec::<String>::new());
    assert_eq!(index.find_dirs_by_suffix("objects"), Vec::<String>::new());
    assert_eq!(index.find_dirs_by_suffix("deep"), Vec::<String>::new());
    assert_eq!(index.find_dirs_by_suffix("x/src"), Vec::<String>::new());
}

#[test]
fn empty_suffix_gives_every_directory() {
    let index = DirsIndex::build("/srv/www".to_owned(), &sample_tree());
    assert_eq!(
        sorted(index.find_dirs_by_suffix("")),
        vec![
            "/srv/www/docs".to_owned(),
            "/srv/www/docs/api".to_owned(),
            "/srv/www/docs/api/v1".to_owned(),
            "/srv/www/docs/lib".to_owned(),
            "/srv/www/src".to_owned(),
            "/srv/www/src/lib".to_owned(),
        ]
    );
}

#[test]
fn suffix_is_matched_by_bytes_and_not_by_segments() {
    let index = DirsIndex::build("/srv/www".to_owned(), &sample_tree());
    assert_eq!(
        sorted(index.find_dirs_by_suffix("ib")),
        vec!["/srv/www/docs/lib".to_owned(), "/srv/www/src/lib".to_owned()]
    );
    assert_eq!(index.find_dirs_by_suffix("c/lib"), vec!["/srv/www/src/lib".to_owned()]);
}

#[test]
fn found_directories_come_in_the_order_of_their_reversed_paths() {
    let tree = vec![dir("ab", vec![]), dir("b", vec![]), dir("cb", vec![]), dir("a", vec![])];
    let index = DirsIndex::build("/r".to_owned(), &tree);
    // reversed: "b" < "ba" < "bc"
    assert_eq!(
        index.find_dirs_by_suffix("b"),
        vec!["/r/b".to_owned(), "/r/ab".to_owned(), "/r/cb".to_owned()]
    );
}

#[test]
fn every_directory_comes_once_in_the_order_of_its_reversed_path() {
    let tree = vec![dir("x", vec![dir("b", vec![])]), dir("ab", vec![]), dir("b", vec![])];
    let index = DirsIndex::build("/r".to_owned(), &tree);
    // reversed: "b" < "b/x" < "ba" < "x"
    assert_eq!(
        index.find_dirs_by_suffix(""),
        vec!["/r/b".to_owned(), "/r/x/b".to_owned(), "/r/ab".to_owned(), "/r/x".to_owned()]
    );
}

#[test]
fn names_that_are_not_ascii_are_indexed() {
    let tree = vec![dir("caf\u{e9}", vec![dir("men\u{fc}", vec![])])];
    let index = DirsIndex::build("/r".to_owned(), &tree);
    assert_eq!(index.len(), 2);
    assert_eq!(
        index.find_dirs_by_suffix("\u{e9}/men\u{fc}"),
        vec!["/r/caf\u{e9}/men\u{fc}".to_owned()]
    );
}

#[test]
fn root_that_ends_with_a_slash_gets_no_second_one() {
    let index = DirsIndex::build("/".to_owned(), &vec![dir("a", vec![])]);
    assert_eq!(index.find_dirs_by_suffix("a"), vec!["/a".to_owned()]);
}

#[test]
fn directories_of_one_name_are_one_entry() {
    let tree = vec![dir("a", vec![]), dir("a", vec![dir("b", vec![])])];
    let index = DirsIndex::build("/r".to_owned(), &tree);
    assert_eq!(index.len(), 2);
}

#[test]
fn builder_walks_depth_first() {
    let builder = IndexBuilder::new("/r".to_owned());
    let (builder, first) = builder.next_dir();
    assert_eq!(first, Some(String::new()));
    assert_eq!(builder.path_of(""), "/r/".to_owned());
    let builder = builder.visit("", "a", true);
    let builder = builder.visit("", "file", false);
    let builder = builder.visit("", ".git", true);
    let builder = builder.visit("", "b", true);
    let (builder, second) = builder.next_dir();
    assert_eq!(second, Some("b".to_owned()));
    assert_eq!(builder.path_of("b"), "/r/b".to_owned());
    let builder = builder.visit("b", "c", true);
    let (builder, third) = builder.next_dir();
    assert_eq!(third, Some("b/c".to_owned()));
    let (builder, fourth) = builder.next_dir();
    assert_eq!(fourth, Some("a".to_owned()));
    let (builder, end) = builder.next_dir();
    assert_eq!(end, None);
    let (builder, again) = builder.next_dir();
    assert_eq!(again, None);
    let index = builder.finish();
    assert_eq!(index.len(), 3);
    assert_eq!(index.find_dirs_by_suffix("c"), vec!["/r/b/c".to_owned()]);
}
