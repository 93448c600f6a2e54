//! From the path of a request to the one file that it names.

use crate::dirs_index::{found_paths, relative_to, DirsIndex};
use crate::http::{HttpRequest, HttpResponse, ResponseView};
use crate::path::{is_tidy_path, join, join_path, lemma_join_is_utf8, text_of, SLASH};
use crate::text::{
    ends_with, lemma_ascii_byte_is_boundary, lemma_boundary_behind_ascii_byte, part_between,
};
use vstd::prelude::*;
use vstd::relations::injective_on;
use vstd::set_lib::lemma_map_size;
use vstd::string::*;
use vstd::utf8::*;

verus! {

/// `path` without the slashes that it begins with.
pub open spec fn trim_start(path: Seq<u8>) -> Seq<u8>
    decreases path.len(),
{
    if path.len() > 0 && path[0] == SLASH {
        trim_start(path.drop_first())
    } else {
        path
    }
}

/// `path` without the slashes that it ends with.
pub open spec fn trim_end(path: Seq<u8>) -> Seq<u8>
    decreases path.len(),
{
    if path.len() > 0 && path.last() == SLASH {
        trim_end(path.drop_last())
    } else {
        path
    }
}

/// `path` without the slashes at either end.
pub open spec fn trim_slashes(path: Seq<u8>) -> Seq<u8> {
    trim_end(trim_start(path))
}

/// Whether the last slash of `path` stands at index `at`.
pub open spec fn is_last_slash(path: Seq<u8>, at: int) -> bool {
    0 <= at < path.len() && path[at] == SLASH && forall|later: int|
        at < later < path.len() ==> path[later] != SLASH
}

/// The index of the last slash of `path`; meaningful only where it holds
/// one.
pub open spec fn last_slash(path: Seq<u8>) -> int {
    choose|at: int| is_last_slash(path, at)
}

/// There is at most one last slash, so finding one fixes [`last_slash`].
pub proof fn lemma_last_slash_is(path: Seq<u8>, at: int)
    requires
        is_last_slash(path, at),
    ensures
        last_slash(path) == at,
{
    let chosen = last_slash(path);
    assert(is_last_slash(path, chosen));
    if chosen < at {
        assert(path[at] != SLASH);
    } else if at < chosen {
        assert(path[chosen] != SLASH);
    }
}

/// The name of the file that a request path asks for: what follows its last
/// slash, or `index.html` where nothing follows it.
pub open spec fn file_name(path: Seq<u8>) -> Seq<u8> {
    if path.len() > 0 && path.last() == SLASH {
        "index.html".spec_bytes()
    } else {
        path.skip(last_slash(path) + 1)
    }
}

/// The end of a directory path that a request path asks for: what stands
/// before its last slash, without the slashes at either end.
pub open spec fn dir_suffix(path: Seq<u8>) -> Seq<u8> {
    if path.len() > 0 && path.last() == SLASH {
        trim_slashes(path)
    } else {
        trim_slashes(path.take(last_slash(path)))
    }
}

/// The index of the last slash of a path that begins with one.
fn find_last_slash(path: &[u8]) -> (at: usize)
    requires
        path@.len() > 0,
        path@[0] == SLASH,
    ensures
        is_last_slash(path@, at as int),
{
    let mut at: usize = path.len() - 1;
    while path[at] != SLASH
        invariant
            at < path@.len(),
            path@[0] == SLASH,
            forall|later: int| at < later < path@.len() ==> path@[later] != SLASH,
        decreases at,
    {
        at = at - 1;
    }
    at
}

/// The bounds of `path` without the slashes at either end.
fn trim_bounds(path: &[u8]) -> (bounds: (usize, usize))
    ensures
        bounds.0 <= bounds.1 <= path@.len(),
        path@.subrange(bounds.0 as int, bounds.1 as int) == trim_slashes(path@),
        bounds.0 == 0 || path@[bounds.0 - 1] == SLASH,
        bounds.1 == path@.len() || path@[bounds.1 as int] == SLASH,
{
    let mut from: usize = 0;
    assert(path@.skip(0) =~= path@);
    while from < path.len() && path[from] == SLASH
        invariant
            from <= path@.len(),
            from == 0 || path@[from - 1] == SLASH,
            trim_start(path@) == trim_start(path@.skip(from as int)),
        decreases path@.len() - from,
    {
        assert(path@.skip(from as int).drop_first() =~= path@.skip(from + 1));
        from = from + 1;
    }
    let ghost rest = path@.skip(from as int);
    assert(trim_start(path@) == rest);
    let mut to: usize = path.len();
    assert(rest.take(to - from) =~= rest);
    while to > from && path[to - 1] == SLASH
        invariant
            from <= to <= path@.len(),
            to == path@.len() || path@[to as int] == SLASH,
            rest == path@.skip(from as int),
            trim_end(rest) == trim_end(rest.take(to - from)),
        decreases to,
    {
        assert(rest.take(to - from).drop_last() =~= rest.take(to - from - 1));
        to = to - 1;
    }
    assert(rest.take(to - from) =~= path@.subrange(from as int, to as int));
    (from, to)
}

/// Splits the path of a request into the end of a directory path and the
/// name of a file.
pub fn split_path<'a>(request: &'a HttpRequest) -> (parts: (&'a str, &'a str))
    ensures
        parts.0.spec_bytes() == dir_suffix(request@.path),
        parts.1.spec_bytes() == file_name(request@.path),
{
    let path = request.path();
    let bytes = path.as_bytes();
    let dir_end: usize;
    let name: &'a str;
    proof {
        encode_utf8_valid_utf8(path@);
        is_char_boundary_start_end_of_seq(bytes@);
    }
    if bytes[bytes.len() - 1] == SLASH {
        dir_end = bytes.len();
        name = "index.html";
        assert(bytes@.take(dir_end as int) =~= bytes@);
    } else {
        let at = find_last_slash(bytes);
        proof {
            lemma_last_slash_is(bytes@, at as int);
            lemma_ascii_byte_is_boundary(bytes@, at as int);
            lemma_boundary_behind_ascii_byte(bytes@, at as int);
        }
        dir_end = at;
        name = part_between(path, at + 1, bytes.len());
    }
    let dir = part_between(path, 0, dir_end);
    let (from, to) = trim_bounds(dir.as_bytes());
    proof {
        let within = dir.spec_bytes();
        encode_utf8_valid_utf8(dir@);
        is_char_boundary_start_end_of_seq(within);
        if from > 0 {
            lemma_boundary_behind_ascii_byte(within, from - 1);
        }
        if to < within.len() {
            lemma_ascii_byte_is_boundary(within, to as int);
        }
    }
    let suffix = part_between(dir, from, to);
    (suffix, name)
}

/// The path of the file `name` in the directory `inner` below `root`.
pub open spec fn file_in(root: Seq<u8>, inner: Seq<u8>, name: Seq<u8>) -> Seq<u8> {
    join_path(join_path(root, inner), name)
}

/// Whether `file` is the file that the request path `path` asks for in one
/// of the indexed directories whose relative path ends as it asks.
pub open spec fn is_candidate(index: &DirsIndex, path: Seq<u8>, file: Seq<u8>) -> bool {
    exists|inner: Seq<u8>| #[trigger]
        index.matching(dir_suffix(path)).contains(inner) && file == file_in(
            index.root(),
            inner,
            file_name(path),
        )
}

/// Whether `files` are the candidates of the request path `path`: one for
/// each indexed directory whose relative path ends as the path asks, each
/// the file of the name that the path asks for in one of them, and the file
/// in every one of them among them.
pub open spec fn are_candidates(index: &DirsIndex, path: Seq<u8>, files: Seq<Seq<u8>>) -> bool {
    &&& files.len() == index.matching(dir_suffix(path)).len()
    &&& forall|i: int| 0 <= i < files.len() ==> is_candidate(index, path, #[trigger] files[i])
    &&& forall|inner: Seq<u8>| #[trigger]
        index.matching(dir_suffix(path)).contains(inner) ==> files.contains(
            file_in(index.root(), inner, file_name(path)),
        )
}

/// The files that a request may mean: in each indexed directory whose
/// relative path ends as the request path asks, the file of the name that
/// it asks for. Whether such a file exists is not looked at.
pub fn candidate_files(index: &DirsIndex, request: &HttpRequest) -> (files: Vec<String>)
    ensures
        are_candidates(index, request@.path, found_paths(files@)),
{
    let (suffix, name) = split_path(request);
    let dirs = index.find_dirs_by_suffix(suffix);
    let ghost matching = index.matching(dir_suffix(request@.path));
    let ghost root = index.root();
    let mut files: Vec<String> = Vec::new();
    let mut n: usize = 0;
    while n < dirs.len()
        invariant
            n <= dirs@.len(),
            files@.len() == n,
            forall|i: int|
                0 <= i < n ==> #[trigger] found_paths(files@)[i] == join_path(
                    found_paths(dirs@)[i],
                    name.spec_bytes(),
                ),
        decreases dirs@.len() - n,
    {
        let dir = dirs[n].as_str();
        proof {
            encode_utf8_valid_utf8(dir@);
            encode_utf8_valid_utf8(name@);
            lemma_join_is_utf8(dir.spec_bytes(), name.spec_bytes());
        }
        let file = join(dir.as_bytes(), name.as_bytes());
        let ghost before = files@;
        files.push(text_of(file.as_slice()));
        proof {
            assert forall|i: int| 0 <= i < n + 1 implies #[trigger] found_paths(files@)[i]
                == join_path(found_paths(dirs@)[i], name.spec_bytes()) by {
                if i < n {
                    assert(found_paths(files@)[i] == found_paths(before)[i]);
                }
            }
        }
        n = n + 1;
    }
    proof {
        assert forall|i: int| 0 <= i < files@.len() implies is_candidate(
            index,
            request@.path,
            #[trigger] found_paths(files@)[i],
        ) by {
            let dir = found_paths(dirs@)[i];
            let inner = relative_to(root, dir);
            assert(matching.contains(inner));
        }
        assert forall|inner: Seq<u8>| #[trigger] matching.contains(inner) implies found_paths(
            files@,
        ).contains(file_in(root, inner, name.spec_bytes())) by {
            let dir = join_path(root, inner);
            assert(found_paths(dirs@).contains(dir));
            let i = choose|i: int| 0 <= i < dirs@.len() && found_paths(dirs@)[i] == dir;
            assert(found_paths(files@)[i] == file_in(root, inner, name.spec_bytes()));
        }
    }
    files
}

/// Whether `is_file` says of the candidate at `at` that it is a regular
/// file.
pub open spec fn says_file(is_file: Seq<bool>, at: int) -> bool {
    0 <= at < is_file.len() && is_file[at]
}

/// Those of the `candidates` that are regular files: the candidate at
/// index `i` is one where `is_file[i]` says so. A candidate for which
/// `is_file` is too short to say anything counts as none.
pub open spec fn existing(candidates: Seq<Seq<u8>>, is_file: Seq<bool>) -> Seq<Seq<u8>>
    decreases candidates.len(),
{
    if candidates.len() == 0 {
        Seq::empty()
    } else {
        let before = existing(candidates.drop_last(), is_file);
        if says_file(is_file, candidates.len() - 1) {
            before.push(candidates.last())
        } else {
            before
        }
    }
}

/// What a request resolves to: the one candidate that is a regular file;
/// `404 Not Found` where there is none; `303 Multiple Choices` with their
/// number where there are several.
pub open spec fn resolution(candidates: Seq<Seq<u8>>, is_file: Seq<bool>) -> Result<
    Seq<u8>,
    ResponseView,
> {
    let files = existing(candidates, is_file);
    if files.len() == 0 {
        Err(ResponseView::not_found())
    } else if files.len() > 1 {
        Err(ResponseView::multiple_choices(files.len()))
    } else {
        Ok(files[0])
    }
}

/// The files among the candidates are those candidates for which `is_file`
/// says so, and no others.
pub proof fn lemma_existing_are_the_files(
    candidates: Seq<Seq<u8>>,
    is_file: Seq<bool>,
    file: Seq<u8>,
)
    ensures
        existing(candidates, is_file).contains(file) <==> exists|i: int|
            0 <= i < candidates.len() && says_file(is_file, i) && #[trigger] candidates[i] == file,
    decreases candidates.len(),
{
    if candidates.len() > 0 {
        let before = candidates.drop_last();
        let last = candidates.len() - 1;
        lemma_existing_are_the_files(before, is_file, file);
        let kept = existing(before, is_file);
        if existing(candidates, is_file).contains(file) {
            if kept.contains(file) {
                let i = choose|i: int|
                    0 <= i < before.len() && says_file(is_file, i) && #[trigger] before[i] == file;
                assert(candidates[i] == file);
            } else {
                let at = choose|at: int|
                    0 <= at < existing(candidates, is_file).len() && existing(
                        candidates,
                        is_file,
                    )[at] == file;
                assert(says_file(is_file, last));
                assert(existing(candidates, is_file) == kept.push(candidates.last()));
                if at < kept.len() {
                    assert(kept[at] == file);
                }
                assert(candidates[last] == file);
            }
        }
        if exists|i: int|
            0 <= i < candidates.len() && says_file(is_file, i) && #[trigger] candidates[i] == file {
            let i = choose|i: int|
                0 <= i < candidates.len() && says_file(is_file, i) && #[trigger] candidates[i] == file;
            if i < last {
                assert(before[i] == file);
                assert(kept.contains(file));
                let at = choose|at: int| 0 <= at < kept.len() && kept[at] == file;
                if says_file(is_file, last) {
                    assert(kept.push(candidates.last())[at] == file);
                }
            } else {
                assert(kept.push(candidates.last())[kept.len() as int] == file);
            }
        }
    }
}

/// A request resolves to a file only where exactly one of its candidates
/// is a regular file, and then to that one: a file of the name that the
/// request asks for, in an indexed directory whose relative path ends as
/// the request asks.
pub proof fn lemma_resolved_file_is_the_one_candidate(
    index: &DirsIndex,
    path: Seq<u8>,
    candidates: Seq<Seq<u8>>,
    is_file: Seq<bool>,
)
    requires
        forall|i: int| 0 <= i < candidates.len() ==> is_candidate(index, path, #[trigger] candidates[i]),
    ensures
        resolution(candidates, is_file) is Ok <==> existing(candidates, is_file).len() == 1,
        resolution(candidates, is_file) matches Ok(file) ==> {
            &&& existing(candidates, is_file) == seq![file]
            &&& is_candidate(index, path, file)
            &&& exists|i: int|
                0 <= i < candidates.len() && says_file(is_file, i) && #[trigger] candidates[i] == file
        },
{
    let files = existing(candidates, is_file);
    if files.len() == 1 {
        let file = files[0];
        assert(files =~= seq![file]);
        assert(files.contains(file));
        lemma_existing_are_the_files(candidates, is_file, file);
    }
}

/// Where `is_file` says of no candidate that it is a regular file, none
/// of them is.
pub proof fn lemma_no_file_among(candidates: Seq<Seq<u8>>, is_file: Seq<bool>)
    requires
        forall|i: int| 0 <= i < candidates.len() ==> !#[trigger] says_file(is_file, i),
    ensures
        existing(candidates, is_file) == Seq::<Seq<u8>>::empty(),
    decreases candidates.len(),
{
    if candidates.len() > 0 {
        lemma_no_file_among(candidates.drop_last(), is_file);
    }
}

/// Where `is_file` says of the candidate at `at`, and of no other, that it
/// is a regular file, that candidate is the one file among them.
pub proof fn lemma_one_file_among(candidates: Seq<Seq<u8>>, is_file: Seq<bool>, at: int)
    requires
        0 <= at < candidates.len(),
        forall|i: int| 0 <= i < candidates.len() ==> (#[trigger] says_file(is_file, i) <==> i == at),
    ensures
        existing(candidates, is_file) == seq![candidates[at]],
    decreases candidates.len(),
{
    let before = candidates.drop_last();
    let last = candidates.len() - 1;
    if at == last {
        assert(says_file(is_file, last));
        lemma_no_file_among(before, is_file);
        assert(Seq::<Seq<u8>>::empty().push(candidates.last()) =~= seq![candidates[at]]);
    } else {
        assert(!says_file(is_file, last));
        lemma_one_file_among(before, is_file, at);
        assert(before[at] == candidates[at]);
    }
}

/// The same file in two directories with tidy paths below one root means
/// that the two are one directory.
pub proof fn lemma_file_in_one_dir(root: Seq<u8>, one: Seq<u8>, other: Seq<u8>, name: Seq<u8>)
    requires
        is_tidy_path(one),
        is_tidy_path(other),
        file_in(root, one, name) == file_in(root, other, name),
    ensures
        one == other,
{
    let lead = join_path(root, Seq::empty());
    let a = join_path(root, one);
    let b = join_path(root, other);
    assert(a =~= lead + one);
    assert(b =~= lead + other);
    assert(a.last() == one.last() && b.last() == other.last());
    let full_a = file_in(root, one, name);
    let full_b = file_in(root, other, name);
    assert(full_a =~= lead + one + seq![SLASH] + name);
    assert(full_b =~= lead + other + seq![SLASH] + name);
    assert(one.len() == other.len());
    assert forall|i: int| 0 <= i < one.len() implies one[i] == other[i] by {
        assert(full_a[lead.len() + i] == one[i]);
        assert(full_b[lead.len() + i] == other[i]);
    }
    assert(one =~= other);
}

/// Where every indexed directory has a tidy path, as in the index of a
/// tree that a file system gives, no file stands twice among the
/// candidates of a request.
pub proof fn lemma_candidates_are_distinct(
    index: &DirsIndex,
    path: Seq<u8>,
    candidates: Seq<Seq<u8>>,
)
    requires
        are_candidates(index, path, candidates),
        index.entries().finite(),
        forall|inner: Seq<u8>| #[trigger] index.entries().contains(inner) ==> is_tidy_path(inner),
    ensures
        candidates.no_duplicates(),
{
    let root = index.root();
    let name = file_name(path);
    let dirs = index.matching(dir_suffix(path));
    let file = |inner: Seq<u8>| file_in(root, inner, name);
    index.entries().lemma_len_filter(|inner: Seq<u8>| ends_with(inner, dir_suffix(path)));
    assert(injective_on(file, dirs)) by {
        assert forall|one: Seq<u8>, other: Seq<u8>|
            dirs.contains(one) && dirs.contains(other) && #[trigger] file(one) == #[trigger] file(
                other,
            ) implies one == other by {
            lemma_file_in_one_dir(root, one, other, name);
        }
    }
    let files = dirs.map(file);
    lemma_map_size(dirs, files, file);
    assert(candidates.to_set() =~= files) by {
        assert forall|given: Seq<u8>| candidates.to_set().contains(given) implies files.contains(
            given,
        ) by {
            let i = choose|i: int| 0 <= i < candidates.len() && candidates[i] == given;
            assert(is_candidate(index, path, candidates[i]));
            let inner = choose|inner: Seq<u8>| #[trigger]
                dirs.contains(inner) && given == file_in(root, inner, name);
            assert(given == file(inner));
        }
        assert forall|given: Seq<u8>| files.contains(given) implies candidates.to_set().contains(
            given,
        ) by {
            let inner = choose|inner: Seq<u8>| dirs.contains(inner) && given == file(inner);
            assert(candidates.contains(file_in(root, inner, name)));
        }
    }
    candidates.lemma_no_dup_set_cardinality();
}

/// Picks the file to serve among the candidates of a request, given for
/// each candidate whether it is a regular file. The server does not guess
/// among several.
pub fn resolve_path(candidates: &Vec<String>, is_file: &[bool]) -> (resolved: Result<
    String,
    HttpResponse,
>)
    ensures
        match resolution(found_paths(candidates@), is_file@) {
            Ok(file) => resolved matches Ok(path) && encode_utf8(path@) == file,
            Err(response) => resolved matches Err(r) && r@ == response,
        },
{
    let ghost paths = found_paths(candidates@);
    let mut files: Vec<String> = Vec::new();
    let mut n: usize = 0;
    assert(paths.take(0) =~= Seq::<Seq<u8>>::empty());
    while n < candidates.len()
        invariant
            n <= candidates@.len(),
            paths == found_paths(candidates@),
            found_paths(files@) == existing(paths.take(n as int), is_file@),
        decreases candidates@.len() - n,
    {
        let ghost before = files@;
        assert(paths.take(n + 1).drop_last() =~= paths.take(n as int));
        if n < is_file.len() && is_file[n] {
            files.push(candidates[n].clone());
            assert(found_paths(files@) =~= found_paths(before).push(paths[n as int]));
        }
        n = n + 1;
    }
    assert(paths.take(n as int) =~= paths);
    if files.len() == 0 {
        Err(HttpResponse::not_found())
    } else if files.len() > 1 {
        Err(HttpResponse::multiple_choices(files.len()))
    } else {
        match files.pop() {
            Some(path) => Ok(path),
            None => unreached(),
        }
    }
}

} // verus!
