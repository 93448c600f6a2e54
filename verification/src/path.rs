//! Paths as byte strings with `/` between their segments.

use crate::text::push_bytes;
use crate::utf8::str_from_utf8;
use vstd::prelude::*;
use vstd::string::*;
use vstd::utf8::*;

verus! {

/// The byte that stands between the segments of a path.
pub const SLASH: u8 = 0x2f;

/// The byte with which the name of a hidden directory begins.
pub const DOT: u8 = 0x2e;

/// Whether `path` can be the path of a request: it begins with a slash.
pub open spec fn is_absolute_path(path: Seq<u8>) -> bool {
    path.len() > 0 && path[0] == SLASH
}

/// Whether `path` can be the path of a request.
pub fn absolute(path: &[u8]) -> (fits: bool)
    ensures
        fits == is_absolute_path(path@),
{
    path.len() > 0 && path[0] == SLASH
}

/// The path of `name` below `dir`: the two with one slash between them,
/// which `dir` brings along if it ends with one. Below the empty path a
/// name stands for itself.
pub open spec fn join_path(dir: Seq<u8>, name: Seq<u8>) -> Seq<u8> {
    if dir.len() == 0 || dir.last() == SLASH {
        dir + name
    } else {
        dir + seq![SLASH] + name
    }
}

/// Whether `path` is as a walk through a tree gives it: it is not empty
/// and does not end with a slash.
pub open spec fn is_tidy_path(path: Seq<u8>) -> bool {
    path.len() > 0 && path.last() != SLASH
}

/// Whether a directory of this name is left out of the index: its name
/// begins with a dot.
pub open spec fn is_hidden(name: Seq<u8>) -> bool {
    name.len() > 0 && name[0] == DOT
}

/// A slash alone is well-formed UTF-8.
pub proof fn lemma_slash_is_utf8()
    ensures
        valid_utf8(seq![SLASH]),
{
    reveal_strlit("/");
    is_ascii_spec_bytes("/");
    encode_utf8_valid_utf8("/"@);
    assert("/".spec_bytes() =~= seq![SLASH]);
}

/// Joining two texts gives a text.
pub proof fn lemma_join_is_utf8(dir: Seq<u8>, name: Seq<u8>)
    requires
        valid_utf8(dir),
        valid_utf8(name),
    ensures
        valid_utf8(join_path(dir, name)),
{
    lemma_slash_is_utf8();
    valid_utf8_concat(dir, seq![SLASH]);
    valid_utf8_concat(dir + seq![SLASH], name);
    valid_utf8_concat(dir, name);
}

/// The path of `name` below `dir`.
pub fn join(dir: &[u8], name: &[u8]) -> (path: Vec<u8>)
    ensures
        path@ == join_path(dir@, name@),
{
    let mut path: Vec<u8> = Vec::new();
    push_bytes(&mut path, dir);
    if dir.len() > 0 && dir[dir.len() - 1] != SLASH {
        path.push(SLASH);
    }
    push_bytes(&mut path, name);
    assert(path@ =~= join_path(dir@, name@));
    path
}

/// Whether a directory of this name is left out of the index.
pub fn hidden(name: &[u8]) -> (hide: bool)
    ensures
        hide == is_hidden(name@),
{
    name.len() > 0 && name[0] == DOT
}

/// The text that `bytes` encode.
pub(crate) fn text_of(bytes: &[u8]) -> (text: String)
    requires
        valid_utf8(bytes@),
    ensures
        encode_utf8(text@) == bytes@,
{
    match str_from_utf8(bytes) {
        Some(text) => text.to_owned(),
        None => unreached(),
    }
}

} // verus!
