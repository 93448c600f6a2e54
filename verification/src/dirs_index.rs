//! The index of the directories below a root, asked by the end of a path.

use crate::path::{hidden, is_hidden, join, join_path, lemma_join_is_utf8, text_of};
use crate::text::{
    ends_with, lemma_lex_less_irreflexive, lemma_reverse_twice, lemma_suffix_is_reversed_prefix,
    lex_less, reversed, starts_with,
};
use crate::trie::{empty_set, key_views, keys_with_prefix, set_insert, set_keys, set_len};
use patricia_tree::PatriciaSet;
use vstd::prelude::*;
use vstd::relations::injective_on;
use vstd::set_lib::lemma_map_size;
use vstd::string::*;
use vstd::utf8::*;

verus! {

/// Whether the keys are the reversed paths of a finite set of texts.
spec fn keys_are_reversed_texts(keys: Set<Seq<u8>>) -> bool {
    keys.finite() && forall|key: Seq<u8>| keys.contains(key) ==> valid_utf8(#[trigger] key.reverse())
}

/// The paths whose reversals are the given keys.
spec fn paths_of_keys(keys: Set<Seq<u8>>) -> Set<Seq<u8>> {
    Set::new(|path: Seq<u8>| keys.contains(path.reverse()))
}

proof fn lemma_paths_of_keys_len(keys: Set<Seq<u8>>)
    requires
        keys.finite(),
    ensures
        paths_of_keys(keys).finite(),
        paths_of_keys(keys).len() == keys.len(),
{
    let turn = |key: Seq<u8>| key.reverse();
    assert(injective_on(turn, keys)) by {
        assert forall|a: Seq<u8>, b: Seq<u8>|
            keys.contains(a) && keys.contains(b) && #[trigger] turn(a) == #[trigger] turn(
                b,
            ) implies a == b by {
            lemma_reverse_twice(a);
            lemma_reverse_twice(b);
        }
    }
    assert(keys.map(turn) =~= paths_of_keys(keys)) by {
        assert forall|path: Seq<u8>| keys.map(turn).contains(path) == paths_of_keys(
            keys,
        ).contains(path) by {
            lemma_reverse_twice(path);
            if paths_of_keys(keys).contains(path) {
                assert(keys.contains(path.reverse()) && path == turn(path.reverse()));
            }
            if keys.map(turn).contains(path) {
                let key = choose|key: Seq<u8>| keys.contains(key) && path == turn(key);
                lemma_reverse_twice(key);
            }
        }
    }
    lemma_map_size(keys, paths_of_keys(keys), turn);
}

proof fn lemma_paths_of_keys_insert(keys: Set<Seq<u8>>, path: Seq<u8>)
    ensures
        paths_of_keys(keys.insert(path.reverse())) == paths_of_keys(keys).insert(path),
{
    assert forall|other: Seq<u8>|
        paths_of_keys(keys.insert(path.reverse())).contains(other) == paths_of_keys(keys).insert(
            path,
        ).contains(other) by {
        lemma_reverse_twice(other);
        lemma_reverse_twice(path);
    }
    assert(paths_of_keys(keys.insert(path.reverse())) =~= paths_of_keys(keys).insert(path));
}

/// The directories below a root, kept so that those whose path ends with a
/// given text are found without a walk through all of them: each path is
/// stored in reverse, so that the end of a path is the beginning of its key.
#[derive(Debug)]
pub struct DirsIndex {
    root: String,
    index: PatriciaSet,
}

impl DirsIndex {
    #[verifier::type_invariant]
    spec fn well_formed(&self) -> bool {
        keys_are_reversed_texts(set_keys(self.index))
    }

    /// The path of the root.
    pub closed spec fn root(&self) -> Seq<u8> {
        encode_utf8(self.root@)
    }

    /// The indexed directories, as paths relative to the root.
    pub closed spec fn entries(&self) -> Set<Seq<u8>> {
        paths_of_keys(set_keys(self.index))
    }

    /// The indexed directories whose relative path ends with `suffix`.
    pub open spec fn matching(&self, suffix: Seq<u8>) -> Set<Seq<u8>> {
        self.entries().filter(|path: Seq<u8>| ends_with(path, suffix))
    }

    /// An index of nothing below `root`.
    pub fn empty(root: String) -> (index: Self)
        ensures
            index.root() == encode_utf8(root@),
            index.entries() == Set::<Seq<u8>>::empty(),
    {
        let index = Self { root, index: empty_set() };
        assert(index.entries() =~= Set::<Seq<u8>>::empty());
        index
    }

    /// The path of the root.
    pub fn root_dir(&self) -> (root: &str)
        ensures
            root.spec_bytes() == self.root(),
    {
        self.root.as_str()
    }

    /// The number of indexed directories.
    pub fn len(&self) -> (count: usize)
        ensures
            self.entries().finite(),
            count == self.entries().len(),
    {
        proof {
            use_type_invariant(self);
            lemma_paths_of_keys_len(set_keys(self.index));
        }
        set_len(&self.index)
    }

    /// Whether no directory is indexed.
    pub fn is_empty(&self) -> (empty: bool)
        ensures
            empty == (self.entries().len() == 0),
    {
        self.len() == 0
    }

    /// The indexed directories whose relative path ends with `suffix`, each
    /// as its path below the root. They come in the order of their reversed
    /// relative paths, so each of them once; a caller should not lean on the
    /// order. The end of a path is held against `suffix` byte by byte: that
    /// `suffix` begins in the middle of a name does not matter.
    pub fn find_dirs_by_suffix(&self, suffix: &str) -> (dirs: Vec<String>)
        ensures
            dirs@.len() == self.matching(suffix.spec_bytes()).len(),
            forall|i: int|
                0 <= i < dirs@.len() ==> {
                    let path = #[trigger] found_paths(dirs@)[i];
                    &&& self.matching(suffix.spec_bytes()).contains(relative_to(self.root(), path))
                    &&& path == join_path(self.root(), relative_to(self.root(), path))
                },
            forall|inner: Seq<u8>| #[trigger]
                self.matching(suffix.spec_bytes()).contains(inner) ==> found_paths(dirs@).contains(
                    join_path(self.root(), inner),
                ),
            forall|i: int, j: int|
                0 <= i < j < dirs@.len() ==> lex_less(
                    relative_to(self.root(), #[trigger] found_paths(dirs@)[i]).reverse(),
                    relative_to(self.root(), #[trigger] found_paths(dirs@)[j]).reverse(),
                ),
    {
        let prefix = reversed(suffix.as_bytes());
        let keys = keys_with_prefix(&self.index, prefix.as_slice());
        let ghost all_keys = set_keys(self.index);
        let ghost root = self.root();
        let ghost end = suffix.spec_bytes();
        let ghost found = key_views(keys@);
        proof {
            use_type_invariant(self);
            encode_utf8_valid_utf8(self.root@);
            assert forall|i: int| 0 <= i < found.len() implies all_keys.contains(
                #[trigger] found[i],
            ) && starts_with(found[i], prefix@) by {
                assert(found.to_set().contains(found[i]));
            }
        }
        let mut dirs: Vec<String> = Vec::new();
        let mut n: usize = 0;
        while n < keys.len()
            invariant
                n <= keys@.len(),
                dirs@.len() == n,
                root == self.root(),
                valid_utf8(root),
                found == key_views(keys@),
                forall|i: int| 0 <= i < found.len() ==> valid_utf8(#[trigger] found[i].reverse()),
                forall|i: int|
                    0 <= i < n ==> #[trigger] found_paths(dirs@)[i] == join_path(
                        root,
                        found[i].reverse(),
                    ),
            decreases keys@.len() - n,
        {
            let inner = reversed(keys[n].as_slice());
            let path = join(self.root.as_str().as_bytes(), inner.as_slice());
            proof {
                assert(inner@ == found[n as int].reverse());
                lemma_join_is_utf8(root, inner@);
            }
            let ghost before = dirs@;
            dirs.push(text_of(path.as_slice()));
            proof {
                assert forall|i: int| 0 <= i < n + 1 implies #[trigger] found_paths(dirs@)[i]
                    == join_path(root, found[i].reverse()) by {
                    if i < n {
                        assert(found_paths(dirs@)[i] == found_paths(before)[i]);
                    }
                }
            }
            n = n + 1;
        }
        proof {
            let matching = self.matching(end);
            let paths = found_paths(dirs@);
            let inners = Seq::new(found.len(), |i: int| found[i].reverse());
            assert forall|i: int| 0 <= i < paths.len() implies relative_to(root, #[trigger] paths[i])
                == inners[i] by {
                lemma_relative_of_join(root, inners[i]);
            }
            assert forall|i: int| 0 <= i < inners.len() implies matching.contains(
                #[trigger] inners[i],
            ) by {
                lemma_reverse_twice(found[i]);
                lemma_reverse_twice(end);
                lemma_suffix_is_reversed_prefix(inners[i], end);
            }
            assert forall|inner: Seq<u8>| #[trigger] matching.contains(inner) implies paths.contains(
                join_path(root, inner),
            ) && inners.contains(inner) by {
                let key = inner.reverse();
                lemma_suffix_is_reversed_prefix(inner, end);
                assert(all_keys.filter(|k: Seq<u8>| starts_with(k, prefix@)).contains(key));
                assert(found.to_set().contains(key));
                let i = choose|i: int| 0 <= i < found.len() && found[i] == key;
                lemma_reverse_twice(inner);
                assert(inners[i] == inner);
                assert(paths[i] == join_path(root, inner));
            }
            assert(inners.no_duplicates()) by {
                assert forall|i: int, j: int|
                    0 <= i < inners.len() && 0 <= j < inners.len() && i != j implies inners[i]
                    != inners[j] by {
                    lemma_reverse_twice(found[i]);
                    lemma_reverse_twice(found[j]);
                    lemma_lex_less_irreflexive(found[i]);
                    if i < j {
                        assert(lex_less(found[i], found[j]));
                    } else {
                        assert(lex_less(found[j], found[i]));
                    }
                }
            }
            inners.unique_seq_to_set();
            assert(inners.to_set() =~= matching);
            assert forall|i: int, j: int| 0 <= i < j < dirs@.len() implies lex_less(
                relative_to(root, #[trigger] paths[i]).reverse(),
                relative_to(root, #[trigger] paths[j]).reverse(),
            ) by {
                lemma_reverse_twice(found[i]);
                lemma_reverse_twice(found[j]);
            }
        }
        dirs
    }
}

/// The byte strings that encode each text of a list, in its order.
pub open spec fn found_paths(dirs: Seq<String>) -> Seq<Seq<u8>> {
    dirs.map_values(|dir: String| encode_utf8(dir@))
}

/// What is left of `path` behind `root` and the slash that follows it.
pub open spec fn relative_to(root: Seq<u8>, path: Seq<u8>) -> Seq<u8> {
    path.skip(join_path(root, Seq::empty()).len() as int)
}

/// A path below a root, taken relative to that root, is the path that was
/// put below it.
pub proof fn lemma_relative_of_join(root: Seq<u8>, inner: Seq<u8>)
    ensures
        relative_to(root, join_path(root, inner)) == inner,
{
    let lead = join_path(root, Seq::empty());
    assert(join_path(root, inner) =~= lead + inner);
    assert((lead + inner).skip(lead.len() as int) =~= inner);
}

/// The walk that fills an index, without the reading of directories: the
/// caller asks for the next directory, lists it, and reports each entry.
/// Directories wait on a stack, so the walk goes depth first.
#[derive(Debug)]
pub struct IndexBuilder {
    root: String,
    index: PatriciaSet,
    pending: Vec<Vec<u8>>,
}

impl IndexBuilder {
    #[verifier::type_invariant]
    spec fn well_formed(&self) -> bool {
        &&& keys_are_reversed_texts(set_keys(self.index))
        &&& forall|i: int| 0 <= i < self.pending@.len() ==> valid_utf8(#[trigger] self.pending@[i]@)
    }

    /// The path of the root.
    pub closed spec fn root(&self) -> Seq<u8> {
        encode_utf8(self.root@)
    }

    /// The directories indexed so far, as paths relative to the root.
    pub closed spec fn entries(&self) -> Set<Seq<u8>> {
        paths_of_keys(set_keys(self.index))
    }

    /// The directories that are still to be listed, as paths relative to
    /// the root; the last one is listed next. The root itself is the empty
    /// path.
    pub closed spec fn pending(&self) -> Seq<Seq<u8>> {
        self.pending@.map_values(|dir: Vec<u8>| dir@)
    }

    /// Starts a walk below `root`: nothing is indexed, and the root waits
    /// to be listed.
    pub fn new(root: String) -> (builder: Self)
        ensures
            builder.root() == encode_utf8(root@),
            builder.entries() == Set::<Seq<u8>>::empty(),
            builder.pending() == seq![Seq::<u8>::empty()],
    {
        let mut pending: Vec<Vec<u8>> = Vec::new();
        pending.push(Vec::new());
        let builder = Self { root, index: empty_set(), pending };
        assert(builder.entries() =~= Set::<Seq<u8>>::empty());
        assert(builder.pending() =~= seq![Seq::<u8>::empty()]);
        builder
    }

    /// Takes the directory that is to be listed next, as a path relative
    /// to the root; `None` when the walk is over.
    pub fn next_dir(self) -> (next: (Self, Option<String>))
        ensures
            next.0.root() == self.root(),
            next.0.entries() == self.entries(),
            match next.1 {
                Some(dir) => self.pending().len() > 0 && encode_utf8(dir@)
                    == self.pending().last() && next.0.pending() == self.pending().drop_last(),
                None => self.pending().len() == 0 && next.0.pending() == self.pending(),
            },
    {
        proof {
            use_type_invariant(&self);
        }
        let IndexBuilder { root, index, mut pending } = self;
        let dir = match pending.pop() {
            Some(dir) => Some(text_of(dir.as_slice())),
            None => None,
        };
        let builder = IndexBuilder { root, index, pending };
        assert(dir is Some ==> builder.pending() =~= self.pending().drop_last());
        assert(dir is None ==> builder.pending() =~= self.pending());
        (builder, dir)
    }

    /// The path of the directory `dir` of the walk, with the root before it.
    pub fn path_of(&self, dir: &str) -> (path: String)
        ensures
            encode_utf8(path@) == join_path(self.root(), dir.spec_bytes()),
    {
        proof {
            encode_utf8_valid_utf8(self.root@);
            encode_utf8_valid_utf8(dir@);
            lemma_join_is_utf8(self.root(), dir.spec_bytes());
        }
        let path = join(self.root.as_str().as_bytes(), dir.as_bytes());
        text_of(path.as_slice())
    }

    /// Reports the entry `name` of the directory `dir`. A directory whose
    /// name does not begin with a dot is indexed under its path below `dir`
    /// and waits to be listed in its turn; any other entry changes nothing.
    pub fn visit(self, dir: &str, name: &str, is_dir: bool) -> (next: Self)
        ensures
            next.root() == self.root(),
            is_dir && !is_hidden(name.spec_bytes()) ==> {
                let path = join_path(dir.spec_bytes(), name.spec_bytes());
                &&& next.entries() == self.entries().insert(path)
                &&& next.pending() == self.pending().push(path)
            },
            !(is_dir && !is_hidden(name.spec_bytes())) ==> {
                &&& next.entries() == self.entries()
                &&& next.pending() == self.pending()
            },
    {
        if !(is_dir && !hidden(name.as_bytes())) {
            return self;
        }
        proof {
            use_type_invariant(&self);
        }
        let IndexBuilder { root, mut index, mut pending } = self;
        let path = join(dir.as_bytes(), name.as_bytes());
        let key = reversed(path.as_slice());
        proof {
            encode_utf8_valid_utf8(dir@);
            encode_utf8_valid_utf8(name@);
            lemma_join_is_utf8(dir.spec_bytes(), name.spec_bytes());
            lemma_reverse_twice(path@);
            lemma_paths_of_keys_insert(set_keys(index), path@);
        }
        set_insert(&mut index, key);
        pending.push(path);
        let builder = IndexBuilder { root, index, pending };
        assert(builder.pending() =~= self.pending().push(path@));
        builder
    }

    /// Ends the walk: the index of what was reported up to here.
    pub fn finish(self) -> (index: DirsIndex)
        ensures
            index.root() == self.root(),
            index.entries() == self.entries(),
    {
        proof {
            use_type_invariant(&self);
        }
        DirsIndex { root: self.root, index: self.index }
    }
}

} // verus!
