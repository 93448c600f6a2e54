//! A directory tree held in memory, and the index of it.

use crate::dirs_index::{DirsIndex, IndexBuilder};
use crate::path::{hidden, is_hidden, is_tidy_path, join_path, SLASH};
use crate::text::starts_with;
use vstd::set_lib::lemma_set_disjoint_lens;
use vstd::prelude::*;
use vstd::string::*;
use vstd::utf8::*;

verus! {

/// An entry of a directory.
#[derive(Debug)]
pub enum TreeEntry {
    /// Anything that is not a directory, by its name.
    File(String),
    /// A directory, by its name, with its own entries.
    Dir(String, Vec<TreeEntry>),
}

impl TreeEntry {
    /// The name of the entry.
    pub open spec fn name(self) -> Seq<u8> {
        match self {
            TreeEntry::File(name) => encode_utf8(name@),
            TreeEntry::Dir(name, _) => encode_utf8(name@),
        }
    }

    /// Whether the entry is a directory that the index takes up.
    pub open spec fn is_indexed(self) -> bool {
        self is Dir && !is_hidden(self.name())
    }
}

/// The directories that the index takes up from the listing `entries` of
/// the directory `dir`, by their paths: every directory whose name does
/// not begin with a dot, and what is taken up from its own listing. What
/// stands below a hidden directory is not looked at.
pub open spec fn indexed_in(dir: Seq<u8>, entries: Seq<TreeEntry>) -> Set<Seq<u8>>
    decreases entries, 1int,
{
    if entries.len() == 0 {
        Set::empty()
    } else {
        indexed_at(dir, entries.first()).union(indexed_in(dir, entries.drop_first()))
    }
}

/// The directories that the index takes up from one entry of the directory
/// `dir`.
pub open spec fn indexed_at(dir: Seq<u8>, entry: TreeEntry) -> Set<Seq<u8>>
    decreases entry, 0int,
{
    match entry {
        TreeEntry::Dir(name, entries) => if is_hidden(encode_utf8(name@)) {
            Set::empty()
        } else {
            indexed_in(join_path(dir, encode_utf8(name@)), entries@).insert(
                join_path(dir, encode_utf8(name@)),
            )
        },
        TreeEntry::File(_) => Set::empty(),
    }
}

/// The directories of a tree that the index takes up, by their paths
/// relative to the root whose listing `entries` is. The root itself is not
/// among them.
pub open spec fn tree_dirs(entries: Seq<TreeEntry>) -> Set<Seq<u8>> {
    indexed_in(Seq::empty(), entries)
}

/// The number of directories that the index takes up from a listing: those
/// whose name does not begin with a dot, and those of their own listings.
pub open spec fn count_in(entries: Seq<TreeEntry>) -> nat
    decreases entries, 1int,
{
    if entries.len() == 0 {
        0
    } else {
        count_at(entries.first()) + count_in(entries.drop_first())
    }
}

/// The number of directories that the index takes up from one entry.
pub open spec fn count_at(entry: TreeEntry) -> nat
    decreases entry, 0int,
{
    match entry {
        TreeEntry::Dir(name, entries) => if is_hidden(encode_utf8(name@)) {
            0
        } else {
            1 + count_in(entries@)
        },
        TreeEntry::File(_) => 0,
    }
}

/// Whether `name` can be the name of an entry: it is not empty and holds no
/// slash.
pub open spec fn is_plain_name(name: Seq<u8>) -> bool {
    name.len() > 0 && forall|i: int| 0 <= i < name.len() ==> name[i] != SLASH
}

/// Whether a listing is one that a file system gives: every name in it is
/// plain, no two entries have one name, and the listing of every directory
/// in it is of this kind too.
pub open spec fn is_proper_listing(entries: Seq<TreeEntry>) -> bool
    decreases entries, 1int,
{
    entries.len() > 0 ==> {
        &&& is_plain_name(entries.first().name())
        &&& forall|i: int|
            0 < i < entries.len() ==> (#[trigger] entries[i]).name() != entries.first().name()
        &&& is_proper_entry(entries.first())
        &&& is_proper_listing(entries.drop_first())
    }
}

/// Whether the listing of the entry, if it is a directory, is proper.
pub open spec fn is_proper_entry(entry: TreeEntry) -> bool
    decreases entry, 0int,
{
    match entry {
        TreeEntry::Dir(_, entries) => is_proper_listing(entries@),
        TreeEntry::File(_) => true,
    }
}

/// Whether `path` is `base` or stands below it.
spec fn at_or_below(base: Seq<u8>, path: Seq<u8>) -> bool {
    starts_with(path, base) && (path.len() == base.len() || path[base.len() as int] == SLASH)
}

/// Whether `path` is the path of a plainly named entry of `entries` in
/// `dir`, or stands below one.
spec fn below_an_entry(dir: Seq<u8>, entries: Seq<TreeEntry>, path: Seq<u8>) -> bool {
    exists|i: int|
        0 <= i < entries.len() && is_plain_name((#[trigger] entries[i]).name()) && at_or_below(
            join_path(dir, entries[i].name()),
            path,
        )
}

/// What stands at or below an entry of one name stands at or below no entry
/// of another name in the same directory.
proof fn lemma_names_part_paths(dir: Seq<u8>, one: Seq<u8>, other: Seq<u8>, path: Seq<u8>)
    requires
        is_plain_name(one),
        is_plain_name(other),
        one != other,
        at_or_below(join_path(dir, one), path),
    ensures
        !at_or_below(join_path(dir, other), path),
{
    let lead = join_path(dir, Seq::empty());
    assert(join_path(dir, one) =~= lead + one);
    assert(join_path(dir, other) =~= lead + other);
    if at_or_below(lead + other, path) {
        let a = (lead + one).len() as int;
        let b = (lead + other).len() as int;
        assert(path.subrange(0, a) == lead + one);
        assert(path.subrange(0, b) == lead + other);
        assert forall|k: int| 0 <= k < one.len() && k < other.len() implies one[k] == other[k] by {
            assert(path.subrange(0, a)[lead.len() + k] == (lead + one)[lead.len() + k]);
            assert(path.subrange(0, b)[lead.len() + k] == (lead + other)[lead.len() + k]);
        }
        if one.len() == other.len() {
            assert(one =~= other);
        } else if one.len() < other.len() {
            assert(path[a] == SLASH);
            assert(path.subrange(0, b)[a] == (lead + other)[a]);
            assert(other[one.len() as int] == SLASH);
        } else {
            assert(path[b] == SLASH);
            assert(path.subrange(0, a)[b] == (lead + one)[b]);
            assert(one[other.len() as int] == SLASH);
        }
    }
}

/// What stands below an entry stands below its directory.
proof fn lemma_below_entry_is_below_dir(dir: Seq<u8>, name: Seq<u8>, path: Seq<u8>)
    requires
        dir.len() > 0,
        dir.last() != SLASH,
        at_or_below(join_path(dir, name), path),
    ensures
        at_or_below(dir, path),
        path.len() > dir.len(),
{
    let full = join_path(dir, name);
    assert(full =~= dir + seq![SLASH] + name);
    assert(path.subrange(0, full.len() as int) == full);
    assert(path.subrange(0, dir.len() as int) =~= dir) by {
        assert forall|k: int| 0 <= k < dir.len() implies path[k] == dir[k] by {
            assert(path.subrange(0, full.len() as int)[k] == full[k]);
        }
    }
    assert(path.subrange(0, full.len() as int)[dir.len() as int] == full[dir.len() as int]);
}

/// Of a proper listing the index takes up finitely many directories, as
/// many as [`count_in`] counts, and each of them at or below an entry of
/// the listing.
proof fn lemma_indexed_in(dir: Seq<u8>, entries: Seq<TreeEntry>)
    requires
        is_proper_listing(entries),
    ensures
        indexed_in(dir, entries).finite(),
        indexed_in(dir, entries).len() == count_in(entries),
        forall|path: Seq<u8>| #[trigger]
            indexed_in(dir, entries).contains(path) ==> below_an_entry(dir, entries, path),
    decreases entries, 1int,
{
    if entries.len() > 0 {
        let first = entries.first();
        let rest = entries.drop_first();
        let here = indexed_at(dir, first);
        let there = indexed_in(dir, rest);
        lemma_indexed_at(dir, first);
        lemma_indexed_in(dir, rest);
        assert forall|path: Seq<u8>| #[trigger] there.contains(path) implies below_an_entry(
            dir,
            entries,
            path,
        ) && !here.contains(path) by {
            let i = choose|i: int|
                0 <= i < rest.len() && is_plain_name((#[trigger] rest[i]).name()) && at_or_below(
                    join_path(dir, rest[i].name()),
                    path,
                );
            assert(rest[i] == entries[i + 1]);
            lemma_names_part_paths(dir, rest[i].name(), first.name(), path);
        }
        assert forall|path: Seq<u8>| #[trigger] here.contains(path) implies below_an_entry(
            dir,
            entries,
            path,
        ) by {
            assert(entries[0] == first);
        }
        assert(here.disjoint(there));
        lemma_set_disjoint_lens(here, there);
    }
}

/// Of an entry with a plain name and a proper listing the index takes up
/// finitely many directories, as many as [`count_at`] counts, and each of
/// them at or below the entry.
proof fn lemma_indexed_at(dir: Seq<u8>, entry: TreeEntry)
    requires
        is_plain_name(entry.name()),
        is_proper_entry(entry),
    ensures
        indexed_at(dir, entry).finite(),
        indexed_at(dir, entry).len() == count_at(entry),
        forall|path: Seq<u8>| #[trigger]
            indexed_at(dir, entry).contains(path) ==> at_or_below(
                join_path(dir, entry.name()),
                path,
            ),
    decreases entry, 0int,
{
    match entry {
        TreeEntry::Dir(name, entries) => {
            if !is_hidden(encode_utf8(name@)) {
                let own = join_path(dir, encode_utf8(name@));
                let below = indexed_in(own, entries@);
                lemma_indexed_in(own, entries@);
                assert(own.len() > 0 && own.last() == entry.name().last());
                assert(own.subrange(0, own.len() as int) =~= own);
                assert forall|path: Seq<u8>| #[trigger] below.contains(path) implies at_or_below(
                    own,
                    path,
                ) && path != own by {
                    let i = choose|i: int|
                        0 <= i < entries@.len() && is_plain_name((#[trigger] entries@[i]).name())
                            && at_or_below(join_path(own, entries@[i].name()), path);
                    lemma_below_entry_is_below_dir(own, entries@[i].name(), path);
                }
                assert(!below.contains(own));
            }
        },
        TreeEntry::File(_) => {},
    }
}

/// Every directory that the index takes up from a proper listing has a
/// tidy path.
proof fn lemma_indexed_in_is_tidy(dir: Seq<u8>, entries: Seq<TreeEntry>)
    requires
        is_proper_listing(entries),
    ensures
        forall|path: Seq<u8>| #[trigger]
            indexed_in(dir, entries).contains(path) ==> is_tidy_path(path),
    decreases entries, 1int,
{
    if entries.len() > 0 {
        let here = indexed_at(dir, entries.first());
        let there = indexed_in(dir, entries.drop_first());
        lemma_indexed_at_is_tidy(dir, entries.first());
        lemma_indexed_in_is_tidy(dir, entries.drop_first());
        assert forall|path: Seq<u8>| #[trigger]
            indexed_in(dir, entries).contains(path) implies is_tidy_path(path) by {
            assert(here.contains(path) || there.contains(path));
        }
    }
}

/// Every directory that the index takes up from an entry with a plain
/// name and a proper listing has a tidy path.
proof fn lemma_indexed_at_is_tidy(dir: Seq<u8>, entry: TreeEntry)
    requires
        is_plain_name(entry.name()),
        is_proper_entry(entry),
    ensures
        forall|path: Seq<u8>| #[trigger]
            indexed_at(dir, entry).contains(path) ==> is_tidy_path(path),
    decreases entry, 0int,
{
    match entry {
        TreeEntry::Dir(name, entries) => {
            if !is_hidden(encode_utf8(name@)) {
                let own = join_path(dir, encode_utf8(name@));
                let below = indexed_in(own, entries@);
                lemma_indexed_in_is_tidy(own, entries@);
                assert(own.len() > 0 && own.last() == entry.name().last());
                assert(entry.name()[entry.name().len() - 1] != SLASH);
                assert forall|path: Seq<u8>| #[trigger]
                    indexed_at(dir, entry).contains(path) implies is_tidy_path(path) by {
                    assert(path == own || below.contains(path));
                }
            }
        },
        TreeEntry::File(_) => {},
    }
}

/// In a tree as a file system gives it every indexed directory has a tidy
/// relative path: it is not empty and does not end with a slash.
pub proof fn lemma_tree_dirs_are_tidy(entries: Seq<TreeEntry>)
    requires
        is_proper_listing(entries),
    ensures
        forall|path: Seq<u8>| #[trigger] tree_dirs(entries).contains(path) ==> is_tidy_path(path),
{
    lemma_indexed_in_is_tidy(Seq::empty(), entries);
}

/// The index of a tree holds as many directories as the tree has
/// directories that are not hidden and stand below no hidden directory,
/// the root not counted: in a tree as a file system gives it, where the
/// names in a directory differ from one another, each of them has a path of
/// its own.
pub proof fn lemma_index_counts_directories(entries: Seq<TreeEntry>)
    requires
        is_proper_listing(entries),
    ensures
        tree_dirs(entries).finite(),
        tree_dirs(entries).len() == count_in(entries),
{
    lemma_indexed_in(Seq::empty(), entries);
}

/// The number of entries in a listing and below it.
spec fn listing_size(entries: Seq<TreeEntry>) -> nat
    decreases entries, 1int,
{
    if entries.len() == 0 {
        0
    } else {
        entry_size(entries.first()) + listing_size(entries.drop_first())
    }
}

/// The number of entries that an entry stands for: itself and what is below
/// it.
spec fn entry_size(entry: TreeEntry) -> nat
    decreases entry, 0int,
{
    match entry {
        TreeEntry::Dir(_, entries) => 1 + listing_size(entries@),
        TreeEntry::File(_) => 1,
    }
}

/// The listings that wait on the stack of a walk.
spec fn listing_views(listings: Seq<&Vec<TreeEntry>>) -> Seq<Seq<TreeEntry>> {
    listings.map_values(|listing: &Vec<TreeEntry>| listing@)
}

/// What the index is still to take up: from each directory that waits, what
/// its listing gives.
spec fn pending_dirs(dirs: Seq<Seq<u8>>, listings: Seq<Seq<TreeEntry>>) -> Set<Seq<u8>>
    decreases listings.len(),
{
    if listings.len() == 0 || dirs.len() == 0 {
        Set::empty()
    } else {
        pending_dirs(dirs.drop_last(), listings.drop_last()).union(
            indexed_in(dirs.last(), listings.last()),
        )
    }
}

/// The work that waits on the stack: one for each directory and one for
/// each entry below it.
spec fn pending_size(listings: Seq<Seq<TreeEntry>>) -> nat
    decreases listings.len(),
{
    if listings.len() == 0 {
        0
    } else {
        pending_size(listings.drop_last()) + 1 + listing_size(listings.last())
    }
}

proof fn lemma_pending_push(
    dirs: Seq<Seq<u8>>,
    listings: Seq<Seq<TreeEntry>>,
    dir: Seq<u8>,
    listing: Seq<TreeEntry>,
)
    requires
        dirs.len() == listings.len(),
    ensures
        pending_dirs(dirs.push(dir), listings.push(listing)) == pending_dirs(dirs, listings).union(
            indexed_in(dir, listing),
        ),
        pending_size(listings.push(listing)) == pending_size(listings) + 1 + listing_size(listing),
{
    assert(dirs.push(dir).drop_last() =~= dirs);
    assert(listings.push(listing).drop_last() =~= listings);
}

impl DirsIndex {
    /// Builds the index of the tree below `root` whose listing `entries`
    /// is. The tree is walked depth first, with a stack in place of
    /// recursion; directories whose name begins with a dot are left out,
    /// with all that is below them.
    pub fn build(root: String, entries: &Vec<TreeEntry>) -> (index: DirsIndex)
        ensures
            index.root() == encode_utf8(root@),
            index.entries() == tree_dirs(entries@),
    {
        let ghost target = tree_dirs(entries@);
        let ghost root_bytes = encode_utf8(root@);
        let mut builder = IndexBuilder::new(root);
        let mut listings: Vec<&Vec<TreeEntry>> = Vec::new();
        listings.push(entries);
        proof {
            let dirs = builder.pending();
            let waiting = listing_views(listings@);
            let none = Seq::<Seq<u8>>::empty();
            let nothing = Seq::<Seq<TreeEntry>>::empty();
            assert(waiting =~= nothing.push(entries@));
            assert(dirs =~= none.push(Seq::empty()));
            lemma_pending_push(none, nothing, Seq::empty(), entries@);
            assert(pending_dirs(dirs, waiting) =~= target);
            assert(builder.entries().union(pending_dirs(dirs, waiting)) =~= target);
        }
        while listings.len() > 0
            invariant
                builder.root() == root_bytes,
                listings@.len() == builder.pending().len(),
                builder.entries().union(pending_dirs(builder.pending(), listing_views(listings@)))
                    == target,
            decreases pending_size(listing_views(listings@)),
        {
            let ghost waiting = listing_views(listings@);
            let (next, dir) = builder.next_dir();
            builder = next;
            let dir = match dir {
                Some(dir) => dir,
                None => unreached(),
            };
            let listing = match listings.pop() {
                Some(listing) => listing,
                None => unreached(),
            };
            proof {
                assert(listing_views(listings@) =~= waiting.drop_last());
                assert(listing@ == waiting.last());
                assert(listing@.skip(0) =~= listing@);
            }
            let mut n: usize = 0;
            while n < listing.len()
                invariant
                    n <= listing@.len(),
                    builder.root() == root_bytes,
                    listings@.len() == builder.pending().len(),
                    builder.entries().union(
                        pending_dirs(builder.pending(), listing_views(listings@)),
                    ).union(indexed_in(encode_utf8(dir@), listing@.skip(n as int))) == target,
                    pending_size(listing_views(listings@)) + listing_size(listing@.skip(n as int))
                        < pending_size(waiting),
                decreases listing@.len() - n,
            {
                let ghost rest = listing@.skip(n as int);
                let ghost here = encode_utf8(dir@);
                let ghost stack_dirs = builder.pending();
                let ghost stack = listing_views(listings@);
                let ghost before = builder.entries();
                proof {
                    assert(rest.first() == listing@[n as int]);
                    assert(rest.drop_first() =~= listing@.skip(n + 1));
                    assert(indexed_in(here, rest) == indexed_at(here, rest.first()).union(
                        indexed_in(here, rest.drop_first()),
                    ));
                    assert(listing_size(rest) == entry_size(rest.first()) + listing_size(
                        rest.drop_first(),
                    ));
                }
                match &listing[n] {
                    TreeEntry::File(name) => {
                        builder = builder.visit(dir.as_str(), name.as_str(), false);
                        assert(indexed_at(here, rest.first()) =~= Set::<Seq<u8>>::empty());
                    },
                    TreeEntry::Dir(name, inner) => {
                        builder = builder.visit(dir.as_str(), name.as_str(), true);
                        if !hidden(name.as_str().as_bytes()) {
                            listings.push(inner);
                            proof {
                                let path = join_path(here, encode_utf8(name@));
                                assert(listing_views(listings@) =~= stack.push(inner@));
                                lemma_pending_push(stack_dirs, stack, path, inner@);
                                assert(indexed_at(here, rest.first()) == indexed_in(
                                    path,
                                    inner@,
                                ).insert(path));
                                assert(entry_size(rest.first()) == 1 + listing_size(inner@));
                                assert(before.insert(path).union(
                                    pending_dirs(stack_dirs, stack).union(
                                        indexed_in(path, inner@),
                                    ),
                                ).union(indexed_in(here, rest.drop_first())) =~= before.union(
                                    pending_dirs(stack_dirs, stack),
                                ).union(indexed_in(here, rest)));
                            }
                        } else {
                            assert(indexed_at(here, rest.first()) =~= Set::<Seq<u8>>::empty());
                        }
                    },
                }
                proof {
                    assert(builder.entries().union(
                        pending_dirs(builder.pending(), listing_views(listings@)),
                    ).union(indexed_in(here, listing@.skip(n + 1))) =~= target);
                }
                n = n + 1;
            }
            proof {
                assert(listing@.skip(n as int) =~= Seq::<TreeEntry>::empty());
                assert(builder.entries().union(
                    pending_dirs(builder.pending(), listing_views(listings@)),
                ) =~= target);
            }
        }
        proof {
            assert(pending_dirs(builder.pending(), listing_views(listings@)) =~= Set::<
                Seq<u8>,
            >::empty());
            assert(builder.entries() =~= target);
        }
        builder.finish()
    }
}

} // verus!
