//! The set of byte strings of the `patricia_tree` crate.

use crate::text::{lex_less, starts_with};
use patricia_tree::PatriciaSet;
use vstd::prelude::*;

verus! {

/// The set type of the `patricia_tree` crate, of which `PatriciaSet` is
/// the instance for byte strings. Nothing inside a value of it is seen.
#[verifier::external_type_specification]
#[verifier::external_body]
#[verifier::reject_recursive_types(T)]
pub struct ExGenericPatriciaSet<T>(patricia_tree::GenericPatriciaSet<T>);

/// The byte strings that the set holds.
pub uninterp spec fn set_keys(set: PatriciaSet) -> Set<Seq<u8>>;

/// The byte strings held by each key of a list, in its order.
pub open spec fn key_views(keys: Seq<Vec<u8>>) -> Seq<Seq<u8>> {
    keys.map_values(|key: Vec<u8>| key@)
}

/// Calls `PatriciaSet::new`. Trusted: the new set holds nothing.
#[verifier::external_body]
pub(crate) fn empty_set() -> (set: PatriciaSet)
    ensures
        set_keys(set) == Set::<Seq<u8>>::empty(),
{
    PatriciaSet::new()
}

/// Calls `PatriciaSet::insert`. Trusted: the key is in the set afterwards
/// and nothing else has changed; the answer is whether the key was new.
#[verifier::external_body]
pub(crate) fn set_insert(set: &mut PatriciaSet, key: Vec<u8>) -> (fresh: bool)
    ensures
        set_keys(*final(set)) == set_keys(*old(set)).insert(key@),
        fresh == !set_keys(*old(set)).contains(key@),
{
    set.insert(key)
}

/// Calls `PatriciaSet::len`. Trusted: the answer is the number of keys
/// that the set holds.
#[verifier::external_body]
pub(crate) fn set_len(set: &PatriciaSet) -> (count: usize)
    ensures
        count == set_keys(*set).len(),
{
    set.len()
}

/// Calls `PatriciaSet::iter_prefix` and collects what it yields. Trusted:
/// these are the keys of the set that begin with `prefix`, each once, in
/// the order of byte strings.
#[verifier::external_body]
pub(crate) fn keys_with_prefix(set: &PatriciaSet, prefix: &[u8]) -> (keys: Vec<Vec<u8>>)
    ensures
        key_views(keys@).to_set() == set_keys(*set).filter(
            |key: Seq<u8>| starts_with(key, prefix@),
        ),
        forall|i: int, j: int|
            0 <= i < j < keys@.len() ==> lex_less(
                #[trigger] key_views(keys@)[i],
                #[trigger] key_views(keys@)[j],
            ),
{
    set.iter_prefix(prefix).collect()
}

} // verus!
