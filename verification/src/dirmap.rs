//! Directory tables: an insertion-ordered map from entry names to node
//! numbers, kept in an `indexmap::IndexMap` hashed with hashbrown's default
//! hasher.
use hashbrown::DefaultHashBuilder;
use indexmap::IndexMap;
use vstd::prelude::*;

verus! {

#[verifier::external_type_specification]
#[verifier::external_body]
#[verifier::reject_recursive_types(K)]
#[verifier::reject_recursive_types(V)]
#[verifier::reject_recursive_types(S)]
pub struct ExIndexMap<K, V, S>(IndexMap<K, V, S>);

#[verifier::external_type_specification]
#[verifier::external_body]
pub struct ExDefaultHashBuilder(DefaultHashBuilder);

/// The entries of a directory table, in the map's order: name and node number.
pub uninterp spec fn dir_entries(m: IndexMap<String, usize, DefaultHashBuilder>) -> Seq<
    (Seq<char>, usize),
>;

/// Whether some entry carries the name `key`.
pub open spec fn has_key(entries: Seq<(Seq<char>, usize)>, key: Seq<char>) -> bool {
    exists|i: int| 0 <= i < entries.len() && #[trigger] entries[i].0 == key
}

/// `IndexMap::default`: an empty map.
#[verifier::external_body]
pub(crate) fn map_new() -> (r: IndexMap<String, usize, DefaultHashBuilder>)
    ensures
        dir_entries(r) == Seq::<(Seq<char>, usize)>::empty(),
{
    IndexMap::default()
}

/// `IndexMap::get`: the node number filed under `key`, if any.
#[verifier::external_body]
pub(crate) fn map_get(m: &IndexMap<String, usize, DefaultHashBuilder>, key: &str) -> (r: Option<
    usize,
>)
    ensures
        match r {
            Some(v) => exists|i: int|
                0 <= i < dir_entries(*m).len() && #[trigger] dir_entries(*m)[i] == (key@, v),
            None => !has_key(dir_entries(*m), key@),
        },
{
    m.get(key).copied()
}

/// `IndexMap::insert`: an existing name keeps its place and gets the new
/// node number (the old one is returned); a new name goes last.
#[verifier::external_body]
pub(crate) fn map_insert(
    m: &mut IndexMap<String, usize, DefaultHashBuilder>,
    key: String,
    v: usize,
) -> (r: Option<usize>)
    ensures
        has_key(dir_entries(*old(m)), key@) ==> exists|i: int|
            0 <= i < dir_entries(*old(m)).len() && #[trigger] dir_entries(*old(m))[i].0 == key@
                && r == Some(dir_entries(*old(m))[i].1) && dir_entries(*final(m)) == dir_entries(
                *old(m),
            ).update(i, (key@, v)),
        !has_key(dir_entries(*old(m)), key@) ==> r is None && dir_entries(*final(m)) == dir_entries(
            *old(m),
        ).push((key@, v)),
{
    m.insert(key, v)
}

/// `IndexMap::swap_remove`: the entry named `key` is replaced by the last
/// entry, which is then dropped; its node number is returned.
#[verifier::external_body]
pub(crate) fn map_swap_remove(
    m: &mut IndexMap<String, usize, DefaultHashBuilder>,
    key: &str,
) -> (r: Option<usize>)
    ensures
        has_key(dir_entries(*old(m)), key@) ==> exists|i: int|
            0 <= i < dir_entries(*old(m)).len() && #[trigger] dir_entries(*old(m))[i].0 == key@
                && r == Some(dir_entries(*old(m))[i].1) && dir_entries(*final(m)) == dir_entries(
                *old(m),
            ).update(i, dir_entries(*old(m)).last()).drop_last(),
        !has_key(dir_entries(*old(m)), key@) ==> r is None && dir_entries(*final(m)) == dir_entries(
            *old(m),
        ),
{
    m.swap_remove(key)
}

/// `IndexMap::len`: the number of entries.
#[verifier::external_body]
pub(crate) fn map_len(m: &IndexMap<String, usize, DefaultHashBuilder>) -> (r: usize)
    ensures
        r == dir_entries(*m).len(),
{
    m.len()
}

/// `IndexMap::get_index`: the entry at position `i` in the map's order.
#[verifier::external_body]
pub(crate) fn map_entry_at(m: &IndexMap<String, usize, DefaultHashBuilder>, i: usize) -> (r: (
    &String,
    usize,
))
    requires
        i < dir_entries(*m).len(),
    ensures
        r.0@ == dir_entries(*m)[i as int].0,
        r.1 == dir_entries(*m)[i as int].1,
{
    let (k, v) = m.get_index(i).unwrap();
    (k, *v)
}

} // verus!
