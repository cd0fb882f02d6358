//! The concurrent peer table, as the tracker sees it.
//!
//! The table itself is `chashmap::CHashMap`. Nothing here is proved: each
//! function states what the table's own code does, over a model of its
//! entries as a mathematical map from peer identifier to sample window.

use vstd::prelude::*;
use chashmap::CHashMap;

verus! {

#[verifier::external_type_specification]
#[verifier::external_body]
#[verifier::reject_recursive_types(K)]
#[verifier::reject_recursive_types(V)]
pub struct ExCHashMap<K, V>(CHashMap<K, V>);

/// The entries of a peer table: each peer identifier with its window,
/// oldest sample first.
pub uninterp spec fn table_entries(table: CHashMap<String, Vec<u64>>) -> Map<Seq<char>, Seq<u64>>;

/// The model of a table that holds no peer.
pub open spec fn no_entries() -> Map<Seq<char>, Seq<u64>> {
    Map::empty()
}

/// `CHashMap::new`: a table without entries.
#[verifier::external_body]
pub(crate) fn table_new() -> (fresh: CHashMap<String, Vec<u64>>)
    ensures
        table_entries(fresh) == no_entries(),
{
    CHashMap::new()
}

/// `CHashMap::len`: the number of entries, which the table counts as they
/// are inserted.
#[verifier::external_body]
pub(crate) fn table_len(table: &CHashMap<String, Vec<u64>>) -> (count: usize)
    ensures
        count == table_entries(*table).dom().len(),
{
    table.len()
}

/// `CHashMap::contains_key`: whether the peer has an entry.
#[verifier::external_body]
pub(crate) fn table_contains(table: &CHashMap<String, Vec<u64>>, peer: &String) -> (found: bool)
    ensures
        found == table_entries(*table).contains_key(peer@),
{
    table.contains_key(peer)
}

/// `CHashMap::insert_new`: adds an entry for a peer that has none. The
/// table leaves every other entry as it was.
#[verifier::external_body]
pub(crate) fn table_insert_new(table: &mut CHashMap<String, Vec<u64>>, peer: String, window: Vec<u64>)
    requires
        !table_entries(*old(table)).contains_key(peer@),
    ensures
        table_entries(*final(table)) == table_entries(*old(table)).insert(peer@, window@),
{
    table.insert_new(peer, window)
}

/// `CHashMap::get_mut`, for a peer that has an entry: the write guard it
/// returns is used to store `window` as the peer's window, and the window
/// that was stored before is handed back. No other entry changes.
#[verifier::external_body]
pub(crate) fn table_swap_window(table: &mut CHashMap<String, Vec<u64>>, peer: &String, window: Vec<u64>) -> (previous: Vec<u64>)
    requires
        table_entries(*old(table)).contains_key(peer@),
    ensures
        previous@ == table_entries(*old(table))[peer@],
        table_entries(*final(table)) == table_entries(*old(table)).insert(peer@, window@),
{
    let mut guard = table.get_mut(peer).expect("Failed to get peer entry");
    std::mem::replace(&mut *guard, window)
}

/// `CHashMap::clone`: a table of its own with the same entries.
#[verifier::external_body]
pub(crate) fn table_clone(table: &CHashMap<String, Vec<u64>>) -> (copy: CHashMap<String, Vec<u64>>)
    ensures
        table_entries(copy) == table_entries(*table),
{
    table.clone()
}

/// `CHashMap::into_iter`: the entries of the table, each peer once, in an
/// order the table does not promise.
#[verifier::external_body]
pub(crate) fn table_into_entries(table: CHashMap<String, Vec<u64>>) -> (entries: Vec<(String, Vec<u64>)>)
    ensures
        is_listing_of(entries@, table_entries(table)),
{
    table.into_iter().collect()
}

/// `entries` lists `model` exactly: every listed pair is an entry of the
/// map, no peer is listed twice, and every peer of the map is listed.
pub open spec fn is_listing_of(entries: Seq<(String, Vec<u64>)>, model: Map<Seq<char>, Seq<u64>>) -> bool {
    &&& forall|i: int| 0 <= i < entries.len() ==> model.contains_key(#[trigger] entries[i].0@)
            && model[entries[i].0@] == entries[i].1@
    &&& forall|i: int, j: int| 0 <= i < j < entries.len() ==> #[trigger] entries[i].0@ != #[trigger] entries[j].0@
    &&& forall|peer: Seq<char>| model.contains_key(peer) ==> exists|i: int| 0 <= i < entries.len() && #[trigger] entries[i].0@ == peer
}

} // verus!
