//! `indexmap::IndexMap<String, String>`, the ordered variable map that
//! `.env` parsing, layering and diffing use, seen through its entries.
use vstd::prelude::*;
use indexmap::IndexMap;
use crate::keymap::{entries_map, distinct_keys};

verus! {

#[verifier::external_type_specification]
#[verifier::external_body]
#[verifier::reject_recursive_types(K)]
#[verifier::reject_recursive_types(V)]
#[verifier::reject_recursive_types(S)]
pub struct ExIndexMap<K, V, S>(IndexMap<K, V, S>);

/// Key/value pairs, by value.
pub type VarPairs = Seq<(Seq<char>, Seq<char>)>;

/// The entries of a variable map, in its iteration (insertion) order.
pub uninterp spec fn index_map_entries(m: IndexMap<String, String>) -> Seq<(Seq<char>, Seq<char>)>;

/// The value stored for `k`, if any.
pub open spec fn lookup(es: VarPairs, k: Seq<char>) -> Option<Seq<char>> {
    if entries_map(es).contains_key(k) {
        Some(entries_map(es)[k])
    } else {
        None
    }
}

/// `IndexMap::insert`: an existing key keeps its place and takes the new
/// value; a new key is appended last.
pub open spec fn pairs_insert(es: VarPairs, k: Seq<char>, v: Seq<char>) -> VarPairs {
    if exists|i: int| 0 <= i < es.len() && #[trigger] es[i].0 == k {
        let i = choose|i: int| 0 <= i < es.len() && #[trigger] es[i].0 == k;
        es.update(i, (k, v))
    } else {
        es.push((k, v))
    }
}

/// Calls `IndexMap::new`; the map starts empty.
#[verifier::external_body]
pub(crate) fn map_new() -> (m: IndexMap<String, String>)
    ensures
        index_map_entries(m) == Seq::<(Seq<char>, Seq<char>)>::empty(),
{
    IndexMap::new()
}

/// Calls `IndexMap::insert`. Claims the entry order that indexmap
/// documents for `insert`, and that keys never repeat in a map.
#[verifier::external_body]
pub(crate) fn map_insert(m: &mut IndexMap<String, String>, k: String, v: String)
    ensures
        index_map_entries(*final(m)) == pairs_insert(index_map_entries(*old(m)), k@, v@),
        distinct_keys(index_map_entries(*final(m))),
{
    m.insert(k, v);
}

/// Calls `IndexMap::len`.
#[verifier::external_body]
pub(crate) fn map_len(m: &IndexMap<String, String>) -> (n: usize)
    ensures
        n == index_map_entries(*m).len(),
{
    m.len()
}

/// Calls `IndexMap::get_index`: the entry at a position, `None` past the end.
#[verifier::external_body]
pub(crate) fn map_get_index(m: &IndexMap<String, String>, i: usize) -> (r: Option<(&String, &String)>)
    ensures
        r is Some <==> i < index_map_entries(*m).len(),
        r matches Some(kv) ==> (kv.0@, kv.1@) == index_map_entries(*m)[i as int],
{
    m.get_index(i)
}

/// Calls `IndexMap::get`: the value stored for a key.
#[verifier::external_body]
pub(crate) fn map_get<'a>(m: &'a IndexMap<String, String>, k: &str) -> (r: Option<&'a String>)
    ensures
        r is Some <==> lookup(index_map_entries(*m), k@) is Some,
        r matches Some(v) ==> lookup(index_map_entries(*m), k@) == Some(v@),
{
    m.get(k)
}

/// Calls `IndexMap::contains_key`.
#[verifier::external_body]
pub(crate) fn map_contains_key(m: &IndexMap<String, String>, k: &str) -> (b: bool)
    ensures
        b == (lookup(index_map_entries(*m), k@) is Some),
{
    m.contains_key(k)
}

pub proof fn lemma_lookup_push(es: VarPairs, e: (Seq<char>, Seq<char>), k: Seq<char>)
    ensures
        lookup(es.push(e), k) == if k == e.0 { Some(e.1) } else { lookup(es, k) },
{
    assert(es.push(e).drop_last() =~= es);
}

} // verus!
