//! Name bindings of a test case, held in an insertion-ordered `IndexMap`.

use vstd::prelude::*;
use indexmap::IndexMap;

verus! {

#[verifier::external_type_specification]
#[verifier::external_body]
#[verifier::reject_recursive_types(K)]
#[verifier::reject_recursive_types(V)]
#[verifier::reject_recursive_types(S)]
pub struct ExIndexMap<K, V, S>(IndexMap<K, V, S>);

/// The entries of a binding map, in their order: `(key, value)`.
pub uninterp spec fn binding_entries(m: IndexMap<String, String>) -> Seq<(Seq<char>, Seq<char>)>;

/// Index of the entry with that key, or -1.
pub open spec fn entry_index(e: Seq<(Seq<char>, Seq<char>)>, key: Seq<char>) -> int {
    if exists|i: int| 0 <= i < e.len() && (#[trigger] e[i]).0 == key {
        choose|i: int| 0 <= i < e.len() && e[i].0 == key && forall|j: int| 0 <= j < i ==> (#[trigger] e[j]).0 != key
    } else {
        -1
    }
}

/// The entries after inserting `key => value`: an existing key keeps its
/// place and takes the new value; a new key goes last.
pub open spec fn insert_entry(e: Seq<(Seq<char>, Seq<char>)>, key: Seq<char>, value: Seq<char>) -> Seq<(Seq<char>, Seq<char>)> {
    let i = entry_index(e, key);
    if i >= 0 {
        e.update(i, (key, value))
    } else {
        e.push((key, value))
    }
}

/// `IndexMap::new`: a map with no entries.
#[verifier::external_body]
pub(crate) fn bindings_new() -> (m: IndexMap<String, String>)
    ensures
        binding_entries(m) == Seq::<(Seq<char>, Seq<char>)>::empty(),
{
    IndexMap::new()
}

/// `IndexMap::insert`: an existing key keeps its position and takes the new
/// value; a new key is appended.
#[verifier::external_body]
pub(crate) fn bindings_insert(m: &mut IndexMap<String, String>, key: String, value: String)
    ensures
        binding_entries(*final(m)) == insert_entry(binding_entries(*old(m)), key@, value@),
{
    m.insert(key, value);
}

/// `IndexMap::len`: the number of entries.
#[verifier::external_body]
pub(crate) fn bindings_len(m: &IndexMap<String, String>) -> (n: usize)
    ensures
        n == binding_entries(*m).len(),
{
    m.len()
}

/// A borrowed `(key, value)` entry.
pub(crate) type EntryRef<'a> = (&'a String, &'a String);

/// `IndexMap::get_index`: the entry at position `i`, if there is one.
#[verifier::external_body]
pub(crate) fn bindings_get_index(m: &IndexMap<String, String>, i: usize) -> (r: Option<EntryRef<'_>>)
    ensures
        i < binding_entries(*m).len() ==> r is Some,
        r matches Some(kv) ==> kv.0@ == binding_entries(*m)[i as int].0,
        r matches Some(kv) ==> kv.1@ == binding_entries(*m)[i as int].1,
        i >= binding_entries(*m).len() ==> r is None,
{
    m.get_index(i)
}

} // verus!
