//! Commodity metadata: an insertion-ordered map from key to value.
use indexmap::IndexMap;
use vstd::prelude::*;

verus! {

#[verifier::external_type_specification]
#[verifier::external_body]
#[verifier::reject_recursive_types(K)]
#[verifier::reject_recursive_types(V)]
#[verifier::reject_recursive_types(S)]
pub struct ExIndexMap<K, V, S>(IndexMap<K, V, S>);

/// The entries of a metadata map, as key and value, in the map's order.
pub uninterp spec fn meta_entries(m: IndexMap<String, String>) -> Seq<(Seq<char>, Seq<char>)>;

/// The entries after inserting `k` with value `v`: an existing key keeps
/// its place and takes the new value, a new key goes last.
pub open spec fn insert_entry(s: Seq<(Seq<char>, Seq<char>)>, k: Seq<char>, v: Seq<char>) -> Seq<
    (Seq<char>, Seq<char>),
>
    decreases s.len(),
{
    if s.len() == 0 {
        seq![(k, v)]
    } else if s[0].0 == k {
        s.update(0, (k, v))
    } else {
        seq![s[0]] + insert_entry(s.drop_first(), k, v)
    }
}

/// Relies on `IndexMap::new`: a new map holds no entries.
#[verifier::external_body]
pub(crate) fn meta_new() -> (r: IndexMap<String, String>)
    ensures
        meta_entries(r) == Seq::<(Seq<char>, Seq<char>)>::empty(),
{
    IndexMap::new()
}

/// Relies on `IndexMap::insert`: an existing key keeps its place in the
/// order and takes the new value; a new key is inserted last.
#[verifier::external_body]
pub(crate) fn meta_insert(m: &mut IndexMap<String, String>, key: String, value: String)
    ensures
        meta_entries(*final(m)) == insert_entry(meta_entries(*old(m)), key@, value@),
{
    m.insert(key, value);
}

/// Relies on `IndexMap::len`: the number of entries.
#[verifier::external_body]
pub(crate) fn meta_len(m: &IndexMap<String, String>) -> (r: usize)
    ensures
        r == meta_entries(*m).len(),
{
    m.len()
}

/// Relies on `IndexMap::get_index`: the entry at position `i` in the
/// map's order.
#[verifier::external_body]
pub(crate) fn meta_get_index(m: &IndexMap<String, String>, i: usize) -> (r: (&String, &String))
    requires
        i < meta_entries(*m).len(),
    ensures
        r.0@ == meta_entries(*m)[i as int].0,
        r.1@ == meta_entries(*m)[i as int].1,
{
    m.get_index(i).unwrap()
}

} // verus!
