//! Insertion-ordered buckets of unit indices, keyed by a character string,
//! held in an `indexmap::IndexMap`.

use indexmap::IndexMap;
use vstd::prelude::*;

verus! {

#[verifier::external_type_specification]
#[verifier::external_body]
#[verifier::reject_recursive_types(K)]
#[verifier::reject_recursive_types(V)]
#[verifier::reject_recursive_types(S)]
pub struct ExIndexMap<K, V, S>(IndexMap<K, V, S>);

/// The buckets that `m` holds, in insertion order: each key with its indices.
pub uninterp spec fn buckets_of(m: IndexMap<Vec<char>, Vec<usize>>) -> Seq<(Seq<char>, Seq<usize>)>;

/// Relies on `IndexMap::new`: a map with no entries.
#[verifier::external_body]
pub(crate) fn new_buckets() -> (r: IndexMap<Vec<char>, Vec<usize>>)
    ensures
        buckets_of(r) == Seq::<(Seq<char>, Seq<usize>)>::empty(),
{
    IndexMap::new()
}

/// Relies on `IndexMap::get_index_of`: the position of the entry whose key
/// equals `key`, if there is one.
#[verifier::external_body]
pub(crate) fn bucket_index(m: &IndexMap<Vec<char>, Vec<usize>>, key: &Vec<char>) -> (r: Option<usize>)
    ensures
        r matches Some(i) ==> i < buckets_of(*m).len() && buckets_of(*m)[i as int].0 == key@,
        r is None ==> forall|i: int| 0 <= i < buckets_of(*m).len() ==> buckets_of(*m)[i].0 != key@,
{
    m.get_index_of(key)
}

/// Relies on `IndexMut<usize> for IndexMap`: the value at position `i`, to
/// which `v` is appended.
#[verifier::external_body]
pub(crate) fn push_to_bucket(m: &mut IndexMap<Vec<char>, Vec<usize>>, i: usize, v: usize)
    requires
        i < buckets_of(*old(m)).len(),
    ensures
        buckets_of(*final(m)) == buckets_of(*old(m)).update(
            i as int,
            (buckets_of(*old(m))[i as int].0, buckets_of(*old(m))[i as int].1.push(v)),
        ),
{
    m[i].push(v);
}

/// Relies on `IndexMap::insert`: a key that no entry has is added last, with
/// its value.
#[verifier::external_body]
pub(crate) fn add_bucket(m: &mut IndexMap<Vec<char>, Vec<usize>>, key: Vec<char>, v: Vec<usize>)
    requires
        forall|i: int| 0 <= i < buckets_of(*old(m)).len() ==> buckets_of(*old(m))[i].0 != key@,
    ensures
        buckets_of(*final(m)) == buckets_of(*old(m)).push((key@, v@)),
{
    m.insert(key, v);
}

/// Relies on `IntoIterator for IndexMap`: the entries in their order.
#[verifier::external_body]
pub(crate) fn into_entries(m: IndexMap<Vec<char>, Vec<usize>>) -> (r: Vec<(Vec<char>, Vec<usize>)>)
    ensures
        r@.len() == buckets_of(m).len(),
        forall|i: int| 0 <= i < r@.len() ==> r@[i].0@ == buckets_of(m)[i].0 && r@[i].1@ == buckets_of(m)[i].1,
{
    m.into_iter().collect()
}

} // verus!
