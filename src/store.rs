//! The backing store and the commit history.
//!
//! The backing store is a `dashmap::DashMap` from entry hash to the stored
//! bytes of the entry; the history is a `linked_hash_set::LinkedHashSet` of
//! commit hashes in the order in which they were made.
use vstd::prelude::*;
use crate::tree::EntryHash;

verus! {

#[verifier::external_type_specification]
#[verifier::external_body]
#[verifier::reject_recursive_types(K)]
#[verifier::reject_recursive_types(V)]
#[verifier::reject_recursive_types(S)]
pub struct ExDashMap<K, V, S>(dashmap::DashMap<K, V, S>);

#[verifier::external_type_specification]
#[verifier::external_body]
#[verifier::reject_recursive_types(T)]
#[verifier::reject_recursive_types(S)]
pub struct ExLinkedHashSet<T, S>(linked_hash_set::LinkedHashSet<T, S>);

/// A backing store: entry hash to stored bytes.
pub type Db = dashmap::DashMap<EntryHash, Vec<u8>>;

/// A history of commit hashes, oldest first.
pub type CommitSet = linked_hash_set::LinkedHashSet<EntryHash>;

/// What a backing store holds.
pub uninterp spec fn db_contents(m: dashmap::DashMap<[u8; 32], Vec<u8>>) -> Map<Seq<u8>, Seq<u8>>;

/// What a history holds, in order.
pub uninterp spec fn history(s: linked_hash_set::LinkedHashSet<[u8; 32]>) -> Seq<Seq<u8>>;

/// The history after `h` is recorded: `h` moves to the end.
pub open spec fn history_after(s: Seq<Seq<u8>>, h: Seq<u8>) -> Seq<Seq<u8>> {
    s.filter(|x: Seq<u8>| x != h).push(h)
}

/// Relies on `dashmap::DashMap::insert`: stores `v` under `k`, replacing
/// what was there.
#[verifier::external_body]
pub(crate) fn db_insert(m: &mut Db, k: EntryHash, v: Vec<u8>)
    ensures
        db_contents(*final(m)) == db_contents(*old(m)).insert(k@, v@),
{
    m.insert(k, v);
}

/// Relies on `dashmap::DashMap::remove`: drops the bytes under `k`, if any.
#[verifier::external_body]
pub(crate) fn db_remove(m: &mut Db, k: &EntryHash)
    ensures
        db_contents(*final(m)) == db_contents(*old(m)).remove(k@),
{
    m.remove(k);
}

/// Relies on `dashmap::DashMap::get`: a copy of the bytes under `k`.
#[verifier::external_body]
pub(crate) fn db_get(m: &Db, k: &EntryHash) -> (r: Option<Vec<u8>>)
    ensures
        match r {
            Some(v) => db_contents(*m).contains_key(k@) && db_contents(*m)[k@] == v@,
            None => !db_contents(*m).contains_key(k@),
        },
{
    m.get(k).map(|e| e.value().clone())
}

/// Relies on `dashmap::DashMap::len`: the number of stored hashes.
#[verifier::external_body]
pub(crate) fn db_len(m: &Db) -> (r: usize)
    ensures
        r == db_contents(*m).dom().len(),
{
    m.len()
}

/// Relies on `dashmap::DashMap::iter`: every stored hash, once each, in no
/// particular order.
#[verifier::external_body]
pub(crate) fn db_keys(m: &Db) -> (r: Vec<EntryHash>)
    ensures
        forall|i: int| 0 <= i < r@.len() ==> db_contents(*m).contains_key(#[trigger] r@[i]@),
        forall|k: Seq<u8>|
            #[trigger] db_contents(*m).contains_key(k) ==> exists|i: int|
                0 <= i < r@.len() && (#[trigger] r@[i])@ == k,
        forall|i: int, j: int| 0 <= i < j < r@.len() ==> (#[trigger] r@[i])@ != (#[trigger] r@[j])@,
{
    m.iter().map(|e| *e.key()).collect()
}

/// Relies on `linked_hash_set::LinkedHashSet::new`: an empty history.
#[verifier::external_body]
pub(crate) fn history_new() -> (r: CommitSet)
    ensures
        history(r) == Seq::<Seq<u8>>::empty(),
{
    linked_hash_set::LinkedHashSet::new()
}

/// Relies on `linked_hash_set::LinkedHashSet::insert`, which places the value
/// last whether or not it was present.
#[verifier::external_body]
pub(crate) fn history_insert(s: &mut CommitSet, h: EntryHash)
    ensures
        history(*final(s)) == history_after(history(*old(s)), h@),
{
    s.insert(h);
}

} // verus!
