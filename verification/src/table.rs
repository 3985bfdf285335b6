//! The hash table behind an aggregate: `rustc_hash::FxHashMap`, keyed by
//! slices of the text.
//!
//! Nothing in this file is proved. Each function below makes one call into
//! the table and states what that call does in terms of `table_entries`.

use crate::stats::Stats;
use rustc_hash::FxHashMap;
use vstd::prelude::*;

verus! {

/// `rustc_hash::FxHasher`, the hasher that places keys in a table's buckets.
/// Nothing is claimed of it.
#[verifier::external_type_specification]
#[verifier::external_body]
pub struct ExFxHasher(rustc_hash::FxHasher);

/// `std::hash::BuildHasherDefault`, which makes a table's hashers. Nothing is
/// claimed of it.
#[verifier::external_type_specification]
#[verifier::external_body]
#[verifier::reject_recursive_types(H)]
pub struct ExBuildHasherDefault<H>(std::hash::BuildHasherDefault<H>);

/// What a table holds: the statistics it keeps under each key. Two keys are
/// one where their bytes are equal, whatever their hashes.
pub uninterp spec fn table_entries(table: FxHashMap<&[u8], Stats>) -> Map<Seq<u8>, Stats>;

/// `items` hands out what `entries` holds: each item is an entry, no key
/// comes twice, and no entry is left out. The order is not fixed.
pub open spec fn lists_entries(items: Seq<(&[u8], Stats)>, entries: Map<Seq<u8>, Stats>) -> bool {
    &&& forall|i: int|
        0 <= i < items.len() ==> {
            &&& entries.contains_key((#[trigger] items[i]).0@)
            &&& entries[items[i].0@] == items[i].1
        }
    &&& forall|i: int, j: int|
        0 <= i < j < items.len() ==> (#[trigger] items[i]).0@ != (#[trigger] items[j]).0@
    &&& forall|key: Seq<u8>| #[trigger]
        entries.contains_key(key) ==> exists|i: int|
            0 <= i < items.len() && (#[trigger] items[i]).0@ == key
}

/// Calls `HashMap::with_capacity_and_hasher` for an `FxHashMap`, with the
/// default builder of `FxHasher`: the new table holds nothing. The call
/// panics where the room asked for overflows the size of an allocation; the
/// bound on `capacity` keeps far away from that.
#[verifier::external_body]
pub(crate) fn table_with_capacity<'a>(capacity: usize) -> (table: FxHashMap<&'a [u8], Stats>)
    requires
        capacity <= 65536,
    ensures
        table_entries(table) =~= Map::empty(),
{
    FxHashMap::with_capacity_and_hasher(capacity, Default::default())
}

/// Calls `HashMap::entry` and then `Entry::or_insert` on an `FxHashMap`: the
/// slot handed out is the one kept under the bytes of `key`, first filled
/// with `fresh` where the table had none, and what the caller leaves in it is
/// what the table then holds under `key`. No other key is touched.
#[verifier::external_body]
pub(crate) fn table_slot<'t, 'a>(
    table: &'t mut FxHashMap<&'a [u8], Stats>,
    key: &'a [u8],
    fresh: Stats,
) -> (slot: &'t mut Stats)
    ensures
        *slot == if table_entries(*old(table)).contains_key(key@) {
            table_entries(*old(table))[key@]
        } else {
            fresh
        },
        table_entries(*final(table)) == table_entries(*old(table)).insert(key@, *final(slot)),
{
    table.entry(key).or_insert(fresh)
}

/// Calls `HashMap::get` on an `FxHashMap`: the statistics kept under the
/// bytes of `key`, if any.
#[verifier::external_body]
pub(crate) fn table_get(table: &FxHashMap<&[u8], Stats>, key: &[u8]) -> (found: Option<Stats>)
    ensures
        found == if table_entries(*table).contains_key(key@) {
            Some(table_entries(*table)[key@])
        } else {
            None
        },
{
    table.get(key).copied()
}

/// Calls `HashMap::iter` on an `FxHashMap` and collects what it yields:
/// every entry once, in an order that is not fixed.
#[verifier::external_body]
pub(crate) fn table_items<'a>(table: &FxHashMap<&'a [u8], Stats>) -> (items: Vec<(&'a [u8], Stats)>)
    ensures
        lists_entries(items@, table_entries(*table)),
{
    table.iter().map(|(key, stats)| (*key, *stats)).collect()
}

} // verus!
