//! The tables of the store, and the calls into it that the scans make.
//!
//! Every item here is trusted: its contract restates what the store's own
//! code does, and nothing here is proved.
use vstd::prelude::*;
use std::ops::Bound::{Excluded, Included, Unbounded};
use crate::entries::{index_ordered, select, within, IndexEntry};
use crate::keys::KeyBound;

verus! {

#[verifier::external_type_specification]
#[verifier::external_body]
pub struct ExStorageError(redb::StorageError);

#[verifier::external_type_specification]
#[verifier::external_body]
pub struct ExTableError(redb::TableError);

#[verifier::external_type_specification]
#[verifier::external_body]
pub struct ExReadTransaction(redb::ReadTransaction);

/// A table of the store opened for reading, from encoded primary key to the
/// encoded item.
#[verifier::external_body]
pub struct PrimaryTable {
    table: redb::ReadOnlyTable<&'static [u8], &'static [u8]>,
}

/// A multimap table of the store opened for reading, from encoded secondary
/// key to the encoded primary keys stored under it.
#[verifier::external_body]
pub struct SecondaryTable {
    table: redb::ReadOnlyMultimapTable<&'static [u8], &'static [u8]>,
}

/// A walk over entries of a secondary table, in ascending key order.
#[verifier::external_body]
pub struct EntryRange {
    range: redb::MultimapRange<'static, &'static [u8], &'static [u8]>,
}

/// A walk over the primary keys stored under one secondary key.
#[verifier::external_body]
pub struct PrimaryKeyWalk {
    values: redb::MultimapValue<'static, &'static [u8]>,
}

/// What a primary table holds: each encoded primary key with its encoded item.
pub uninterp spec fn primary_items(table: PrimaryTable) -> Map<Seq<u8>, Seq<u8>>;

/// What a secondary table holds: its entries in the order of the table.
pub uninterp spec fn secondary_entries(table: SecondaryTable) -> Seq<IndexEntry>;

/// The entries that a walk over a secondary table has still to hand out.
pub uninterp spec fn range_remaining(range: EntryRange) -> Seq<IndexEntry>;

/// The primary keys that a walk over one entry has still to hand out.
pub uninterp spec fn walk_remaining(walk: PrimaryKeyWalk) -> Seq<Seq<u8>>;

/// What the snapshot that a read transaction sees holds in the table named `name`.
pub uninterp spec fn table_in(txn: redb::ReadTransaction, name: Seq<char>) -> Map<Seq<u8>, Seq<u8>>;

/// What the snapshot that a read transaction sees holds in the multimap table
/// named `name`, entry by entry in table order.
pub uninterp spec fn index_in(txn: redb::ReadTransaction, name: Seq<char>) -> Seq<IndexEntry>;

/// Opens a table for reading by `redb::ReadTransaction::open_table`. The name
/// must not be empty (`redb::TableDefinition::new` asserts it). Claimed: the
/// table that comes back holds what the transaction's snapshot holds under
/// `name`; what that is rests on the database.
#[verifier::external_body]
pub(crate) fn open_primary_table(txn: &redb::ReadTransaction, name: &str) -> (r: Result<
    PrimaryTable,
    redb::TableError,
>)
    requires
        name@.len() > 0,
    ensures
        r matches Ok(table) ==> primary_items(table) == table_in(*txn, name@),
{
    match txn.open_table(redb::TableDefinition::<&[u8], &[u8]>::new(name)) {
        Ok(table) => Ok(PrimaryTable { table }),
        Err(e) => Err(e),
    }
}

/// Opens a multimap table for reading by
/// `redb::ReadTransaction::open_multimap_table`. The name must not be empty
/// (`redb::MultimapTableDefinition::new` asserts it). Claimed: the table that
/// comes back holds what the transaction's snapshot holds under `name`, with
/// its keys strictly ascending and the values under each key strictly
/// ascending (the table keeps both as B-trees ordered by `&[u8]`, which
/// compares as slices do, and a value is stored once per key).
#[verifier::external_body]
pub(crate) fn open_secondary_table(txn: &redb::ReadTransaction, name: &str) -> (r: Result<
    SecondaryTable,
    redb::TableError,
>)
    requires
        name@.len() > 0,
    ensures
        r matches Ok(table) ==> secondary_entries(table) == index_in(*txn, name@)
            && index_ordered(secondary_entries(table)),
{
    match txn.open_multimap_table(redb::MultimapTableDefinition::<&[u8], &[u8]>::new(name)) {
        Ok(table) => Ok(SecondaryTable { table }),
        Err(e) => Err(e),
    }
}

/// Looks an encoded primary key up by `redb::ReadOnlyTable::get`. Claimed: an
/// answer that is not an error is what the table holds under the key. A
/// storage error may come back on any key.
#[verifier::external_body]
pub(crate) fn get_item(table: &PrimaryTable, key: &[u8]) -> (r: Result<Option<Vec<u8>>, redb::StorageError>)
    ensures
        r matches Ok(Some(v)) ==> primary_items(*table).contains_key(key@)
            && primary_items(*table)[key@] == v@,
        r matches Ok(None) ==> !primary_items(*table).contains_key(key@),
{
    match table.table.get(key) {
        Ok(Some(guard)) => Ok(Some(guard.value().to_vec())),
        Ok(None) => Ok(None),
        Err(e) => Err(e),
    }
}

/// Starts a walk over the entries whose key lies between `start` and `end`,
/// by `redb::ReadOnlyMultimapTable::range`. Claimed: the walk hands out exactly
/// those entries of the table, in table order (the table compares `&[u8]` keys
/// as slices do). A storage error may come back instead.
#[verifier::external_body]
pub(crate) fn secondary_range(table: &SecondaryTable, start: &KeyBound, end: &KeyBound) -> (r: Result<
    EntryRange,
    redb::StorageError,
>)
    ensures
        r matches Ok(range) ==> range_remaining(range) == select(
            secondary_entries(*table),
            within(*start, *end),
        ),
{
    let lo = match start {
        KeyBound::Included(k) => Included(k.as_slice()),
        KeyBound::Excluded(k) => Excluded(k.as_slice()),
        KeyBound::Unbounded => Unbounded,
    };
    let hi = match end {
        KeyBound::Included(k) => Included(k.as_slice()),
        KeyBound::Excluded(k) => Excluded(k.as_slice()),
        KeyBound::Unbounded => Unbounded,
    };
    match table.table.range::<&[u8]>((lo, hi)) {
        Ok(range) => Ok(EntryRange { range }),
        Err(e) => Err(e),
    }
}

/// Takes the next entry of a walk by `redb::MultimapRange::next`. Claimed: the
/// walk ends only when no entry is left; an entry that comes back is the first
/// one left, with a walk over its primary keys, and is no longer left. A
/// storage error may come back instead, and then nothing is claimed of the walk.
#[verifier::external_body]
pub(crate) fn next_entry(range: &mut EntryRange) -> (r: Option<
    Result<(Vec<u8>, PrimaryKeyWalk), redb::StorageError>,
>)
    ensures
        r is None ==> range_remaining(*old(range)).len() == 0,
        r matches Some(Ok((key, walk))) ==> {
            &&& range_remaining(*old(range)).len() > 0
            &&& key@ == range_remaining(*old(range))[0].0
            &&& walk_remaining(walk) == range_remaining(*old(range))[0].1
            &&& range_remaining(*final(range)) == range_remaining(*old(range)).drop_first()
        },
{
    match range.range.next() {
        None => None,
        Some(Err(e)) => Some(Err(e)),
        Some(Ok((key, values))) => Some(Ok((key.value().to_vec(), PrimaryKeyWalk { values }))),
    }
}

/// Takes the next primary key of a walk by `redb::MultimapValue::next`.
/// Claimed: the walk ends only when no key is left; a key that comes back is
/// the first one left and is no longer left. A storage error may come back
/// instead, and then nothing is claimed of the walk.
#[verifier::external_body]
pub(crate) fn next_primary_key(walk: &mut PrimaryKeyWalk) -> (r: Option<Result<Vec<u8>, redb::StorageError>>)
    ensures
        r is None ==> walk_remaining(*old(walk)).len() == 0,
        r matches Some(Ok(key)) ==> {
            &&& walk_remaining(*old(walk)).len() > 0
            &&& key@ == walk_remaining(*old(walk))[0]
            &&& walk_remaining(*final(walk)) == walk_remaining(*old(walk)).drop_first()
        },
{
    match walk.values.next() {
        None => None,
        Some(Err(e)) => Some(Err(e)),
        Some(Ok(guard)) => Some(Ok(guard.value().to_vec())),
    }
}

} // verus!
