//! Scans of the primary table through a secondary index: all of it, a range of
//! secondary keys, the secondary keys with a prefix, or one secondary key.
use vstd::prelude::*;
use std::collections::VecDeque;
use std::marker::PhantomData;
use crate::entries::{
    any_key, collect, equal_to, index_ordered, leading_run, lemma_collect_all_of_select, lemma_collect_select,
    lemma_leading_run_is_prefix_scan, lemma_point_range_is_equal, lemma_select_properties,
    lemma_unbounded_range_is_all, prefixed_by, within, IndexEntry,
};
use crate::error::{Error, Result};
use crate::input::ToInput;
use crate::iterator::{keys_view, SecondaryScanIterator};
use crate::key_definition::{
    check_key_type_from_key_definition, check_range_key_range_bounds_from_key_definition,
    key_type_accepted, range_key_type_accepted, KeyDefinition, ScanKey, ScanRange,
};
use crate::keys::{key_has_prefix, key_lt, lemma_prefixed_not_below, KeyBound};
use crate::store::{
    index_in, next_entry, next_primary_key, open_primary_table, open_secondary_table, primary_items, table_in,
    range_remaining, secondary_entries, secondary_range, walk_remaining, EntryRange, PrimaryTable,
    SecondaryTable,
};

verus! {

/// What a walk over entries gathers: with no prefix, the primary keys of every
/// entry; with a prefix, those of the entries up to the first whose key does
/// not start with it.
pub open spec fn gathered(entries: Seq<IndexEntry>, prefix: Option<Seq<u8>>) -> Seq<Seq<u8>> {
    match prefix {
        None => collect(entries, any_key()),
        Some(p) => leading_run(entries, p),
    }
}

pub open spec fn prefix_view(prefix: Option<&Vec<u8>>) -> Option<Seq<u8>> {
    match prefix {
        None => None,
        Some(p) => Some(p@),
    }
}

/// Walks the entries that `range` hands out and gathers their primary keys,
/// stopping before the first entry whose key lacks `prefix` where one is given.
fn gather_primary_keys(range: EntryRange, prefix: Option<&Vec<u8>>) -> (r: Result<
    VecDeque<Vec<u8>>,
>)
    ensures
        r matches Ok(keys) ==> keys_view(keys) == gathered(range_remaining(range), prefix_view(prefix)),
        r matches Err(e) ==> e is RedbStorageError,
{
    let ghost total = gathered(range_remaining(range), prefix_view(prefix));
    let mut range = range;
    let mut keys: VecDeque<Vec<u8>> = VecDeque::new();
    loop
        invariant_except_break
            keys_view(keys) + gathered(range_remaining(range), prefix_view(prefix)) == total,
        ensures
            keys_view(keys) == total,
        decreases range_remaining(range).len(),
    {
        let ghost left = range_remaining(range);
        match next_entry(&mut range) {
            None => {
                assert(keys_view(keys) =~= keys_view(keys) + gathered(left, prefix_view(prefix)));
                break ;
            },
            Some(Err(e)) => {
                return Err(Error::RedbStorageError(e));
            },
            Some(Ok((key, walk))) => {
                let stop = match prefix {
                    Some(p) => !key_has_prefix(key.as_slice(), p.as_slice()),
                    None => false,
                };
                if stop {
                    assert(keys_view(keys) =~= keys_view(keys) + gathered(left, prefix_view(prefix)));
                    break ;
                }
                assert(gathered(left, prefix_view(prefix)) == left[0].1 + gathered(
                    range_remaining(range),
                    prefix_view(prefix),
                ));
                let mut walk = walk;
                loop
                    invariant_except_break
                        keys_view(keys) + walk_remaining(walk) + gathered(
                            range_remaining(range),
                            prefix_view(prefix),
                        ) == total,
                    ensures
                        keys_view(keys) + gathered(range_remaining(range), prefix_view(prefix))
                            == total,
                    decreases walk_remaining(walk).len(),
                {
                    let ghost pending = walk_remaining(walk);
                    let ghost done = keys_view(keys);
                    match next_primary_key(&mut walk) {
                        None => {
                            assert(done + pending =~= done);
                            break ;
                        },
                        Some(Err(e)) => {
                            return Err(Error::RedbStorageError(e));
                        },
                        Some(Ok(primary_key)) => {
                            keys.push_back(primary_key);
                            assert(keys_view(keys) =~= done.push(pending[0]));
                            assert(keys_view(keys) + walk_remaining(walk) =~= done + pending);
                        },
                    }
                }
            },
        }
    }
    Ok(keys)
}

/// A scan of the primary table through one secondary key.
pub struct SecondaryScan<T: ToInput> {
    primary_table: PrimaryTable,
    secondary_table: SecondaryTable,
    key_def: KeyDefinition,
    _marker: PhantomData<T>,
}

impl<T: ToInput> SecondaryScan<T> {
    /// The index is kept in the store's order.
    #[verifier::type_invariant]
    spec fn index_in_order(self) -> bool {
        index_ordered(secondary_entries(self.secondary_table))
    }

    /// The entries of the secondary index, in ascending key order.
    pub closed spec fn index_entries(&self) -> Seq<IndexEntry> {
        secondary_entries(self.secondary_table)
    }

    /// What the primary table holds.
    pub closed spec fn stored_items(&self) -> Map<Seq<u8>, Seq<u8>> {
        primary_items(self.primary_table)
    }

    /// The definition of the secondary key.
    pub closed spec fn key_definition(&self) -> KeyDefinition {
        self.key_def
    }

    /// Opens, in `txn`, the primary table named `primary_table_name` and the
    /// table that indexes the secondary key `key_def`, named by its
    /// `unique_table_name`. Neither name may be empty.
    pub fn new(txn: &redb::ReadTransaction, primary_table_name: &str, key_def: KeyDefinition) -> (r:
        Result<Self>)
        requires
            primary_table_name@.len() > 0,
            key_def.unique_table_name@.len() > 0,
        ensures
            r matches Ok(scan) ==> {
                &&& scan.key_definition() == key_def
                &&& scan.stored_items() == table_in(*txn, primary_table_name@)
                &&& scan.index_entries() == index_in(*txn, key_def.unique_table_name@)
                &&& index_ordered(scan.index_entries())
            },
            r matches Err(e) ==> e is TableError,
    {
        let primary_table = match open_primary_table(txn, primary_table_name) {
            Ok(table) => table,
            Err(e) => {
                return Err(Error::TableError(e));
            },
        };
        let secondary_table = match open_secondary_table(txn, key_def.unique_table_name.as_str()) {
            Ok(table) => table,
            Err(e) => {
                return Err(Error::TableError(e));
            },
        };
        Ok(SecondaryScan { primary_table, secondary_table, key_def, _marker: PhantomData })
    }

    /// Every primary key of the index, entry by entry in ascending secondary
    /// key order; where the secondary key is optional, only the items that
    /// have it set are indexed.
    pub fn all(&self) -> (r: Result<SecondaryScanIterator<'_, T>>)
        ensures
            index_ordered(self.index_entries()),
            r matches Ok(it) ==> it@ == collect(self.index_entries(), any_key())
                && it.stored_items() == self.stored_items(),
            r matches Err(e) ==> e is RedbStorageError,
    {
        proof {
            use_type_invariant(self);
        }
        let range = match secondary_range(&self.secondary_table, &KeyBound::Unbounded, &KeyBound::Unbounded) {
            Ok(range) => range,
            Err(e) => {
                return Err(Error::RedbStorageError(e));
            },
        };
        let keys = match gather_primary_keys(range, None) {
            Ok(keys) => keys,
            Err(e) => {
                return Err(e);
            },
        };
        proof {
            let entries = self.index_entries();
            lemma_collect_all_of_select(entries, within(KeyBound::Unbounded, KeyBound::Unbounded));
            lemma_unbounded_range_is_all(entries);
        }
        Ok(SecondaryScanIterator::from_keys(&self.primary_table, keys))
    }

    /// The primary keys of the entries whose secondary key lies in `range`,
    /// entry by entry in ascending secondary key order. Fails with
    /// `MismatchedKeyType` where the range has a bounded end and its key type
    /// is not one that the secondary key was defined with.
    pub fn range(&self, range: ScanRange) -> (r: Result<SecondaryScanIterator<'_, T>>)
        ensures
            index_ordered(self.index_entries()),
            match r {
                Ok(it) => {
                    &&& range_key_type_accepted(self.key_definition(), range)
                    &&& it@ == collect(self.index_entries(), within(range.start, range.end))
                    &&& it.stored_items() == self.stored_items()
                },
                Err(Error::MismatchedKeyType { .. }) => !range_key_type_accepted(
                    self.key_definition(),
                    range,
                ),
                Err(Error::RedbStorageError(_)) => range_key_type_accepted(
                    self.key_definition(),
                    range,
                ),
                Err(_) => false,
            },
    {
        proof {
            use_type_invariant(self);
        }
        match check_range_key_range_bounds_from_key_definition(&self.key_def, &range) {
            Ok(()) => {},
            Err(e) => {
                return Err(e);
            },
        }
        let entries = match secondary_range(&self.secondary_table, &range.start, &range.end) {
            Ok(entries) => entries,
            Err(e) => {
                return Err(Error::RedbStorageError(e));
            },
        };
        let keys = match gather_primary_keys(entries, None) {
            Ok(keys) => keys,
            Err(e) => {
                return Err(e);
            },
        };
        proof {
            lemma_collect_all_of_select(self.index_entries(), within(range.start, range.end));
        }
        Ok(SecondaryScanIterator::from_keys(&self.primary_table, keys))
    }

    /// The primary keys of the entries whose secondary key starts with
    /// `start_with`, entry by entry in ascending secondary key order. Fails with
    /// `MismatchedKeyType` where the key's type is not one that the secondary
    /// key was defined with.
    pub fn start_with(&self, start_with: ScanKey) -> (r: Result<SecondaryScanIterator<'_, T>>)
        ensures
            index_ordered(self.index_entries()),
            match r {
                Ok(it) => {
                    &&& key_type_accepted(self.key_definition(), start_with.key_names@)
                    &&& it@ == collect(self.index_entries(), prefixed_by(start_with.key@))
                    &&& it.stored_items() == self.stored_items()
                },
                Err(Error::MismatchedKeyType { .. }) => !key_type_accepted(
                    self.key_definition(),
                    start_with.key_names@,
                ),
                Err(Error::RedbStorageError(_)) => key_type_accepted(
                    self.key_definition(),
                    start_with.key_names@,
                ),
                Err(_) => false,
            },
    {
        proof {
            use_type_invariant(self);
        }
        match check_key_type_from_key_definition(&self.key_def, &start_with.key_names) {
            Ok(()) => {},
            Err(e) => {
                return Err(e);
            },
        }
        let prefix = &start_with.key;
        let low = prefix.clone();
        assert(low@ =~= prefix@);
        let start = KeyBound::Included(low);
        let entries = match secondary_range(&self.secondary_table, &start, &KeyBound::Unbounded) {
            Ok(entries) => entries,
            Err(e) => {
                return Err(Error::RedbStorageError(e));
            },
        };
        let ghost left = range_remaining(entries);
        let keys = match gather_primary_keys(entries, Some(prefix)) {
            Ok(keys) => keys,
            Err(e) => {
                return Err(e);
            },
        };
        proof {
            let p = prefix@;
            let entries = self.index_entries();
            lemma_select_properties(entries, within(start, KeyBound::Unbounded));
            assert forall|i: int| 0 <= i < left.len() implies !key_lt(#[trigger] left[i].0, p) by {
                assert(within(start, KeyBound::Unbounded)(left[i].0));
            }
            lemma_leading_run_is_prefix_scan(left, p);
            assert forall|k: Seq<u8>| #[trigger] prefixed_by(p)(k) implies within(
                start,
                KeyBound::Unbounded,
            )(k) by {
                lemma_prefixed_not_below(k, p);
            }
            lemma_collect_select(entries, within(start, KeyBound::Unbounded), prefixed_by(p));
        }
        Ok(SecondaryScanIterator::from_keys(&self.primary_table, keys))
    }

    /// The primary keys stored under the secondary key equal to `key`. Fails
    /// with `MismatchedKeyType` where the key's type is not one that the
    /// secondary key was defined with.
    pub fn equal(&self, key: ScanKey) -> (r: Result<SecondaryScanIterator<'_, T>>)
        ensures
            index_ordered(self.index_entries()),
            match r {
                Ok(it) => {
                    &&& key_type_accepted(self.key_definition(), key.key_names@)
                    &&& it@ == collect(self.index_entries(), equal_to(key.key@))
                    &&& it.stored_items() == self.stored_items()
                },
                Err(Error::MismatchedKeyType { .. }) => !key_type_accepted(
                    self.key_definition(),
                    key.key_names@,
                ),
                Err(Error::RedbStorageError(_)) => key_type_accepted(
                    self.key_definition(),
                    key.key_names@,
                ),
                Err(_) => false,
            },
    {
        proof {
            use_type_invariant(self);
        }
        let low = key.key.clone();
        assert(low@ =~= key.key@);
        proof {
            lemma_point_range_is_equal(self.index_entries(), low, key.key);
        }
        self.range(
            ScanRange {
                start: KeyBound::Included(low),
                end: KeyBound::Included(key.key),
                key_names: key.key_names,
            },
        )
    }
}

} // verus!
