# native_db secondary scans

Scans of a primary table through a secondary index stored in redb, verified
with Verus.

- `src/keys.rs`: the byte order of encoded keys, range bounds, prefixes.
- `src/entries.rs`: the secondary index as a sequence of entries, what each
  kind of scan selects from it, and the laws that relate the scans.
- `src/key_definition.rs`: secondary key definitions and the key type check.
- `src/store.rs`: the redb tables and the calls into redb (trusted).
- `src/secondary_scan.rs`: `SecondaryScan` with `all`, `range`, `start_with`, `equal`.
- `src/iterator.rs`: `SecondaryScanIterator` with `next`, `next_back`, `and`, `or`.
- `tests/`: scenarios run against an in-memory redb database.
