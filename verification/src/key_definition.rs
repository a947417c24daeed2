//! Definitions of secondary keys, and the keys and ranges handed to scans.
use vstd::prelude::*;
use crate::error::Error;
use crate::keys::KeyBound;

verus! {

/// How a secondary key was declared.
pub struct KeyOptions {
    pub unique: bool,
    pub optional: bool,
}

/// A secondary key: the table that indexes it, the names of the Rust types its
/// values may have, and its options.
pub struct KeyDefinition {
    pub unique_table_name: String,
    pub rust_types: Vec<String>,
    pub options: KeyOptions,
}

/// A key value handed to a scan: its encoded bytes and the names of its Rust type.
pub struct ScanKey {
    pub key: Vec<u8>,
    pub key_names: Vec<String>,
}

/// A range of key values handed to a scan: its two ends, encoded, and the
/// names of the Rust type of its values.
pub struct ScanRange {
    pub start: KeyBound,
    pub end: KeyBound,
    pub key_names: Vec<String>,
}

/// The names of a key's type meet the types that the definition accepts.
pub open spec fn key_type_accepted(key_def: KeyDefinition, key_names: Seq<String>) -> bool {
    exists|i: int, j: int|
        0 <= i < key_names.len() && 0 <= j < key_def.rust_types@.len()
            && #[trigger] key_names[i]@ == #[trigger] key_def.rust_types@[j]@
}

/// The text of each type name.
pub open spec fn names_text(names: Seq<String>) -> Seq<Seq<char>> {
    names.map_values(|n: String| n@)
}

/// Law of the key type check: a key is accepted exactly when one of its type
/// names is one of the definition's types, wherever that type stands in the
/// definition; so a key named by any one of the definition's types is
/// accepted, and a key none of whose names is among them is refused.
pub proof fn lemma_key_type_accepted_at_any_position(key_def: KeyDefinition, key_names: Seq<String>)
    ensures
        key_type_accepted(key_def, key_names) <==> exists|j: int|
            0 <= j < key_def.rust_types@.len() && #[trigger] names_text(key_names).contains(
                key_def.rust_types@[j]@,
            ),
        forall|j: int|
            0 <= j < key_def.rust_types@.len() ==> #[trigger] key_type_accepted(
                key_def,
                seq![key_def.rust_types@[j]],
            ),
        (forall|i: int, j: int|
            0 <= i < key_names.len() && 0 <= j < key_def.rust_types@.len() ==> key_names[i]@
                != key_def.rust_types@[j]@) ==> !key_type_accepted(key_def, key_names),
{
    let names = names_text(key_names);
    if key_type_accepted(key_def, key_names) {
        let (i, j) = choose|i: int, j: int|
            0 <= i < key_names.len() && 0 <= j < key_def.rust_types@.len()
                && #[trigger] key_names[i]@ == #[trigger] key_def.rust_types@[j]@;
        assert(names[i] == key_def.rust_types@[j]@);
        assert(names.contains(key_def.rust_types@[j]@));
    }
    if exists|j: int|
        0 <= j < key_def.rust_types@.len() && #[trigger] names.contains(key_def.rust_types@[j]@) {
        let j = choose|j: int|
            0 <= j < key_def.rust_types@.len() && #[trigger] names.contains(key_def.rust_types@[j]@);
        let i = choose|i: int| 0 <= i < names.len() && names[i] == key_def.rust_types@[j]@;
        assert(key_names[i]@ == key_def.rust_types@[j]@);
    }
    assert forall|j: int| 0 <= j < key_def.rust_types@.len() implies #[trigger] key_type_accepted(
        key_def,
        seq![key_def.rust_types@[j]],
    ) by {
        let one = seq![key_def.rust_types@[j]];
        assert(one[0]@ == key_def.rust_types@[j]@);
    }
}

/// Whether the definition accepts a key whose type has one of `key_names`.
pub fn key_type_matches(key_def: &KeyDefinition, key_names: &Vec<String>) -> (r: bool)
    ensures
        r == key_type_accepted(*key_def, key_names@),
{
    let mut i: usize = 0;
    while i < key_names.len()
        invariant
            i <= key_names.len(),
            forall|a: int, b: int|
                0 <= a < i && 0 <= b < key_def.rust_types@.len() ==> #[trigger] key_names@[a]@
                    != #[trigger] key_def.rust_types@[b]@,
        decreases key_names.len() - i,
    {
        let mut j: usize = 0;
        while j < key_def.rust_types.len()
            invariant
                i < key_names.len(),
                j <= key_def.rust_types.len(),
                forall|a: int, b: int|
                    0 <= a < i && 0 <= b < key_def.rust_types@.len() ==> #[trigger] key_names@[a]@
                        != #[trigger] key_def.rust_types@[b]@,
                forall|b: int| 0 <= b < j ==> key_names@[i as int]@ != #[trigger] key_def.rust_types@[b]@,
            decreases key_def.rust_types.len() - j,
        {
            if key_names[i] == key_def.rust_types[j] {
                return true;
            }
            j = j + 1;
        }
        i = i + 1;
    }
    false
}

/// Checks that a key handed to a scan is of a type that the secondary key was
/// defined with; fails with `MismatchedKeyType` where it is not.
pub fn check_key_type_from_key_definition(key_def: &KeyDefinition, key_names: &Vec<String>) -> (r:
    Result<(), Error>)
    ensures
        r is Ok <==> key_type_accepted(*key_def, key_names@),
        r matches Err(e) ==> e matches Error::MismatchedKeyType {
            key_name,
            expected_types,
            got_types,
        } && key_name@ == key_def.unique_table_name@ && expected_types@
            == key_def.rust_types@ && got_types@ == key_names@,
{
    if key_type_matches(key_def, key_names) {
        Ok(())
    } else {
        let expected_types = key_def.rust_types.clone();
        let got_types = key_names.clone();
        assert(expected_types@ =~= key_def.rust_types@);
        assert(got_types@ =~= key_names@);
        Err(
            Error::MismatchedKeyType {
                key_name: key_def.unique_table_name.clone(),
                expected_types,
                got_types,
            },
        )
    }
}

/// A range passes the key type check where its key type is one that the
/// definition accepts, or where it has no bounded end whose key could be checked.
pub open spec fn range_key_type_accepted(key_def: KeyDefinition, range: ScanRange) -> bool {
    ||| (range.start is Unbounded && range.end is Unbounded)
    ||| key_type_accepted(key_def, range.key_names@)
}

/// Checks the key type of each bounded end of a range handed to a scan; fails
/// with `MismatchedKeyType` where a bounded end's type is not one that the
/// secondary key was defined with.
pub fn check_range_key_range_bounds_from_key_definition(key_def: &KeyDefinition, range: &ScanRange) -> (r:
    Result<(), Error>)
    ensures
        r is Ok <==> range_key_type_accepted(*key_def, *range),
        r matches Err(e) ==> e matches Error::MismatchedKeyType {
            key_name,
            expected_types,
            got_types,
        } && key_name@ == key_def.unique_table_name@ && expected_types@
            == key_def.rust_types@ && got_types@ == range.key_names@,
{
    let start_bounded = match range.start {
        KeyBound::Unbounded => false,
        _ => true,
    };
    if start_bounded {
        match check_key_type_from_key_definition(key_def, &range.key_names) {
            Ok(()) => {},
            Err(e) => {
                return Err(e);
            },
        }
    }
    let end_bounded = match range.end {
        KeyBound::Unbounded => false,
        _ => true,
    };
    if end_bounded {
        match check_key_type_from_key_definition(key_def, &range.key_names) {
            Ok(()) => {},
            Err(e) => {
                return Err(e);
            },
        }
    }
    Ok(())
}

} // verus!
