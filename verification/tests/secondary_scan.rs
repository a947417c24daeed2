use native_db::error::Error;
use native_db::input::ToInput;
use native_db::iterator::SecondaryScanIterator;
use native_db::key_definition::{KeyDefinition, KeyOptions, ScanKey, ScanRange};
use native_db::keys::KeyBound;
use native_db::secondary_scan::SecondaryScan;
use redb::backends::InMemoryBackend;
use redb::{Database, MultimapTableDefinition, ReadTransaction, TableDefinition};

const DATA: TableDefinition<&[u8], &[u8]> = TableDefinition::new("data");

#[derive(Debug, PartialEq, Clone)]
struct Data {
    id: u64,
    name: String,
}

impl Data {
    fn new(id: u64, name: &str) -> Data {
        Data { id, name: name.to_string() }
    }

    fn encode(&self) -> Vec<u8> {
        let mut bytes = self.id.to_be_bytes().to_vec();
        bytes.extend_from_slice(self.name.as_bytes());
        bytes
    }
}

impl ToInput for Data {
    fn native_db_bincode_decode_from_slice(slice: &[u8]) -> Result<Self, Error> {
        if slice.len() < 8 {
            return Err(Error::ModelError("item too short".to_string()));
        }
        let mut id = [0u8; 8];
        id.copy_from_slice(&slice[..8]);
        match String::from_utf8(slice[8..].to_vec()) {
            Ok(name) => Ok(Data { id: u64::from_be_bytes(id), name }),
            Err(_) => Err(Error::ModelError("name is not text".to_string())),
        }
    }
}

fn pk(id: u64) -> Vec<u8> {
    id.to_be_bytes().to_vec()
}

fn text_key_definition(table: &str) -> KeyDefinition {
    KeyDefinition {
        unique_table_name: table.to_string(),
        rust_types: vec!["String".to_string(), "&str".to_string()],
        options: KeyOptions { unique: false, optional: false },
    }
}

fn text_key(text: &str) -> ScanKey {
    ScanKey { key: text.as_bytes().to_vec(), key_names: vec!["&str".to_string()] }
}

fn int_key(value: u32) -> ScanKey {
    ScanKey { key: value.to_be_bytes().to_vec(), key_names: vec!["u32".to_string()] }
}

fn text_range(start: KeyBound, end: KeyBound) -> ScanRange {
    ScanRange { start, end, key_names: vec!["&str".to_string()] }
}

fn bound(text: &str) -> Vec<u8> {
    text.as_bytes().to_vec()
}

/// Stores `items` in the primary table and, for each secondary table given,
/// the secondary key of each item (or none) under which its primary key is indexed.
fn database(items: &[Data], indexes: &[(&str, Vec<Option<&str>>)]) -> Database {
    let db = Database::builder().create_with_backend(InMemoryBackend::new()).unwrap();
    let w = db.begin_write().unwrap();
    {
        let mut table = w.open_table(DATA).unwrap();
        for item in items {
            let key = pk(item.id);
            let value = item.encode();
            table.insert(key.as_slice(), value.as_slice()).unwrap();
        }
        for (name, keys) in indexes {
            let mut index = w.open_multimap_table(MultimapTableDefinition::<&[u8], &[u8]>::new(name)).unwrap();
            for (item, key) in items.iter().zip(keys.iter()) {
                if let Some(key) = key {
                    let primary = pk(item.id);
                    index.insert(key.as_bytes(), primary.as_slice()).unwrap();
                }
            }
        }
    }
    w.commit().unwrap();
    db
}

fn scan(txn: &ReadTransaction, index: &str) -> SecondaryScan<Data> {
    SecondaryScan::new(txn, "data", text_key_definition(index)).unwrap()
}

fn drain(mut it: SecondaryScanIterator<'_, Data>) -> Vec<Data> {
    let mut out = Vec::new();
    while let Some(item) = it.next() {
        out.push(item.unwrap());
    }
    out
}

fn drain_back(mut it: SecondaryScanIterator<'_, Data>) -> Vec<Data> {
    let mut out = Vec::new();
    while let Some(item) = it.next_back() {
        out.push(item.unwrap());
    }
    out
}

#[test]
fn all_yields_only_items_with_the_key_set() {
    let items = vec![Data::new(1, "b"), Data::new(2, "none"), Data::new(3, "a")];
    let db = database(&items, &[("data_name", vec![Some("b"), None, Some("a")])]);
    let r = db.begin_read().unwrap();
    let s = scan(&r, "data_name");
    let values = drain(s.all().unwrap());
    assert_eq!(values, vec![Data::new(3, "a"), Data::new(1, "b")]);
}

#[test]
fn all_of_an_empty_index_is_empty() {
    let db = database(&[], &[("data_name", vec![])]);
    let r = db.begin_read().unwrap();
    let s = scan(&r, "data_name");
    assert!(s.all().unwrap().next().is_none());
}

#[test]
fn range_from_c_to_the_end() {
    let names = ["A", "B", "C", "CC", "D"];
    let items: Vec<Data> = names.iter().enumerate().map(|(i, n)| Data::new(i as u64 + 1, n)).collect();
    let db = database(&items, &[("data_name", names.iter().map(|n| Some(*n)).collect())]);
    let r = db.begin_read().unwrap();
    let s = scan(&r, "data_name");
    let values = drain(s.range(text_range(KeyBound::Included(bound("C")), KeyBound::Unbounded)).unwrap());
    assert_eq!(values, vec![Data::new(3, "C"), Data::new(4, "CC"), Data::new(5, "D")]);
}

#[test]
fn range_bounds_included_and_excluded() {
    let names = ["A", "B", "C", "CC", "D"];
    let items: Vec<Data> = names.iter().enumerate().map(|(i, n)| Data::new(i as u64 + 1, n)).collect();
    let db = database(&items, &[("data_name", names.iter().map(|n| Some(*n)).collect())]);
    let r = db.begin_read().unwrap();
    let s = scan(&r, "data_name");
    let values = drain(s.range(text_range(KeyBound::Excluded(bound("B")), KeyBound::Included(bound("CC")))).unwrap());
    assert_eq!(values, vec![Data::new(3, "C"), Data::new(4, "CC")]);
    let values = drain(s.range(text_range(KeyBound::Unbounded, KeyBound::Excluded(bound("C")))).unwrap());
    assert_eq!(values, vec![Data::new(1, "A"), Data::new(2, "B")]);
    let values = drain(s.range(text_range(KeyBound::Unbounded, KeyBound::Unbounded)).unwrap());
    assert_eq!(values.len(), 5);
}

#[test]
fn range_with_bounds_the_wrong_way_round_is_empty() {
    let items = vec![Data::new(1, "A"), Data::new(2, "B")];
    let db = database(&items, &[("data_name", vec![Some("A"), Some("B")])]);
    let r = db.begin_read().unwrap();
    let s = scan(&r, "data_name");
    let mut it = s.range(text_range(KeyBound::Included(bound("B")), KeyBound::Included(bound("A")))).unwrap();
    assert!(it.next().is_none());
}

#[test]
fn range_with_a_key_of_another_type_is_refused() {
    let items = vec![Data::new(1, "A")];
    let db = database(&items, &[("data_name", vec![Some("A")])]);
    let r = db.begin_read().unwrap();
    let s = scan(&r, "data_name");
    let range = ScanRange { start: KeyBound::Included(bound("A")), end: KeyBound::Unbounded, key_names: vec!["u32".to_string()] };
    match s.range(range) {
        Err(Error::MismatchedKeyType { key_name, expected_types, got_types }) => {
            assert_eq!(key_name, "data_name");
            assert_eq!(expected_types, vec!["String".to_string(), "&str".to_string()]);
            assert_eq!(got_types, vec!["u32".to_string()]);
        }
        _ => panic!("expected a key type mismatch"),
    }
}

#[test]
fn start_with_hello() {
    let names = ["hel", "hello", "hello world", "help", "world"];
    let items: Vec<Data> = names.iter().enumerate().map(|(i, n)| Data::new(i as u64 + 1, n)).collect();
    let db = database(&items, &[("data_name", names.iter().map(|n| Some(*n)).collect())]);
    let r = db.begin_read().unwrap();
    let s = scan(&r, "data_name");
    let values = drain(s.start_with(text_key("hello")).unwrap());
    assert_eq!(values, vec![Data::new(2, "hello"), Data::new(3, "hello world")]);
    let values = drain(s.start_with(text_key("hel")).unwrap());
    assert_eq!(values.len(), 4);
    let values = drain(s.start_with(text_key("")).unwrap());
    assert_eq!(values.len(), 5);
    assert!(s.start_with(text_key("x")).unwrap().next().is_none());
}

#[test]
fn start_with_a_key_of_another_type_is_refused() {
    let items = vec![Data::new(1, "A")];
    let db = database(&items, &[("data_name", vec![Some("A")])]);
    let r = db.begin_read().unwrap();
    let s = scan(&r, "data_name");
    assert!(matches!(s.start_with(int_key(7)), Err(Error::MismatchedKeyType { .. })));
}

#[test]
fn equal_cc() {
    let items = vec![Data::new(1, "C"), Data::new(2, "CC"), Data::new(3, "CCC")];
    let db = database(&items, &[("data_name", vec![Some("C"), Some("CC"), Some("CCC")])]);
    let r = db.begin_read().unwrap();
    let s = scan(&r, "data_name");
    let values = drain(s.equal(text_key("CC")).unwrap());
    assert_eq!(values, vec![Data::new(2, "CC")]);
}

#[test]
fn equal_yields_every_item_under_the_key_in_primary_key_order() {
    let items = vec![Data::new(3, "x"), Data::new(1, "x"), Data::new(2, "y")];
    let db = database(&items, &[("data_name", vec![Some("x"), Some("x"), Some("y")])]);
    let r = db.begin_read().unwrap();
    let s = scan(&r, "data_name");
    let values = drain(s.equal(text_key("x")).unwrap());
    assert_eq!(values, vec![Data::new(1, "x"), Data::new(3, "x")]);
    assert!(s.equal(text_key("z")).unwrap().next().is_none());
    assert!(matches!(s.equal(int_key(1)), Err(Error::MismatchedKeyType { .. })));
}

#[test]
fn next_back_walks_from_the_end() {
    let names = ["A", "B", "C"];
    let items: Vec<Data> = names.iter().enumerate().map(|(i, n)| Data::new(i as u64 + 1, n)).collect();
    let db = database(&items, &[("data_name", names.iter().map(|n| Some(*n)).collect())]);
    let r = db.begin_read().unwrap();
    let s = scan(&r, "data_name");
    let values = drain_back(s.all().unwrap());
    assert_eq!(values, vec![Data::new(3, "C"), Data::new(2, "B"), Data::new(1, "A")]);
    let mut it = s.all().unwrap();
    assert_eq!(it.next().unwrap().unwrap(), Data::new(1, "A"));
    assert_eq!(it.next_back().unwrap().unwrap(), Data::new(3, "C"));
    assert_eq!(it.next().unwrap().unwrap(), Data::new(2, "B"));
    assert!(it.next_back().is_none());
    assert!(it.next().is_none());
}

#[test]
fn next_bytes_hands_out_the_stored_bytes() {
    let items = vec![Data::new(1, "A")];
    let db = database(&items, &[("data_name", vec![Some("A")])]);
    let r = db.begin_read().unwrap();
    let s = scan(&r, "data_name");
    let mut it = s.all().unwrap();
    assert_eq!(it.next_bytes(), Some(Data::new(1, "A").encode()));
    assert_eq!(it.next_bytes(), None);
    let mut it = s.all().unwrap();
    assert_eq!(it.next_back_bytes(), Some(Data::new(1, "A").encode()));
    assert_eq!(it.next_back_bytes(), None);
}

#[test]
fn a_primary_key_without_an_item_ends_the_scan() {
    let db = Database::builder().create_with_backend(InMemoryBackend::new()).unwrap();
    let w = db.begin_write().unwrap();
    {
        let mut table = w.open_table(DATA).unwrap();
        let value = Data::new(2, "b").encode();
        table.insert(pk(2).as_slice(), value.as_slice()).unwrap();
        let mut index = w.open_multimap_table(MultimapTableDefinition::<&[u8], &[u8]>::new("data_name")).unwrap();
        index.insert("a".as_bytes(), pk(1).as_slice()).unwrap();
        index.insert("b".as_bytes(), pk(2).as_slice()).unwrap();
    }
    w.commit().unwrap();
    let r = db.begin_read().unwrap();
    let s = scan(&r, "data_name");
    let mut it = s.all().unwrap();
    assert!(it.next().is_none());
    assert_eq!(it.next().unwrap().unwrap(), Data::new(2, "b"));
    assert!(it.next().is_none());
}

#[test]
fn an_item_that_does_not_decode_is_an_error() {
    let db = Database::builder().create_with_backend(InMemoryBackend::new()).unwrap();
    let w = db.begin_write().unwrap();
    {
        let mut table = w.open_table(DATA).unwrap();
        table.insert(pk(1).as_slice(), [1u8, 2].as_slice()).unwrap();
        let mut index = w.open_multimap_table(MultimapTableDefinition::<&[u8], &[u8]>::new("data_name")).unwrap();
        index.insert("a".as_bytes(), pk(1).as_slice()).unwrap();
    }
    w.commit().unwrap();
    let r = db.begin_read().unwrap();
    let s = scan(&r, "data_name");
    let mut it = s.all().unwrap();
    assert!(matches!(it.next(), Some(Err(Error::ModelError(_)))));
}

#[test]
fn opening_a_missing_table_is_a_table_error() {
    let db = database(&[], &[("data_name", vec![])]);
    let r = db.begin_read().unwrap();
    let missing = SecondaryScan::<Data>::new(&r, "data", text_key_definition("data_department"));
    assert!(matches!(missing, Err(Error::TableError(_))));
    let missing = SecondaryScan::<Data>::new(&r, "other", text_key_definition("data_name"));
    assert!(matches!(missing, Err(Error::TableError(_))));
}

fn name_and_department(items: &[(u64, &str, &str)]) -> Database {
    let data: Vec<Data> = items.iter().map(|(id, n, _)| Data::new(*id, n)).collect();
    database(
        &data,
        &[
            ("data_name", items.iter().map(|(_, n, _)| Some(*n)).collect()),
            ("data_department", items.iter().map(|(_, _, d)| Some(*d)).collect()),
        ],
    )
}

#[test]
fn and_hello_world() {
    let db = name_and_department(&[(1, "hello", "development"), (2, "hello", "world")]);
    let r = db.begin_read().unwrap();
    let names = scan(&r, "data_name");
    let departments = scan(&r, "data_department");
    let values = drain(
        names
            .start_with(text_key("hello"))
            .unwrap()
            .and(departments.start_with(text_key("world")).unwrap()),
    );
    assert_eq!(values, vec![Data::new(2, "hello")]);
}

#[test]
fn and_keeps_the_order_of_the_first_scan() {
    let db = name_and_department(&[(1, "c", "x"), (2, "a", "x"), (3, "b", "y"), (4, "d", "x")]);
    let r = db.begin_read().unwrap();
    let names = scan(&r, "data_name");
    let departments = scan(&r, "data_department");
    let values = drain(names.all().unwrap().and(departments.equal(text_key("x")).unwrap()));
    assert_eq!(values, vec![Data::new(2, "a"), Data::new(1, "c"), Data::new(4, "d")]);
    let none = names.all().unwrap().and(departments.equal(text_key("z")).unwrap());
    assert!(drain(none).is_empty());
}

#[test]
fn or_hello_development() {
    let db = name_and_department(&[(1, "squidward", "development"), (2, "hello", "world")]);
    let r = db.begin_read().unwrap();
    let names = scan(&r, "data_name");
    let departments = scan(&r, "data_department");
    let values = drain(
        names
            .start_with(text_key("hello"))
            .unwrap()
            .or(departments.start_with(text_key("development")).unwrap()),
    );
    assert_eq!(values, vec![Data::new(2, "hello"), Data::new(1, "squidward")]);
}

#[test]
fn or_takes_shared_keys_out_of_the_second_scan_by_swapping() {
    let db = name_and_department(&[(1, "a", "x"), (2, "b", "x"), (3, "c", "x"), (4, "d", "x")]);
    let r = db.begin_read().unwrap();
    let names = scan(&r, "data_name");
    let departments = scan(&r, "data_department");
    // The second scan holds 1, 2, 3, 4; the first takes 2 out, and 4 moves into its place.
    let values = drain(names.equal(text_key("b")).unwrap().or(departments.equal(text_key("x")).unwrap()));
    let ids: Vec<u64> = values.iter().map(|d| d.id).collect();
    assert_eq!(ids, vec![2, 1, 4, 3]);
}

#[test]
fn or_hands_out_a_shared_key_once() {
    let db = name_and_department(&[(1, "a", "x"), (2, "b", "y")]);
    let r = db.begin_read().unwrap();
    let names = scan(&r, "data_name");
    let departments = scan(&r, "data_department");
    let values = drain(names.all().unwrap().or(departments.all().unwrap()));
    let ids: Vec<u64> = values.iter().map(|d| d.id).collect();
    assert_eq!(ids, vec![1, 2]);
}

#[test]
fn unbounded_range_is_all_and_point_range_is_equal() {
    let names = ["b", "a", "b", "c"];
    let items: Vec<Data> = names.iter().enumerate().map(|(i, n)| Data::new(i as u64 + 1, n)).collect();
    let db = database(&items, &[("data_name", names.iter().map(|n| Some(*n)).collect())]);
    let r = db.begin_read().unwrap();
    let s = scan(&r, "data_name");
    let everything = drain(s.all().unwrap());
    assert_eq!(drain(s.range(text_range(KeyBound::Unbounded, KeyBound::Unbounded)).unwrap()), everything);
    let ids: Vec<u64> = everything.iter().map(|d| d.id).collect();
    assert_eq!(ids, vec![2, 1, 3, 4]);
    let point = drain(s.range(text_range(KeyBound::Included(bound("b")), KeyBound::Included(bound("b")))).unwrap());
    assert_eq!(point, drain(s.equal(text_key("b")).unwrap()));
    assert_eq!(point, vec![Data::new(1, "b"), Data::new(3, "b")]);
}

#[test]
fn unwrap_item_hands_on_what_was_found() {
    assert_eq!(native_db::iterator::unwrap_item(Ok(Some(vec![1, 2, 3]))), Some(vec![1, 2, 3]));
    assert_eq!(native_db::iterator::unwrap_item(Ok(None)), None);
}

#[test]
fn splitting_a_range_concatenates_and_prefixes_lead_the_range() {
    let names = ["A", "C", "CZ", "D", "B", "ab", "abc", "b"];
    let items: Vec<Data> = names.iter().enumerate().map(|(i, n)| Data::new(i as u64 + 1, n)).collect();
    let db = database(&items, &[("data_name", names.iter().map(|n| Some(*n)).collect())]);
    let r = db.begin_read().unwrap();
    let s = scan(&r, "data_name");
    let from_c = drain(s.range(text_range(KeyBound::Included(bound("C")), KeyBound::Unbounded)).unwrap());
    assert_eq!(from_c.iter().map(|d| d.id).collect::<Vec<u64>>(), vec![2, 3, 4, 6, 7, 8]);
    let low = drain(s.range(text_range(KeyBound::Included(bound("B")), KeyBound::Excluded(bound("D")))).unwrap());
    let high = drain(s.range(text_range(KeyBound::Included(bound("D")), KeyBound::Unbounded)).unwrap());
    let whole = drain(s.range(text_range(KeyBound::Included(bound("B")), KeyBound::Unbounded)).unwrap());
    assert_eq!([low, high].concat(), whole);
    let prefixed = drain(s.start_with(text_key("ab")).unwrap());
    assert_eq!(prefixed, vec![Data::new(6, "ab"), Data::new(7, "abc")]);
    let from_ab = drain(s.range(text_range(KeyBound::Included(bound("ab")), KeyBound::Unbounded)).unwrap());
    assert_eq!(from_ab[..prefixed.len()].to_vec(), prefixed);
    let exact = drain(s.equal(text_key("C")).unwrap());
    assert_eq!(from_c[..exact.len()].to_vec(), exact);
}

#[test]
fn range_without_bounds_checks_no_key_type() {
    let items = vec![Data::new(1, "A"), Data::new(2, "B")];
    let db = database(&items, &[("data_name", vec![Some("A"), Some("B")])]);
    let r = db.begin_read().unwrap();
    let s = scan(&r, "data_name");
    let range = ScanRange { start: KeyBound::Unbounded, end: KeyBound::Unbounded, key_names: vec!["u32".to_string()] };
    assert_eq!(drain(s.range(range).unwrap()), items);
    let range = ScanRange { start: KeyBound::Unbounded, end: KeyBound::Excluded(bound("B")), key_names: vec!["u32".to_string()] };
    assert!(matches!(s.range(range), Err(Error::MismatchedKeyType { .. })));
}

#[test]
fn draining_from_the_back_reverses_draining_from_the_front() {
    let names = ["b", "a", "c", "b"];
    let items: Vec<Data> = names.iter().enumerate().map(|(i, n)| Data::new(i as u64 + 1, n)).collect();
    let db = database(&items, &[("data_name", names.iter().map(|n| Some(*n)).collect())]);
    let r = db.begin_read().unwrap();
    let s = scan(&r, "data_name");
    let mut front = drain(s.all().unwrap());
    let back = drain_back(s.all().unwrap());
    assert_eq!(front.iter().map(|d| d.id).collect::<Vec<u64>>(), vec![2, 1, 4, 3]);
    front.reverse();
    assert_eq!(back, front);
}
