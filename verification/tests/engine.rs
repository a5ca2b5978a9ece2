use sqjson::YourDb;
use sqjson::DbError;
use sqjson::doc::{Doc, FieldValue};
use sqjson::util::PAGE_SIZE;

fn fresh_map() -> memmap2::MmapMut {
    memmap2::MmapMut::map_anon(PAGE_SIZE * 100).unwrap()
}

fn user(name: &str, age: i64, city: &str) -> Doc {
    let mut d = Doc::new();
    d.set("name", FieldValue::Text(name.to_string()));
    d.set("age", FieldValue::Int(age));
    d.set("city", FieldValue::Text(city.to_string()));
    d
}

fn sample_db() -> YourDb {
    let mut db = YourDb::open(fresh_map()).unwrap();
    db.put("user:1", &user("Alice", 30, "NY")).unwrap();
    db.put("user:2", &user("Bob", 25, "LA")).unwrap();
    db.put("user:3", &user("Charlie", 30, "NY")).unwrap();
    db
}

#[test]
fn put_then_get_returns_document() {
    let mut db = YourDb::open(fresh_map()).unwrap();
    let d = user("Alice", 30, "NY");
    db.put("user:1", &d).unwrap();
    let got = db.get("user:1").unwrap().unwrap();
    assert_eq!(got, d);
}

#[test]
fn get_unknown_key_is_none() {
    let db = YourDb::open(fresh_map()).unwrap();
    assert_eq!(db.get("nobody").unwrap(), None);
}

#[test]
fn delete_removes_key_and_buckets() {
    let mut db = sample_db();
    db.delete("user:3").unwrap();
    assert_eq!(db.get("user:3").unwrap(), None);
    let keys = db.query("age", &FieldValue::Int(30)).unwrap();
    assert_eq!(keys, vec!["user:1".to_string()]);
    let ny = db.query("city", &FieldValue::Text("NY".to_string())).unwrap();
    assert_eq!(ny, vec!["user:1".to_string()]);
}

#[test]
fn delete_unknown_key_fails() {
    let mut db = YourDb::open(fresh_map()).unwrap();
    assert_eq!(db.delete("ghost"), Err(DbError::KeyNotFound));
}

#[test]
fn put_overwrites_document_and_buckets() {
    let mut db = YourDb::open(fresh_map()).unwrap();
    db.put("user:1", &user("Alice", 30, "NY")).unwrap();
    db.put("user:1", &user("Alice", 31, "SF")).unwrap();
    let got = db.get("user:1").unwrap().unwrap();
    assert_eq!(got, user("Alice", 31, "SF"));
    assert_eq!(db.query("age", &FieldValue::Int(30)).unwrap().len(), 0);
    assert_eq!(
        db.query("age", &FieldValue::Int(31)).unwrap(),
        vec!["user:1".to_string()]
    );
    assert_eq!(
        db.query("city", &FieldValue::Text("NY".to_string())).unwrap().len(),
        0
    );
}

#[test]
fn query_by_field_value() {
    let db = sample_db();
    let mut thirty = db.query("age", &FieldValue::Int(30)).unwrap();
    thirty.sort();
    assert_eq!(thirty, vec!["user:1".to_string(), "user:3".to_string()]);
    let la = db.query("city", &FieldValue::Text("LA".to_string())).unwrap();
    assert_eq!(la, vec!["user:2".to_string()]);
    assert_eq!(db.query("age", &FieldValue::Int(99)).unwrap().len(), 0);
    assert_eq!(db.query("height", &FieldValue::Int(30)).unwrap().len(), 0);
}

#[test]
fn query_page_returns_one_of_two() {
    let db = sample_db();
    let page = db
        .query_page("city", &FieldValue::Text("NY".to_string()), 1, 0)
        .unwrap();
    assert_eq!(page.len(), 1);
    assert!(page[0] == "user:1" || page[0] == "user:3");
    let rest = db
        .query_page("city", &FieldValue::Text("NY".to_string()), 5, 1)
        .unwrap();
    assert_eq!(rest.len(), 1);
    assert!(rest[0] != page[0]);
    let empty = db
        .query_page("city", &FieldValue::Text("NY".to_string()), 5, 2)
        .unwrap();
    assert_eq!(empty.len(), 0);
}

#[test]
fn flush_twice_writes_identical_page_zero() {
    let mut db = YourDb::open(fresh_map()).unwrap();
    db.put("user:1", &user("Alice", 30, "NY")).unwrap();
    db.flush().unwrap();
    let m1 = db.into_map();
    let first: Vec<u8> = m1[0..PAGE_SIZE].to_vec();
    let mut db = YourDb::open(m1).unwrap();
    db.flush().unwrap();
    let m2 = db.into_map();
    let second: Vec<u8> = m2[0..PAGE_SIZE].to_vec();
    assert_eq!(first, second);
}

#[test]
fn flush_and_reopen_round_trip() {
    let mut db = YourDb::open(fresh_map()).unwrap();
    db.put("user:1", &user("Alice", 30, "NY")).unwrap();
    db.put("user:2", &user("Bob", 25, "LA")).unwrap();
    db.flush().unwrap();
    let db2 = YourDb::open(db.into_map()).unwrap();
    assert_eq!(db2.get("user:1").unwrap().unwrap(), user("Alice", 30, "NY"));
    assert_eq!(db2.get("user:2").unwrap().unwrap(), user("Bob", 25, "LA"));
    assert_eq!(db2.get("user:3").unwrap(), None);
    assert_eq!(
        db2.query("city", &FieldValue::Text("LA".to_string())).unwrap(),
        vec!["user:2".to_string()]
    );
    assert_eq!(
        db2.query("age", &FieldValue::Int(30)).unwrap(),
        vec!["user:1".to_string()]
    );
}

#[test]
fn unflushed_puts_are_lost_on_reopen() {
    let mut db = YourDb::open(fresh_map()).unwrap();
    db.put("user:1", &user("Alice", 30, "NY")).unwrap();
    let db2 = YourDb::open(db.into_map()).unwrap();
    assert_eq!(db2.get("user:1").unwrap(), None);
}

#[test]
fn record_boundary_at_page_capacity() {
    // The payload of {"k":"<text>"} is 8 bytes of framing plus the text.
    let mut db = YourDb::open(fresh_map()).unwrap();
    let mut fits = Doc::new();
    fits.set("k", FieldValue::Text("x".repeat(PAGE_SIZE - 4 - 8)));
    assert_eq!(db.put("big", &fits), Ok(()));
    assert_eq!(db.get("big").unwrap().unwrap(), fits);
    let mut too_big = Doc::new();
    too_big.set("k", FieldValue::Text("x".repeat(PAGE_SIZE - 3 - 8)));
    assert_eq!(db.put("huge", &too_big), Err(DbError::ValueTooLarge));
    assert_eq!(db.get("huge").unwrap(), None);
}

#[test]
fn open_rejects_undersized_region() {
    let tiny = memmap2::MmapMut::map_anon(100).unwrap();
    match YourDb::open(tiny) {
        Err(DbError::PageOutOfBounds) => {},
        _ => panic!("an undersized region must be rejected"),
    }
}

#[test]
fn get_field_projects_one_field() {
    let db = sample_db();
    assert_eq!(
        db.get_field("user:1", "age").unwrap(),
        Some(FieldValue::Int(30))
    );
    assert_eq!(
        db.get_field("user:2", "city").unwrap(),
        Some(FieldValue::Text("LA".to_string()))
    );
    assert_eq!(db.get_field("user:1", "height").unwrap(), None);
    assert_eq!(db.get_field("nobody", "age").unwrap(), None);
}

#[test]
fn filter_selects_by_predicate() {
    let db = sample_db();
    let older = db
        .filter(|d: &Doc| match d.get("age") {
            Some(FieldValue::Int(a)) => *a > 24,
            _ => false,
        })
        .unwrap();
    assert_eq!(older.len(), 3);
    let exactly_25 = db
        .filter(|d: &Doc| match d.get("age") {
            Some(FieldValue::Int(a)) => *a == 25,
            _ => false,
        })
        .unwrap();
    assert_eq!(exactly_25.len(), 1);
    assert_eq!(exactly_25[0].0, "user:2");
    assert_eq!(exactly_25[0].1, user("Bob", 25, "LA"));
}

#[test]
fn export_query_pairs_keys_with_documents() {
    let db = sample_db();
    let mut pairs = db
        .export_query("city", &FieldValue::Text("NY".to_string()))
        .unwrap();
    pairs.sort_by(|a, b| a.0.cmp(&b.0));
    assert_eq!(pairs.len(), 2);
    assert_eq!(pairs[0].0, "user:1");
    assert_eq!(pairs[0].1, user("Alice", 30, "NY"));
    assert_eq!(pairs[1].0, "user:3");
    assert_eq!(pairs[1].1, user("Charlie", 30, "NY"));
}

#[test]
fn export_to_file_lists_every_record() {
    let db = sample_db();
    let mut pairs = db.export_to_file().unwrap();
    pairs.sort_by(|a, b| a.0.cmp(&b.0));
    assert_eq!(pairs.len(), 3);
    assert_eq!(pairs[0].0, "user:1");
    assert_eq!(pairs[2].1, user("Charlie", 30, "NY"));
}

#[test]
fn corrupt_record_is_swallowed_by_get_and_strict_for_opt_in() {
    let mut db = YourDb::open(fresh_map()).unwrap();
    db.put("user:1", &user("Alice", 30, "NY")).unwrap();
    db.flush().unwrap();
    let mut m = db.into_map();
    // The first put writes page 1: scribble over its payload.
    let junk = [0xffu8; 8];
    m[PAGE_SIZE + 4..PAGE_SIZE + 12].copy_from_slice(&junk);
    let db2 = YourDb::open(m).unwrap();
    assert_eq!(db2.get("user:1").unwrap(), None);
    assert_eq!(db2.get_strict("user:1"), Err(DbError::Encoding));
    // The rebuild skipped the unreadable record.
    assert_eq!(db2.query("age", &FieldValue::Int(30)).unwrap().len(), 0);
}

#[test]
fn put_fails_when_region_is_full() {
    // Two pages: the reserved one and a single data page.
    let map = memmap2::MmapMut::map_anon(PAGE_SIZE * 2).unwrap();
    let mut db = YourDb::open(map).unwrap();
    db.put("a", &user("Alice", 30, "NY")).unwrap();
    assert_eq!(
        db.put("b", &user("Bob", 25, "LA")),
        Err(DbError::PageOutOfBounds)
    );
    // The failed put changed nothing.
    assert_eq!(db.get("b").unwrap(), None);
    assert_eq!(db.get("a").unwrap().unwrap(), user("Alice", 30, "NY"));
}

#[test]
fn flush_fails_when_index_outgrows_its_page() {
    let map = memmap2::MmapMut::map_anon(PAGE_SIZE * 400).unwrap();
    let mut db = YourDb::open(map).unwrap();
    let mut n: usize = 0;
    while n < 60 {
        let key = format!("some-rather-long-key-name:{:04}", n);
        db.put(&key, &user("X", 1, "Y")).unwrap();
        n += 1;
    }
    assert_eq!(db.flush(), Ok(()));
    while n < 300 {
        let key = format!("some-rather-long-key-name:{:04}", n);
        db.put(&key, &user("X", 1, "Y")).unwrap();
        n += 1;
    }
    assert_eq!(db.flush(), Err(DbError::ValueTooLarge));
}

#[test]
fn index_entry_with_out_of_range_page_errors_on_access() {
    let mut m = memmap2::MmapMut::map_anon(PAGE_SIZE * 2).unwrap();
    let raw = b"{\"x\":50}";
    m[0..raw.len()].copy_from_slice(raw);
    let mut db = YourDb::open(m).unwrap();
    assert_eq!(db.get("x"), Err(DbError::PageOutOfBounds));
    assert_eq!(db.delete("x"), Err(DbError::PageOutOfBounds));
    assert_eq!(db.get_field("x", "a"), Err(DbError::PageOutOfBounds));
    // The rebuild skipped the unreachable page.
    assert_eq!(db.query("a", &FieldValue::Int(1)).unwrap().len(), 0);
}

#[test]
fn corrupt_index_page_loads_as_empty() {
    let mut m = memmap2::MmapMut::map_anon(PAGE_SIZE * 100).unwrap();
    let raw = b"this is not an index";
    m[0..raw.len()].copy_from_slice(raw);
    let mut db = YourDb::open(m).unwrap();
    assert_eq!(db.get("anything").unwrap(), None);
    db.put("a", &user("Alice", 30, "NY")).unwrap();
    assert_eq!(db.get("a").unwrap().unwrap(), user("Alice", 30, "NY"));
}

#[test]
fn index_naming_the_reserved_page_loads_as_empty() {
    let mut m = memmap2::MmapMut::map_anon(PAGE_SIZE * 100).unwrap();
    let raw = b"{\"x\":0}";
    m[0..raw.len()].copy_from_slice(raw);
    let db = YourDb::open(m).unwrap();
    assert_eq!(db.get("x").unwrap(), None);
}
