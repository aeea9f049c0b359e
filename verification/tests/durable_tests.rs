use ezviz::durable::read_key;
use ezviz::durable::read_reference;
use ezviz::durable::stored_entry;
use ezviz::durable::RebuildError;
use ezviz::durable::StoredEntry;
use ezviz::durable::KEY_LEN;
use ezviz::photo_index::PhotoIndex;
use ezviz::photo_index::PhotoRecord;
use ezviz::predicate::Predicate;

fn pairs(records: &[PhotoRecord]) -> Vec<(i64, String)> {
    records.iter().map(|r| (r.timestamp, r.reference.clone())).collect()
}

fn all(index: &PhotoIndex) -> Vec<(i64, String)> {
    pairs(&index.select(&Predicate::everything()))
}

#[test]
fn key_is_eight_little_endian_bytes() {
    assert_eq!(KEY_LEN, 8);
    let entry = stored_entry(0x0102_0304_0506_0708, "ref");
    assert_eq!(entry.key, vec![8, 7, 6, 5, 4, 3, 2, 1]);
    assert_eq!(entry.key, 0x0102_0304_0506_0708i64.to_le_bytes().to_vec());
    assert_eq!(stored_entry(1, "").key, vec![1, 0, 0, 0, 0, 0, 0, 0]);
    assert_eq!(stored_entry(-1, "").key, vec![255; 8]);
    assert_eq!(stored_entry(-2, "").key, vec![254, 255, 255, 255, 255, 255, 255, 255]);
    assert_eq!(stored_entry(i64::MIN, "").key, vec![0, 0, 0, 0, 0, 0, 0, 128]);
}

#[test]
fn value_is_the_reference_in_utf8() {
    assert_eq!(stored_entry(0, "AgADBAAD").value, b"AgADBAAD".to_vec());
    assert_eq!(stored_entry(0, "\u{e9}").value, vec![0xc3, 0xa9]);
    assert_eq!(stored_entry(0, "").value, Vec::<u8>::new());
}

#[test]
fn keys_read_back() {
    for t in [0i64, 1, -1, 1_704_067_200, i64::MAX, i64::MIN] {
        assert_eq!(read_key(&stored_entry(t, "x").key), Some(t));
    }
    assert_eq!(read_key(&[1, 0, 0, 0, 0, 0, 0, 0]), Some(1));
    assert_eq!(read_key(&[0, 1, 0, 0, 0, 0, 0, 0]), Some(256));
}

#[test]
fn keys_of_another_length_do_not_read() {
    assert_eq!(read_key(&[]), None);
    assert_eq!(read_key(&[0; 7]), None);
    assert_eq!(read_key(&[0; 9]), None);
}

#[test]
fn references_read_back() {
    assert_eq!(read_reference(&b"abc".to_vec()), Some("abc".to_string()));
    assert_eq!(read_reference(&vec![0xc3, 0xa9]), Some("\u{e9}".to_string()));
    assert_eq!(read_reference(&vec![]), Some(String::new()));
    assert_eq!(read_reference(&vec![0xff]), None);
    assert_eq!(read_reference(&vec![0xc3]), None);
    assert_eq!(read_reference(&vec![0xed, 0xa0, 0x80]), None);
}

#[test]
fn rebuild_of_an_empty_store_is_empty() {
    let index = PhotoIndex::rebuild(&vec![]).unwrap();
    assert_eq!(index.len(), 0);
}

#[test]
fn rebuild_restores_the_index() {
    let mut index = PhotoIndex::new();
    let mut store: Vec<StoredEntry> = Vec::new();
    for (t, r) in [(30, "c"), (10, "a"), (20, "b"), (10, "again"), (-7, "early")] {
        let entry = stored_entry(t, r);
        // the store keeps one value per key
        store.retain(|e| e.key != entry.key);
        store.push(entry);
        assert_eq!(index.insert(t, r.to_string()), Ok(()));
    }
    // a store hands its entries out in the order of the key bytes
    store.sort_by(|a, b| a.key.cmp(&b.key));
    let restored = PhotoIndex::rebuild(&store).unwrap();
    assert_eq!(all(&restored), all(&index));
    assert_eq!(
        all(&restored),
        vec![
            (-7, "early".to_string()),
            (10, "again".to_string()),
            (20, "b".to_string()),
            (30, "c".to_string()),
        ]
    );
}

#[test]
fn rebuild_does_not_depend_on_the_order_of_the_scan() {
    let forward = vec![stored_entry(1, "a"), stored_entry(2, "b"), stored_entry(3, "c")];
    let backward = vec![stored_entry(3, "c"), stored_entry(2, "b"), stored_entry(1, "a")];
    assert_eq!(all(&PhotoIndex::rebuild(&forward).unwrap()), all(&PhotoIndex::rebuild(&backward).unwrap()));
}

#[test]
fn rebuild_fails_on_a_bad_key() {
    let store = vec![
        stored_entry(1, "a"),
        StoredEntry { key: vec![1, 2, 3], value: b"b".to_vec() },
        StoredEntry { key: vec![], value: vec![0xff] },
    ];
    assert_eq!(PhotoIndex::rebuild(&store).err(), Some(RebuildError::BadKey { position: 1 }));
}

#[test]
fn rebuild_fails_on_a_bad_reference() {
    let store = vec![
        stored_entry(1, "a"),
        stored_entry(2, "b"),
        StoredEntry { key: vec![3, 0, 0, 0, 0, 0, 0, 0], value: vec![0xff, 0xfe] },
        StoredEntry { key: vec![1, 2, 3], value: b"b".to_vec() },
    ];
    assert_eq!(PhotoIndex::rebuild(&store).err(), Some(RebuildError::BadReference { position: 2 }));
}

#[test]
fn bad_key_is_reported_before_a_bad_reference_of_the_same_entry() {
    let store = vec![StoredEntry { key: vec![0; 9], value: vec![0xff] }];
    assert_eq!(PhotoIndex::rebuild(&store).err(), Some(RebuildError::BadKey { position: 0 }));
}

#[test]
fn rebuild_fails_on_a_key_without_a_calendar_date() {
    let store = vec![
        stored_entry(1, "a"),
        stored_entry(i64::MAX, "b"),
        StoredEntry { key: vec![1, 2, 3], value: b"c".to_vec() },
    ];
    assert_eq!(PhotoIndex::rebuild(&store).err(), Some(RebuildError::BadTimestamp { position: 1 }));
}

#[test]
fn bad_timestamp_is_reported_before_a_bad_reference_of_the_same_entry() {
    let store = vec![StoredEntry { key: i64::MIN.to_le_bytes().to_vec(), value: vec![0xff] }];
    assert_eq!(PhotoIndex::rebuild(&store).err(), Some(RebuildError::BadTimestamp { position: 0 }));
}
