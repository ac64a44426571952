use spotility::codec::{from_bytes, load_or_create_store, load_store, rating_from_name, rating_label, to_bytes};
use spotility::store::{LikedItemRecord, RatingEntry, RatingStore, StoreError, Timestamp};

fn ts(year: u16, month: u8, day: u8) -> Timestamp {
    Timestamp { year, month, day, hour: 8, minute: 4, second: 59 }
}

fn sample_store() -> RatingStore {
    let mut store = RatingStore::new();
    assert!(store.insert_new(
        b"4iV5W9uYEdYUVa79Axb7Rh".to_vec(),
        RatingEntry { added_at: ts(2023, 1, 1), rating: 200 },
    ));
    assert!(store.insert_new(
        b"1301WleyT98MSxVHPZCA6M".to_vec(),
        RatingEntry { added_at: ts(2024, 11, 30), rating: 350 },
    ));
    store
}

#[test]
fn serialized_form_is_one_object_with_calendar_texts() {
    let mut store = RatingStore::new();
    assert!(store.insert_new(
        b"a".to_vec(),
        RatingEntry { added_at: Timestamp { year: 2023, month: 1, day: 1, hour: 0, minute: 0, second: 0 }, rating: 200 },
    ));
    let bytes = to_bytes(&store);
    assert_eq!(
        bytes,
        b"{\"a\":{\"added_at\":\"2023-01-01T00:00:00Z\",\"rating\":2.00}}".to_vec()
    );
}

#[test]
fn save_then_load_round_trips_the_store() {
    let store = sample_store();
    let bytes = to_bytes(&store);
    let loaded = from_bytes(&bytes).unwrap();
    assert_eq!(loaded.len(), store.len());
    for i in 0..store.entries.len() {
        assert_eq!(loaded.get(&store.entries[i].0), Some(store.entries[i].1));
    }
    // and loading then saving gives the same bytes back
    assert_eq!(to_bytes(&loaded), bytes);
}

#[test]
fn edge_rating_low_round_trips() {
    let mut store = RatingStore::new();
    assert!(store.insert_new(
        b"low".to_vec(),
        RatingEntry { added_at: ts(2020, 2, 29), rating: 50 },
    ));
    let bytes = to_bytes(&store);
    assert_eq!(
        bytes,
        b"{\"low\":{\"added_at\":\"2020-02-29T08:04:59Z\",\"rating\":0.50}}".to_vec()
    );
    let loaded = from_bytes(&bytes).unwrap();
    assert_eq!(loaded.get(&b"low".to_vec()).unwrap().rating, 50);
}

#[test]
fn edge_rating_zero_round_trips() {
    let mut store = RatingStore::new();
    assert!(store.insert_new(
        b"zero".to_vec(),
        RatingEntry { added_at: ts(2020, 3, 1), rating: 0 },
    ));
    let bytes = to_bytes(&store);
    let loaded = from_bytes(&bytes).unwrap();
    assert_eq!(loaded.get(&b"zero".to_vec()).unwrap().rating, 0);
}

#[test]
fn edge_rating_largest_round_trips() {
    let mut store = RatingStore::new();
    assert!(store.insert_new(
        b"high".to_vec(),
        RatingEntry { added_at: ts(2020, 3, 2), rating: u32::MAX },
    ));
    let bytes = to_bytes(&store);
    let loaded = from_bytes(&bytes).unwrap();
    assert_eq!(loaded.get(&b"high".to_vec()).unwrap().rating, u32::MAX);
}

#[test]
fn ids_with_quotes_and_backslashes_round_trip() {
    let id: Vec<u8> = vec![97, 34, 98, 92, 99];
    let mut store = RatingStore::new();
    assert!(store.insert_new(id.clone(), RatingEntry { added_at: ts(2021, 5, 6), rating: 300 }));
    let bytes = to_bytes(&store);
    assert_eq!(
        bytes,
        b"{\"a\\\"b\\\\c\":{\"added_at\":\"2021-05-06T08:04:59Z\",\"rating\":3.00}}".to_vec()
    );
    let loaded = from_bytes(&bytes).unwrap();
    assert_eq!(loaded.get(&id).unwrap().rating, 300);
    assert_eq!(to_bytes(&loaded), bytes);
}

#[test]
fn empty_store_round_trips() {
    let store = RatingStore::new();
    let bytes = to_bytes(&store);
    assert_eq!(bytes, b"{}".to_vec());
    let loaded = from_bytes(&bytes).unwrap();
    assert_eq!(loaded.len(), 0);
}

#[test]
fn malformed_bytes_are_a_parse_failure() {
    assert!(matches!(from_bytes(&Vec::new()), Err(StoreError::Parse)));
    assert!(matches!(from_bytes(&b"not a store".to_vec()), Err(StoreError::Parse)));
    assert!(matches!(from_bytes(&b"{".to_vec()), Err(StoreError::Parse)));
    assert!(matches!(
        from_bytes(&b"{\"a\":{\"added_at\":\"2023-13-01T00:00:00Z\",\"rating\":2.00}}".to_vec()),
        Err(StoreError::Parse)
    ));
    // duplicate identifiers are refused
    assert!(matches!(
        from_bytes(
            &b"{\"a\":{\"added_at\":\"2023-01-01T00:00:00Z\",\"rating\":2.00},\"a\":{\"added_at\":\"2023-01-01T00:00:00Z\",\"rating\":2.00}}"
                .to_vec()
        ),
        Err(StoreError::Parse)
    ));
}

#[test]
fn load_store_reports_an_absent_file() {
    assert!(matches!(load_store(None), Err(StoreError::NotFound)));
    let store = sample_store();
    let bytes = to_bytes(&store);
    let loaded = load_store(Some(&bytes)).unwrap();
    assert_eq!(loaded.len(), 2);
}

#[test]
fn load_or_create_starts_empty_on_absent_file_only() {
    let created = load_or_create_store(None).unwrap();
    assert_eq!(created.len(), 0);
    assert!(matches!(
        load_or_create_store(Some(&b"garbage".to_vec())),
        Err(StoreError::Parse)
    ));
}

#[test]
fn remerged_store_persists_identically() {
    let records = vec![
        LikedItemRecord { id: b"one".to_vec(), added_at: ts(2023, 2, 3) },
        LikedItemRecord { id: b"two".to_vec(), added_at: ts(2023, 4, 5) },
    ];
    let mut store = RatingStore::new();
    store.merge_new(&records, 300);
    let first = to_bytes(&store);
    store.merge_new(&records, 300);
    assert_eq!(to_bytes(&store), first);
}

#[test]
fn rating_labels_name_the_scale_points() {
    assert_eq!(rating_label(100), b"great".to_vec());
    assert_eq!(rating_label(200), b"good".to_vec());
    assert_eq!(rating_label(300), b"ok".to_vec());
    assert_eq!(rating_label(400), b"bad".to_vec());
    assert_eq!(rating_label(250), b"2.5".to_vec());
    assert_eq!(rating_label(500), b"5".to_vec());
    assert_eq!(rating_label(1205), b"12.05".to_vec());
    assert_eq!(rating_label(1250), b"12.5".to_vec());
    assert_eq!(rating_label(1200), b"12".to_vec());
    assert_eq!(rating_label(205), b"2.05".to_vec());
}

#[test]
fn rating_names_read_back_as_scale_points() {
    assert_eq!(rating_from_name(&b"great".to_vec()), Some(100));
    assert_eq!(rating_from_name(&b"1".to_vec()), Some(100));
    assert_eq!(rating_from_name(&b"good".to_vec()), Some(200));
    assert_eq!(rating_from_name(&b"2".to_vec()), Some(200));
    assert_eq!(rating_from_name(&b"ok".to_vec()), Some(300));
    assert_eq!(rating_from_name(&b"3".to_vec()), Some(300));
    assert_eq!(rating_from_name(&b"bad".to_vec()), Some(400));
    assert_eq!(rating_from_name(&b"4".to_vec()), Some(400));
    assert_eq!(rating_from_name(&b"fine".to_vec()), None);
    assert_eq!(rating_from_name(&b"2.5".to_vec()), None);
    assert_eq!(rating_from_name(&b"".to_vec()), None);
}
