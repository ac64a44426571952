use spotility::store::{LikedItemRecord, RatingEntry, RatingStore, StoreError, Timestamp};

fn ts(year: u16, month: u8, day: u8) -> Timestamp {
    Timestamp { year, month, day, hour: 12, minute: 30, second: 5 }
}

fn records() -> Vec<LikedItemRecord> {
    vec![
        LikedItemRecord { id: b"one".to_vec(), added_at: ts(2023, 2, 3) },
        LikedItemRecord { id: b"two".to_vec(), added_at: ts(2023, 4, 5) },
    ]
}

fn stores_equal(a: &RatingStore, b: &RatingStore) -> bool {
    if a.len() != b.len() {
        return false;
    }
    for i in 0..a.entries.len() {
        match b.get(&a.entries[i].0) {
            Some(e) => {
                if e != a.entries[i].1 {
                    return false;
                }
            },
            None => {
                return false;
            },
        }
    }
    true
}

#[test]
fn merge_inserts_absent_ids_with_default_rating() {
    let mut store = RatingStore::new();
    store.merge_new(&records(), 300);
    assert_eq!(store.len(), 2);
    let one = store.get(&b"one".to_vec()).unwrap();
    assert_eq!(one.rating, 300);
    assert_eq!(one.added_at, ts(2023, 2, 3));
}

#[test]
fn merge_twice_changes_nothing() {
    let mut store = RatingStore::new();
    store.merge_new(&records(), 300);
    let mut rated = RatingStore::new();
    rated.merge_new(&records(), 300);
    assert_eq!(rated.set_rating(&b"one".to_vec(), 150), Ok(300));
    let before_len = rated.len();
    let before_one = rated.get(&b"one".to_vec()).unwrap();
    rated.merge_new(&records(), 300);
    assert_eq!(rated.len(), before_len);
    assert_eq!(rated.get(&b"one".to_vec()).unwrap(), before_one);
    // a plain second merge is also a no-op
    let snapshot_len = store.len();
    store.merge_new(&records(), 300);
    assert_eq!(store.len(), snapshot_len);
    let again = {
        let mut s = RatingStore::new();
        s.merge_new(&records(), 300);
        s
    };
    assert!(stores_equal(&store, &again));
}

#[test]
fn set_rating_overwrites_rating_only_and_returns_previous() {
    let mut store = RatingStore::new();
    store.merge_new(&records(), 300);
    let previous = store.set_rating(&b"two".to_vec(), 100).unwrap();
    assert_eq!(previous, 300);
    let two = store.get(&b"two".to_vec()).unwrap();
    assert_eq!(two.rating, 100);
    assert_eq!(two.added_at, ts(2023, 4, 5));
}

#[test]
fn set_rating_on_absent_id_is_not_found_and_changes_nothing() {
    let mut store = RatingStore::new();
    store.merge_new(&records(), 300);
    let r = store.set_rating(&b"absent".to_vec(), 100);
    assert_eq!(r, Err(StoreError::NotFound));
    assert_eq!(store.len(), 2);
    assert_eq!(store.get(&b"one".to_vec()).unwrap().rating, 300);
}

#[test]
fn contains_and_get_agree() {
    let mut store = RatingStore::new();
    store.merge_new(&records(), 300);
    assert!(store.contains(&b"one".to_vec()));
    assert!(!store.contains(&b"three".to_vec()));
    assert!(store.get(&b"three".to_vec()).is_none());
}

#[test]
fn merge_keeps_first_record_when_ids_repeat() {
    let mut store = RatingStore::new();
    let twice = vec![
        LikedItemRecord { id: b"dup".to_vec(), added_at: ts(2023, 1, 1) },
        LikedItemRecord { id: b"dup".to_vec(), added_at: ts(2024, 1, 1) },
    ];
    store.merge_new(&twice, 300);
    assert_eq!(store.len(), 1);
    assert_eq!(store.get(&b"dup".to_vec()).unwrap().added_at, ts(2023, 1, 1));
}
