use spotility::codec::render_feed;
use spotility::rank::rank;
use spotility::store::{RatingEntry, RatingStore, Timestamp};

fn ts(year: u16, month: u8, day: u8) -> Timestamp {
    Timestamp { year, month, day, hour: 0, minute: 0, second: 0 }
}

fn entry(t: Timestamp, rating: u32) -> RatingEntry {
    RatingEntry { added_at: t, rating }
}

#[test]
fn strictly_increasing_ratings_give_strictly_decreasing_weights() {
    let mut store = RatingStore::new();
    assert!(store.insert_new(b"x".to_vec(), entry(ts(2023, 1, 1), 100)));
    assert!(store.insert_new(b"y".to_vec(), entry(ts(2023, 1, 2), 200)));
    assert!(store.insert_new(b"z".to_vec(), entry(ts(2023, 1, 3), 300)));
    let feed = rank(&store);
    assert_eq!(feed.len(), 3);
    assert!(feed[0].weight > feed[1].weight);
    assert!(feed[1].weight > feed[2].weight);
    // weight(i) = 10 - (10/3) * i, in hundredths, within one hundredth
    let expected = [1000i64, 667, 333];
    for i in 0..3 {
        let exact_times_3 = 3 * 1000 - 1000 * (i as i64);
        let got_times_3 = 3 * (feed[i].weight as i64);
        assert!((got_times_3 - exact_times_3).abs() <= 3);
        assert_eq!(feed[i].weight as i64, expected[i]);
    }
}

#[test]
fn first_weight_is_ten_and_last_stays_positive() {
    let mut store = RatingStore::new();
    for i in 0u32..7 {
        let id = vec![b'a' + i as u8];
        assert!(store.insert_new(id, entry(ts(2023, 1, 1 + i as u8), 100 + i)));
    }
    let feed = rank(&store);
    assert_eq!(feed[0].weight, 1000);
    assert!(feed[6].weight > 0);
}

#[test]
fn equal_ratings_rank_later_added_first() {
    let mut store = RatingStore::new();
    assert!(store.insert_new(b"old".to_vec(), entry(ts(2020, 5, 1), 250)));
    assert!(store.insert_new(b"new".to_vec(), entry(ts(2024, 5, 1), 250)));
    let feed = rank(&store);
    assert_eq!(feed[0].id, b"new".to_vec());
    assert_eq!(feed[1].id, b"old".to_vec());
}

#[test]
fn empty_store_ranks_to_empty_feed() {
    let store = RatingStore::new();
    let feed = rank(&store);
    assert_eq!(feed.len(), 0);
    let text = render_feed(&feed);
    assert_eq!(text, Vec::<u8>::new());
}

#[test]
fn end_to_end_example_feed() {
    let mut store = RatingStore::new();
    assert!(store.insert_new(b"a".to_vec(), entry(ts(2023, 1, 1), 200)));
    assert!(store.insert_new(b"b".to_vec(), entry(ts(2023, 6, 1), 200)));
    assert!(store.insert_new(b"c".to_vec(), entry(ts(2023, 3, 1), 400)));
    let feed = rank(&store);
    assert_eq!(feed[0].id, b"b".to_vec());
    assert_eq!(feed[1].id, b"a".to_vec());
    assert_eq!(feed[2].id, b"c".to_vec());
    assert_eq!(feed[0].weight, 1000);
    assert_eq!(feed[1].weight, 667);
    assert_eq!(feed[2].weight, 333);
    let text = render_feed(&feed);
    assert_eq!(text, b"b:10.00|a:6.67|c:3.33".to_vec());
}
