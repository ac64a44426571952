use spotility::fetch::{collect_pages, plan_pages};
use spotility::store::{LikedItemRecord, Timestamp};

fn rec(id: &[u8]) -> LikedItemRecord {
    LikedItemRecord {
        id: id.to_vec(),
        added_at: Timestamp { year: 2023, month: 1, day: 1, hour: 0, minute: 0, second: 0 },
    }
}

#[test]
fn fetch_of_120_plans_three_pages() {
    let pages = plan_pages(120);
    assert_eq!(pages.len(), 3);
    assert_eq!((pages[0].offset, pages[0].limit), (0, 50));
    assert_eq!((pages[1].offset, pages[1].limit), (50, 50));
    assert_eq!((pages[2].offset, pages[2].limit), (100, 20));
}

#[test]
fn even_totals_plan_full_pages_and_zero_plans_none() {
    let pages = plan_pages(100);
    assert_eq!(pages.len(), 2);
    assert_eq!((pages[1].offset, pages[1].limit), (50, 50));
    assert_eq!(plan_pages(0).len(), 0);
    let one = plan_pages(7);
    assert_eq!(one.len(), 1);
    assert_eq!((one[0].offset, one[0].limit), (0, 7));
}

#[test]
fn successful_pages_concatenate_in_page_order() {
    let mut settled: Vec<Result<Vec<LikedItemRecord>, u32>> = vec![
        Ok(vec![rec(b"a"), rec(b"b")]),
        Ok(vec![rec(b"c")]),
        Ok(vec![rec(b"d"), rec(b"e")]),
    ];
    let all = collect_pages(&mut settled).unwrap();
    let ids: Vec<Vec<u8>> = all.into_iter().map(|r| r.id).collect();
    assert_eq!(
        ids,
        vec![b"a".to_vec(), b"b".to_vec(), b"c".to_vec(), b"d".to_vec(), b"e".to_vec()]
    );
}

#[test]
fn first_failed_page_fails_the_whole_fetch() {
    let mut settled: Vec<Result<Vec<LikedItemRecord>, u32>> = vec![
        Ok(vec![rec(b"a")]),
        Err(7),
        Ok(vec![rec(b"c")]),
        Err(9),
    ];
    assert_eq!(collect_pages(&mut settled).unwrap_err(), 7);
}
