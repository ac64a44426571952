use spotility::playlist::{
    chunk_outcome, plan_chunks, plan_ensure_empty, retry_decision, summarize_populate,
    ChunkOutcome, EnsureAction, PlaylistSummary, RetryDecision, CHUNK_LIMIT, MAX_RETRIES,
};

#[test]
fn chunk_failing_twice_then_succeeding_reports_success() {
    // attempts 1 and 2 fail, attempt 3 of 4 succeeds
    let attempts = vec![false, false, true, false];
    assert_eq!(chunk_outcome(&attempts, MAX_RETRIES), ChunkOutcome::Succeeded(3));
}

#[test]
fn chunk_failing_all_attempts_reports_failure_but_siblings_stand() {
    let attempts = vec![false, false, false, false];
    assert_eq!(chunk_outcome(&attempts, MAX_RETRIES), ChunkOutcome::Failed);
    // two sibling chunks succeed, the middle one fails: the report keeps both
    let mut settled: Vec<Result<(), u32>> = vec![Ok(()), Err(42), Ok(())];
    let report = summarize_populate(&mut settled);
    assert_eq!(report.chunks_total, 3);
    assert_eq!(report.failures.len(), 1);
    assert_eq!(report.failures[0], (1, 42));
}

#[test]
fn retry_decisions_respect_the_budget() {
    assert_eq!(retry_decision(0, MAX_RETRIES), RetryDecision::RetryAfterDelay);
    assert_eq!(retry_decision(2, MAX_RETRIES), RetryDecision::RetryAfterDelay);
    assert_eq!(retry_decision(3, MAX_RETRIES), RetryDecision::GiveUp);
}

#[test]
fn chunks_are_bounded_ordered_and_cover_everything() {
    let mut ids: Vec<Vec<u8>> = (0u32..250).map(|i| i.to_be_bytes().to_vec()).collect();
    let expected = ids.clone();
    let chunks = plan_chunks(&mut ids);
    assert_eq!(chunks.len(), 3);
    assert_eq!(chunks[0].len(), CHUNK_LIMIT);
    assert_eq!(chunks[1].len(), CHUNK_LIMIT);
    assert_eq!(chunks[2].len(), 50);
    let flat: Vec<Vec<u8>> = chunks.into_iter().flatten().collect();
    assert_eq!(flat, expected);
}

#[test]
fn exact_name_match_is_emptied_in_place_else_created() {
    let listed = vec![
        PlaylistSummary { id: b"p1".to_vec(), name: b"Mix".to_vec() },
        PlaylistSummary { id: b"p2".to_vec(), name: b"Top 50".to_vec() },
        PlaylistSummary { id: b"p3".to_vec(), name: b"Top 50".to_vec() },
    ];
    match plan_ensure_empty(&listed, &b"Top 50".to_vec()) {
        EnsureAction::ReplaceContents(id) => assert_eq!(id, b"p2".to_vec()),
        EnsureAction::CreateNew => panic!("expected a match"),
    }
    // the match is case-sensitive and exact
    assert!(matches!(
        plan_ensure_empty(&listed, &b"top 50".to_vec()),
        EnsureAction::CreateNew
    ));
    assert!(matches!(
        plan_ensure_empty(&listed, &b"Top 5".to_vec()),
        EnsureAction::CreateNew
    ));
}
