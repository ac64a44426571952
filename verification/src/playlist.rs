//! Planning the synchronisation of a playlist: finding or creating the
//! target, splitting the items into bounded write chunks, the bounded
//! per-chunk retry policy, and the partial-success report.

use vstd::prelude::*;

verus! {

/// The most items one remote write may carry.
pub const CHUNK_LIMIT: usize = 100;

/// How many times a failed chunk write is retried before it is recorded
/// as failed (so up to `MAX_RETRIES + 1` attempts in all).
pub const MAX_RETRIES: u32 = 3;

/// The fixed pause between two attempts on the same chunk, in milliseconds.
pub const RETRY_DELAY_MS: u64 = 2000;

/// How many playlists the owner's list is searched through.
pub const SEARCH_LIMIT: u32 = 50;

/// A playlist as the remote lists it: its identifier and its name.
#[derive(Debug)]
pub struct PlaylistSummary {
    pub id: Vec<u8>,
    pub name: Vec<u8>,
}

/// What to do so that an empty playlist of the wanted name exists.
#[derive(Debug)]
pub enum EnsureAction {
    /// A playlist of that name exists: replace its contents with nothing;
    /// the payload is its identifier.
    ReplaceContents(Vec<u8>),
    /// No playlist of that name exists: create one, non-public and
    /// non-collaborative.
    CreateNew,
}

/// Decide how to obtain an empty playlist of the wanted name from the
/// owner's listed playlists: the first exact, case-sensitive name match is
/// emptied in place; without a match a fresh playlist is created.
pub fn plan_ensure_empty(playlists: &Vec<PlaylistSummary>, name: &Vec<u8>) -> (r: EnsureAction)
    ensures
        match r {
            EnsureAction::ReplaceContents(id) => exists|i: int|
                0 <= i < playlists@.len() && (#[trigger] playlists@[i]).name@ == name@ && id@
                    == playlists@[i].id@ && forall|j: int|
                    0 <= j < i ==> playlists@[j].name@ != name@,
            EnsureAction::CreateNew => forall|i: int|
                0 <= i < playlists@.len() ==> (#[trigger] playlists@[i]).name@ != name@,
        },
{
    let n = playlists.len();
    let mut i: usize = 0;
    while i < n
        invariant
            n == playlists@.len(),
            i <= n,
            forall|j: int| 0 <= j < i ==> (#[trigger] playlists@[j]).name@ != name@,
        decreases n - i,
    {
        if crate::store::bytes_eq(&playlists[i].name, name) {
            let id = crate::store::copy_bytes(&playlists[i].id);
            proof {
                assert((#[trigger] playlists@[i as int]).name@ == name@ && id@
                    == playlists@[i as int].id@ && forall|j: int|
                    0 <= j < i as int ==> playlists@[j].name@ != name@);
            }
            return EnsureAction::ReplaceContents(id);
        }
        i = i + 1;
    }
    EnsureAction::CreateNew
}

/// Split the items, in order, into write chunks of at most `CHUNK_LIMIT`,
/// draining the given list: every chunk but the last holds exactly
/// `CHUNK_LIMIT` items, no chunk is empty, and the chunks concatenated are
/// the items as given.
#[verifier::loop_isolation(false)]
pub fn plan_chunks(ids: &mut Vec<Vec<u8>>) -> (r: Vec<Vec<Vec<u8>>>)
    ensures
        r@.map_values(|c: Vec<Vec<u8>>| c@).flatten() == old(ids)@,
        forall|i: int| 0 <= i < r@.len() ==> 0 < (#[trigger] r@[i])@.len() <= CHUNK_LIMIT as int,
        forall|i: int| 0 <= i < r@.len() - 1 ==> (#[trigger] r@[i])@.len() == CHUNK_LIMIT as int,
{
    let ghost orig = ids@;
    let mut out: Vec<Vec<Vec<u8>>> = Vec::new();
    let ghost mut done: int = 0;
    while ids.len() > 0
        invariant
            0 <= done <= orig.len(),
            ids@ == orig.subrange(done, orig.len() as int),
            out@.map_values(|c: Vec<Vec<u8>>| c@).flatten() == orig.subrange(0, done),
            forall|i: int| 0 <= i < out@.len() ==> 0 < (#[trigger] out@[i])@.len() <= CHUNK_LIMIT as int,
            forall|i: int| 0 <= i < out@.len() - 1 ==> (#[trigger] out@[i])@.len() == CHUNK_LIMIT as int,
            ids@.len() > 0 ==> forall|i: int|
                0 <= i < out@.len() ==> (#[trigger] out@[i])@.len() == CHUNK_LIMIT as int,
        decreases ids@.len(),
    {
        let take: usize = if ids.len() < CHUNK_LIMIT {
            ids.len()
        } else {
            CHUNK_LIMIT
        };
        let mut chunk: Vec<Vec<u8>> = Vec::new();
        let mut k: usize = 0;
        while k < take
            invariant
                k <= take,
                take <= ids@.len() + k,
                ids@ == orig.subrange(done + k, orig.len() as int),
                chunk@ == orig.subrange(done, done + k),
            decreases take - k,
        {
            let id = ids.remove(0);
            chunk.push(id);
            proof {
                assert(ids@ =~= orig.subrange(done + k + 1, orig.len() as int));
                assert(chunk@ =~= orig.subrange(done, done + k + 1));
            }
            k = k + 1;
        }
        let ghost pre = out@.map_values(|c: Vec<Vec<u8>>| c@);
        out.push(chunk);
        proof {
            assert(out@.map_values(|c: Vec<Vec<u8>>| c@) =~= pre.push(
                orig.subrange(done, done + take),
            ));
            pre.lemma_flatten_push(orig.subrange(done, done + take));
            assert(orig.subrange(0, done) + orig.subrange(done, done + take) =~= orig.subrange(
                0,
                done + take,
            ));
            done = done + take;
        }
    }
    proof {
        assert(orig.subrange(0, done) =~= orig);
    }
    out
}

/// How one chunk's bounded retry ends.
#[derive(Clone, Copy, PartialEq, Eq, Structural, Debug)]
pub enum ChunkOutcome {
    /// Some attempt succeeded; the payload is how many attempts were made.
    Succeeded(u32),
    /// Every allowed attempt failed.
    Failed,
}

/// What the retry loop does after a failed attempt.
#[derive(Clone, Copy, PartialEq, Eq, Structural, Debug)]
pub enum RetryDecision {
    /// Try again after the fixed `RETRY_DELAY_MS` pause.
    RetryAfterDelay,
    /// The retry budget is spent: record the chunk as failed.
    GiveUp,
}

/// Decide, after a failed attempt with `retries_used` retries already
/// spent, whether the chunk gets another attempt.
pub fn retry_decision(retries_used: u32, max_retries: u32) -> (r: RetryDecision)
    ensures
        r == (if retries_used < max_retries {
            RetryDecision::RetryAfterDelay
        } else {
            RetryDecision::GiveUp
        }),
{
    if retries_used < max_retries {
        RetryDecision::RetryAfterDelay
    } else {
        RetryDecision::GiveUp
    }
}

/// The outcome of one chunk under the bounded retry policy, given how each
/// of its allowed attempts would fare: the chunk succeeds on the first
/// successful attempt, with attempts before it all failed, and only a chunk
/// whose every allowed attempt fails is recorded as failed.
pub fn chunk_outcome(attempts: &Vec<bool>, max_retries: u32) -> (r: ChunkOutcome)
    requires
        max_retries < u32::MAX,
        attempts@.len() == max_retries + 1,
    ensures
        match r {
            ChunkOutcome::Succeeded(made) => {
                &&& 1 <= made <= max_retries + 1
                &&& attempts@[made - 1]
                &&& forall|j: int| 0 <= j < made - 1 ==> !attempts@[j]
            },
            ChunkOutcome::Failed => forall|j: int| 0 <= j < attempts@.len() ==> !attempts@[j],
        },
{
    let n = attempts.len();
    let mut k: usize = 0;
    while k < n
        invariant
            n == attempts@.len(),
            n == max_retries + 1,
            max_retries < u32::MAX,
            k <= n,
            forall|j: int| 0 <= j < k ==> !attempts@[j],
        decreases n - k,
    {
        if attempts[k] {
            let made: u32 = (k as u32) + 1;
            proof {
                assert(made - 1 == k as int);
            }
            return ChunkOutcome::Succeeded(made);
        }
        k = k + 1;
    }
    ChunkOutcome::Failed
}

/// The partial-success report of a populate operation: how many chunks
/// were written, and which failed, with their final errors.
#[derive(Debug)]
pub struct PopulateReport<E> {
    pub chunks_total: usize,
    pub failures: Vec<(usize, E)>,
}

/// Collect the settled per-chunk outcomes into a report, draining the
/// outcome list: the failures are exactly the failed chunks, in chunk
/// order, each with its final error; sibling chunks' successes are kept
/// regardless.
#[verifier::loop_isolation(false)]
pub fn summarize_populate<E>(results: &mut Vec<Result<(), E>>) -> (r: PopulateReport<E>)
    ensures
        r.chunks_total == old(results)@.len(),
        forall|k: int| 0 <= k < r.failures@.len() ==> {
            &&& (#[trigger] r.failures@[k]).0 < old(results)@.len()
            &&& old(results)@[r.failures@[k].0 as int] is Err
            &&& r.failures@[k].1 == old(results)@[r.failures@[k].0 as int]->Err_0
        },
        forall|k: int, l: int|
            0 <= k < l < r.failures@.len() ==> r.failures@[k].0 < r.failures@[l].0,
        forall|i: int| 0 <= i < old(results)@.len() && (#[trigger] old(results)@[i]) is Err
            ==> exists|k: int| 0 <= k < r.failures@.len() && (#[trigger] r.failures@[k]).0 == i,
{
    let ghost orig = results@;
    let total = results.len();
    let mut failures: Vec<(usize, E)> = Vec::new();
    let mut i: usize = 0;
    while results.len() > 0
        invariant
            i <= orig.len(),
            total == orig.len(),
            results@ == orig.subrange(i as int, orig.len() as int),
            forall|k: int| 0 <= k < failures@.len() ==> {
                &&& (#[trigger] failures@[k]).0 < i
                &&& orig[failures@[k].0 as int] is Err
                &&& failures@[k].1 == orig[failures@[k].0 as int]->Err_0
            },
            forall|k: int, l: int|
                0 <= k < l < failures@.len() ==> failures@[k].0 < failures@[l].0,
            forall|j: int| 0 <= j < i && (#[trigger] orig[j]) is Err
                ==> exists|k: int| 0 <= k < failures@.len() && (#[trigger] failures@[k]).0 == j,
        decreases results@.len(),
    {
        let outcome = results.remove(0);
        proof {
            assert(outcome == orig[i as int]);
            assert(results@ =~= orig.subrange(i + 1, orig.len() as int));
        }
        let ghost pre_failures = failures@;
        match outcome {
            Ok(()) => {},
            Err(e) => {
                failures.push((i, e));
            },
        }
        proof {
            assert forall|j: int| 0 <= j < i + 1 && (#[trigger] orig[j]) is Err implies exists|
                k: int,
            | 0 <= k < failures@.len() && (#[trigger] failures@[k]).0 == j by {
                if j < i {
                    let k = choose|k: int|
                        0 <= k < pre_failures.len() && (#[trigger] pre_failures[k]).0 == j;
                    assert(failures@[k].0 == j);
                } else {
                    assert(orig[i as int] is Err);
                    assert(failures@[failures@.len() - 1].0 == j);
                }
            }
        }
        i = i + 1;
    }
    PopulateReport { chunks_total: total, failures }
}

} // verus!
