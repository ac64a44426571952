//! Planning and aggregating a paged bulk fetch of the remote collection:
//! the request windows for a wanted total, and the fail-fast concatenation
//! of the settled page results.

use vstd::prelude::*;
use crate::store::LikedItemRecord;

verus! {

/// The largest window one remote page request may ask for.
pub const PAGE_LIMIT: u32 = 50;

/// One request window against the paginated remote collection.
#[derive(Clone, Copy, PartialEq, Eq, Structural, Debug)]
pub struct Page {
    pub offset: u32,
    pub limit: u32,
}

/// How many pages a wanted total spans: `ceil(total / 50)`.
pub open spec fn page_count(total: int) -> int {
    (total + 49) / 50
}

/// The window the page at a position asks for: offsets ascend by 50, every
/// page takes 50 except the last, which takes the remainder when the total
/// does not divide evenly.
pub open spec fn page_at(total: int, i: int) -> Page
    recommends
        0 <= i < page_count(total),
{
    Page {
        offset: (50 * i) as u32,
        limit: if i == page_count(total) - 1 && total % 50 != 0 {
            (total % 50) as u32
        } else {
            50u32
        },
    }
}

/// The request windows for a wanted total: `ceil(total / 50)` pages in
/// ascending offset order, sized as `page_at` says. A total of zero plans
/// no requests.
pub fn plan_pages(total: u32) -> (r: Vec<Page>)
    ensures
        r@.len() == page_count(total as int),
        forall|i: int| 0 <= i < r@.len() ==> r@[i] == page_at(total as int, i),
{
    let full: u32 = total / PAGE_LIMIT;
    let rem: u32 = total % PAGE_LIMIT;
    let count: u32 = if rem > 0 {
        full + 1
    } else {
        full
    };
    assert(count == page_count(total as int));
    let mut out: Vec<Page> = Vec::new();
    let mut i: u32 = 0;
    while i < count
        invariant
            count == page_count(total as int),
            full == total / 50,
            rem == total % 50,
            i <= count,
            out@.len() == i,
            forall|k: int| 0 <= k < i ==> out@[k] == page_at(total as int, k),
        decreases count - i,
    {
        let limit: u32 = if rem > 0 && i == count - 1 {
            rem
        } else {
            PAGE_LIMIT
        };
        assert(50 * i < 50 * count <= total + 49 < 0x1_0000_0000 + 49);
        let offset: u32 = 50 * i;
        out.push(Page { offset, limit });
        i = i + 1;
    }
    out
}

/// The record sequences of pages that all settled successfully.
pub open spec fn page_records<E>(pages: Seq<Result<Vec<LikedItemRecord>, E>>) -> Seq<
    Seq<LikedItemRecord>,
> {
    pages.map_values(|p: Result<Vec<LikedItemRecord>, E>| (p->Ok_0)@)
}

/// Fail-fast aggregation of settled page results, in page order, draining
/// the settled list: if every page succeeded, the concatenation of their
/// records; otherwise the error of the first failed page, the later pages'
/// outcomes discarded.
#[verifier::loop_isolation(false)]
pub fn collect_pages<E>(pages: &mut Vec<Result<Vec<LikedItemRecord>, E>>) -> (r: Result<
    Vec<LikedItemRecord>,
    E,
>)
    ensures
        match r {
            Ok(v) => {
                &&& forall|i: int|
                    0 <= i < old(pages)@.len() ==> (#[trigger] old(pages)@[i]) is Ok
                &&& v@ == page_records(old(pages)@).flatten()
            },
            Err(e) => exists|i: int|
                0 <= i < old(pages)@.len() && (#[trigger] old(pages)@[i]) is Err && e == old(
                    pages,
                )@[i]->Err_0 && forall|j: int| 0 <= j < i ==> old(pages)@[j] is Ok,
        },
{
    let ghost orig = pages@;
    let mut out: Vec<LikedItemRecord> = Vec::new();
    let ghost mut done: int = 0;
    while pages.len() > 0
        invariant
            0 <= done <= orig.len(),
            pages@ == orig.subrange(done, orig.len() as int),
            forall|j: int| 0 <= j < done ==> (#[trigger] orig[j]) is Ok,
            out@ == page_records(orig.subrange(0, done)).flatten(),
        decreases pages@.len(),
    {
        let page = pages.remove(0);
        proof {
            assert(page == orig[done]);
            assert(pages@ =~= orig.subrange(done + 1, orig.len() as int));
        }
        match page {
            Ok(mut records) => {
                let ghost rec_seq = records@;
                out.append(&mut records);
                proof {
                    let pre = orig.subrange(0, done);
                    assert(orig.subrange(0, done + 1) =~= pre.push(orig[done]));
                    assert(page_records(orig.subrange(0, done + 1)) =~= page_records(pre).push(
                        rec_seq,
                    ));
                    page_records(pre).lemma_flatten_push(rec_seq);
                    done = done + 1;
                }
            },
            Err(e) => {
                proof {
                    assert(0 <= done < old(pages)@.len() && (#[trigger] old(pages)@[done]) is Err
                        && e == old(pages)@[done]->Err_0
                        && forall|j: int| 0 <= j < done ==> old(pages)@[j] is Ok);
                }
                return Err(e);
            },
        }
    }
    proof {
        assert(orig.subrange(0, done) =~= orig);
    }
    Ok(out)
}

} // verus!
