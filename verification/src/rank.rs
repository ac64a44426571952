//! Deriving the ranked weight feed from a rating store snapshot: order the
//! entries by rating ascending with later-added entries first among equal
//! ratings, then assign each position an evenly spaced weight.

use vstd::prelude::*;
use crate::store::{RatingEntry, RatingStore, copy_bytes};

verus! {

/// The rank order on entries: lower rating first; among equal ratings, the
/// later instant first.
pub open spec fn entry_le(a: RatingEntry, b: RatingEntry) -> bool {
    ||| a.rating < b.rating
    ||| (a.rating == b.rating && a.added_at.order_key() >= b.added_at.order_key())
}

/// The rank order on (identifier, entry) pairs; the identifier plays no
/// part. Pairs equal in rating and instant may stand either way.
pub open spec fn rank_le(a: (Seq<u8>, RatingEntry), b: (Seq<u8>, RatingEntry)) -> bool {
    entry_le(a.1, b.1)
}

/// Every pair of positions respects the rank order.
pub open spec fn sorted_for_rank(s: Seq<(Seq<u8>, RatingEntry)>) -> bool {
    forall|i: int, j: int| 0 <= i < j < s.len() ==> rank_le(s[i], s[j])
}

/// A rank order of a store's content: the same entries, arranged by
/// `rank_le`.
pub open spec fn is_ranking(
    s: Seq<(Seq<u8>, RatingEntry)>,
    store: Seq<(Seq<u8>, RatingEntry)>,
) -> bool {
    &&& sorted_for_rank(s)
    &&& s.to_multiset() == store.to_multiset()
}

/// Among equal ratings, an earlier rank position never carries an earlier
/// instant: the later-added entry ranks first.
pub proof fn lemma_rank_ties_later_first(s: Seq<(Seq<u8>, RatingEntry)>, i: int, j: int)
    requires
        sorted_for_rank(s),
        0 <= i < j < s.len(),
        s[i].1.rating == s[j].1.rating,
    ensures
        s[i].1.added_at.order_key() >= s[j].1.added_at.order_key(),
{
    assert(rank_le(s[i], s[j]));
}

/// The pair view of a vector of owned entries.
pub open spec fn pair_view(v: Seq<(Vec<u8>, RatingEntry)>) -> Seq<(Seq<u8>, RatingEntry)> {
    v.map_values(|p: (Vec<u8>, RatingEntry)| (p.0@, p.1))
}

/// Executable rank order on entries.
fn entry_le_exec(a: &RatingEntry, b: &RatingEntry) -> (r: bool)
    ensures
        r == entry_le(*a, *b),
{
    a.rating < b.rating || (a.rating == b.rating && a.added_at.key() >= b.added_at.key())
}

/// The store's entries arranged in rank order.
pub fn ranked_pairs(store: &RatingStore) -> (r: Vec<(Vec<u8>, RatingEntry)>)
    ensures
        is_ranking(pair_view(r@), store.entry_seq()),
        r@.len() == store.entry_seq().len(),
{
    broadcast use vstd::seq_lib::group_to_multiset_ensures;

    let n = store.entries.len();
    let mut out: Vec<(Vec<u8>, RatingEntry)> = Vec::new();
    let mut i: usize = 0;
    while i < n
        invariant
            n == store.entries.len(),
            i <= n,
            sorted_for_rank(pair_view(out@)),
            pair_view(out@).to_multiset() == store.entry_seq().take(i as int).to_multiset(),
            out@.len() == i,
        decreases n - i,
    {
        let id = copy_bytes(&store.entries[i].0);
        let entry = store.entries[i].1;
        let ghost x = (id@, entry);
        let ghost pre = pair_view(out@);
        let mut p: usize = 0;
        while p < out.len()
            invariant
                p <= out.len(),
                out@.len() == pre.len(),
                pair_view(out@) == pre,
                forall|k: int| 0 <= k < p ==> rank_le(pre[k], x),
                entry == x.1,
            ensures
                p <= out.len(),
                out@.len() == pre.len(),
                pair_view(out@) == pre,
                forall|k: int| 0 <= k < p ==> rank_le(pre[k], x),
                p == pre.len() || !rank_le(pre[p as int], x),
            decreases out.len() - p,
        {
            if !entry_le_exec(&out[p].1, &entry) {
                proof {
                    assert(pre[p as int].1 == out@[p as int].1);
                }
                break;
            }
            p = p + 1;
        }
        let ghost pos = p as int;
        assert(pos == pre.len() || !rank_le(pre[pos], x));
        out.insert(p, (id, entry));
        proof {
            let now = pair_view(out@);
            assert(now =~= pre.insert(pos, x));
            assert(sorted_for_rank(now)) by {
                assert forall|a: int, b: int| 0 <= a < b < now.len() implies rank_le(
                    now[a],
                    now[b],
                ) by {
                    if b < pos {
                        assert(now[a] == pre[a] && now[b] == pre[b]);
                    } else if a > pos {
                        assert(now[a] == pre[a - 1] && now[b] == pre[b - 1]);
                    } else if a < pos && b == pos {
                        assert(now[a] == pre[a] && now[b] == x);
                    } else if a < pos && b > pos {
                        assert(now[a] == pre[a] && now[b] == pre[b - 1]);
                    } else if a == pos && b > pos {
                        assert(now[a] == x && now[b] == pre[b - 1]);
                        assert(pos < pre.len() && !rank_le(pre[pos], x));
                        assert(rank_le(x, pre[pos]));
                        assert(pos == b - 1 || rank_le(pre[pos], pre[b - 1]));
                    }
                }
            }
            vstd::seq_lib::to_multiset_insert(pre, pos, x);
            assert(now.to_multiset() == pre.to_multiset().insert(x));
            assert(store.entry_seq().take(i + 1) =~= store.entry_seq().take(i as int).push(
                store.entry_seq()[i as int],
            ));
            assert(x == store.entry_seq()[i as int]);
            vstd::seq_lib::to_multiset_build(store.entry_seq().take(i as int), x);
            assert(store.entry_seq().take(i + 1).to_multiset()
                == store.entry_seq().take(i as int).to_multiset().insert(x));
        }
        i = i + 1;
    }
    proof {
        assert(store.entry_seq().take(n as int) =~= store.entry_seq());
    }
    out
}

/// The weight, in hundredths, that rank position `i` of `n` receives:
/// `10 - (10/n) * i`, rounded half-up to two fractional digits.
pub open spec fn weight_centi(n: int, i: int) -> int {
    (2000 * (n - i) + n) / (2 * n)
}

/// Executable weight, equal to the specification-level one.
pub fn weight_centi_exec(n: usize, i: usize) -> (r: u32)
    requires
        0 < n,
        i < n,
    ensures
        r == weight_centi(n as int, i as int),
        r <= 1000,
{
    proof {
        lemma_weight_centi_bounds(n as int, i as int);
    }
    let w: u128 = (2000u128 * ((n - i) as u128) + n as u128) / (2u128 * n as u128);
    w as u32
}

/// The weight of any rank position lies between 0 and 10.00; the first
/// position's weight is exactly 10.00.
pub proof fn lemma_weight_centi_bounds(n: int, i: int)
    requires
        0 < n,
        0 <= i < n,
    ensures
        0 <= weight_centi(n, i) <= 1000,
        weight_centi(n, 0) == 1000,
{
    let d = 2 * n;
    let x = 2000 * (n - i) + n;
    let q = x / d;
    vstd::arithmetic::div_mod::lemma_fundamental_div_mod(x, d);
    vstd::arithmetic::div_mod::lemma_mod_bound(x, d);
    assert(x == d * q + x % d);
    assert(0 < x <= 2001 * n);
    if q >= 1001 {
        vstd::arithmetic::mul::lemma_mul_inequality(1001, q, d);
        assert(1001 * d <= q * d);
        vstd::arithmetic::mul::lemma_mul_is_commutative(d, q);
        assert(x >= 1001 * (2 * n));
        assert(false);
    }
    if q <= -1 {
        vstd::arithmetic::mul::lemma_mul_inequality(q, -1, d);
        vstd::arithmetic::mul::lemma_mul_is_commutative(d, q);
        assert(x <= (-1) * d + x % d);
        assert(false);
    }
    let x0 = 2000 * n + n;
    let q0 = x0 / d;
    vstd::arithmetic::div_mod::lemma_fundamental_div_mod(x0, d);
    vstd::arithmetic::div_mod::lemma_mod_bound(x0, d);
    assert(x0 == d * q0 + x0 % d);
    if q0 >= 1001 {
        vstd::arithmetic::mul::lemma_mul_inequality(1001, q0, d);
        vstd::arithmetic::mul::lemma_mul_is_commutative(d, q0);
        assert(x0 >= 1001 * (2 * n));
        assert(false);
    }
    if q0 <= 999 {
        vstd::arithmetic::mul::lemma_mul_inequality(q0, 999, d);
        vstd::arithmetic::mul::lemma_mul_is_commutative(d, q0);
        assert(x0 <= 999 * (2 * n) + x0 % d);
        assert(false);
    }
    assert(q0 == 1000);
}

/// With at most 1000 entries, a later rank position always receives a
/// strictly smaller weight: the spacing of 10/n is at least one hundredth,
/// so rounding cannot level two positions.
pub proof fn lemma_weight_strictly_decreasing(n: int, i: int, j: int)
    requires
        1 <= n <= 1000,
        0 <= i < j < n,
    ensures
        weight_centi(n, i) > weight_centi(n, j),
{
    let d = 2 * n;
    let xi = 2000 * (n - i) + n;
    let xj = 2000 * (n - j) + n;
    let qi = xi / d;
    let qj = xj / d;
    vstd::arithmetic::div_mod::lemma_fundamental_div_mod(xi, d);
    vstd::arithmetic::div_mod::lemma_mod_bound(xi, d);
    vstd::arithmetic::div_mod::lemma_fundamental_div_mod(xj, d);
    vstd::arithmetic::div_mod::lemma_mod_bound(xj, d);
    assert(xi >= xj + 2000);
    if qi <= qj {
        vstd::arithmetic::mul::lemma_mul_inequality(qi + 1, qj + 1, d);
        vstd::arithmetic::mul::lemma_mul_is_commutative(d, qi);
        vstd::arithmetic::mul::lemma_mul_is_commutative(d, qj);
        vstd::arithmetic::mul::lemma_mul_is_distributive_add_other_way(d, qi, 1);
        vstd::arithmetic::mul::lemma_mul_is_distributive_add_other_way(d, qj, 1);
        assert(xi < (qi + 1) * d);
        assert((qj + 1) * d <= xj + d);
        assert(xi <= xj + d);
        assert(false);
    }
}

/// Each weight is within half a hundredth of the exact value `10 - (10/n)i`:
/// scaled by `2n`, the rounded weight differs from the exact numerator by at
/// most `n`.
pub proof fn lemma_weight_close_to_exact(n: int, i: int)
    requires
        0 < n,
        0 <= i < n,
    ensures
        -n < 2 * n * weight_centi(n, i) - 2000 * (n - i) <= n,
{
    let d = 2 * n;
    let x = 2000 * (n - i) + n;
    let q = x / d;
    vstd::arithmetic::div_mod::lemma_fundamental_div_mod(x, d);
    vstd::arithmetic::div_mod::lemma_mod_bound(x, d);
    assert(x == d * q + x % d);
    vstd::arithmetic::mul::lemma_mul_is_commutative(d, q);
    vstd::arithmetic::mul::lemma_mul_is_associative(2, n, q);
    assert(2 * n * q == 2000 * (n - i) + n - x % d);
}

/// With at most 2000 entries, even the last rank position keeps a weight
/// above zero.
pub proof fn lemma_weight_positive(n: int, i: int)
    requires
        1 <= n <= 2000,
        0 <= i < n,
    ensures
        weight_centi(n, i) >= 1,
{
    let d = 2 * n;
    let x = 2000 * (n - i) + n;
    let q = x / d;
    vstd::arithmetic::div_mod::lemma_fundamental_div_mod(x, d);
    vstd::arithmetic::div_mod::lemma_mod_bound(x, d);
    assert(x == d * q + x % d);
    assert(x >= 2000 + n);
    if q <= 0 {
        vstd::arithmetic::mul::lemma_mul_inequality(q, 0, d);
        vstd::arithmetic::mul::lemma_mul_is_commutative(d, q);
        assert(d * q <= 0);
        assert(x < d);
        assert(false);
    }
}

/// One entry of the weight feed: an identifier and its weight in
/// hundredths.
#[derive(Debug)]
pub struct WeightedEntry {
    pub id: Vec<u8>,
    pub weight: u32,
}

/// The ranked weight feed of a store snapshot: entries in rank order, the
/// entry at position `i` of `n` weighted `10 - (10/n)i` in hundredths. An
/// empty store yields an empty feed.
pub fn rank(store: &RatingStore) -> (r: Vec<WeightedEntry>)
    ensures
        r@.len() == store.entry_seq().len(),
        exists|s: Seq<(Seq<u8>, RatingEntry)>|
            #[trigger] is_ranking(s, store.entry_seq()) && s.len() == r@.len() && forall|i: int|
                0 <= i < r@.len() ==> (#[trigger] r@[i]).id@ == s[i].0 && r@[i].weight
                    == weight_centi(r@.len() as int, i),
{
    let pairs = ranked_pairs(store);
    let n = pairs.len();
    let ghost pv = pair_view(pairs@);
    let mut out: Vec<WeightedEntry> = Vec::new();
    let mut i: usize = 0;
    while i < n
        invariant
            n == pairs@.len(),
            pv == pair_view(pairs@),
            i <= n,
            out@.len() == i,
            forall|k: int| 0 <= k < i ==> (#[trigger] out@[k]).id@ == pv[k].0 && out@[k].weight
                == weight_centi(n as int, k),
        decreases n - i,
    {
        let id = copy_bytes(&pairs[i].0);
        let w = weight_centi_exec(n, i);
        out.push(WeightedEntry { id, weight: w });
        i = i + 1;
    }
    proof {
        assert(is_ranking(pv, store.entry_seq()) && pv.len() == out@.len() && forall|k: int|
            0 <= k < out@.len() ==> (#[trigger] out@[k]).id@ == pv[k].0 && out@[k].weight
                == weight_centi(out@.len() as int, k));
    }
    out
}

} // verus!
