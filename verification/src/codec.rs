//! Encoding the rating store for persistence and rendering the weight
//! feed: a store is one object mapping each identifier to its instant,
//! written as a calendar text, and its rating, written with two fractional
//! digits; the feed joins `identifier:weight` pairs with a bar.

use vstd::prelude::*;
use crate::store::{RatingEntry, RatingStore, StoreError, Timestamp};
use crate::rank::WeightedEntry;

verus! {

/// The decimal digits of a non-negative number, most significant first,
/// without leading zeroes.
pub open spec fn dec_digits(n: int) -> Seq<u8>
    decreases n,
{
    if n < 10 {
        seq![(48 + if n >= 0 { n } else { 0 }) as u8]
    } else {
        dec_digits(n / 10).push((48 + n % 10) as u8)
    }
}

/// Two decimal digits, zero-padded.
pub open spec fn dec2(n: int) -> Seq<u8> {
    seq![(48 + n / 10) as u8, (48 + n % 10) as u8]
}

/// Four decimal digits, zero-padded.
pub open spec fn dec4(n: int) -> Seq<u8> {
    dec2(n / 100) + dec2(n % 100)
}

/// A rating or weight in hundredths, written `digits.dd`.
pub open spec fn centi_bytes(n: int) -> Seq<u8> {
    dec_digits(n / 100) + seq![46u8] + dec2(n % 100)
}

/// A timestamp written `YYYY-MM-DDThh:mm:ssZ`.
pub open spec fn ts_bytes(t: Timestamp) -> Seq<u8> {
    dec4(t.year as int) + seq![45u8] + dec2(t.month as int) + seq![45u8] + dec2(t.day as int)
        + seq![84u8] + dec2(t.hour as int) + seq![58u8] + dec2(t.minute as int) + seq![58u8]
        + dec2(t.second as int) + seq![90u8]
}

/// Append the decimal digits of a number.
fn push_dec(out: &mut Vec<u8>, n: u32)
    ensures
        final(out)@ == old(out)@ + dec_digits(n as int),
    decreases n,
{
    if n < 10 {
        out.push(48 + n as u8);
        proof {
            assert(out@ =~= old(out)@ + dec_digits(n as int));
        }
    } else {
        push_dec(out, n / 10);
        out.push(48 + (n % 10) as u8);
        proof {
            assert(out@ =~= old(out)@ + dec_digits(n as int));
        }
    }
}

/// Append two zero-padded decimal digits.
fn push_dec2(out: &mut Vec<u8>, n: u32)
    requires
        n < 100,
    ensures
        final(out)@ == old(out)@ + dec2(n as int),
{
    out.push(48 + (n / 10) as u8);
    out.push(48 + (n % 10) as u8);
    proof {
        assert(out@ =~= old(out)@ + dec2(n as int));
    }
}

/// Append four zero-padded decimal digits.
fn push_dec4(out: &mut Vec<u8>, n: u32)
    requires
        n < 10000,
    ensures
        final(out)@ == old(out)@ + dec4(n as int),
{
    push_dec2(out, n / 100);
    push_dec2(out, n % 100);
    proof {
        assert(out@ =~= old(out)@ + dec4(n as int));
    }
}

/// Append a rating or weight in hundredths as `digits.dd`.
fn push_centi(out: &mut Vec<u8>, n: u32)
    ensures
        final(out)@ == old(out)@ + centi_bytes(n as int),
{
    push_dec(out, n / 100);
    out.push(46);
    push_dec2(out, n % 100);
    proof {
        assert(out@ =~= old(out)@ + centi_bytes(n as int));
    }
}

/// Append a timestamp as `YYYY-MM-DDThh:mm:ssZ`.
fn push_ts(out: &mut Vec<u8>, t: &Timestamp)
    requires
        t.wf(),
    ensures
        final(out)@ == old(out)@ + ts_bytes(*t),
{
    push_dec4(out, t.year as u32);
    out.push(45);
    push_dec2(out, t.month as u32);
    out.push(45);
    push_dec2(out, t.day as u32);
    out.push(84);
    push_dec2(out, t.hour as u32);
    out.push(58);
    push_dec2(out, t.minute as u32);
    out.push(58);
    push_dec2(out, t.second as u32);
    out.push(90);
    proof {
        assert(out@ =~= old(out)@ + ts_bytes(*t));
    }
}

/// One identifier byte as the persisted encoding writes it: the double
/// quote and the backslash are preceded by a backslash, every other byte
/// stands as itself.
pub open spec fn esc_byte(b: u8) -> Seq<u8> {
    if b == 34 || b == 92 {
        seq![92u8, b]
    } else {
        seq![b]
    }
}

/// An identifier as the persisted encoding writes it, byte by byte.
pub open spec fn esc(s: Seq<u8>) -> Seq<u8>
    decreases s.len(),
{
    if s.len() == 0 {
        Seq::empty()
    } else {
        esc_byte(s[0]) + esc(s.drop_first())
    }
}

/// Escaping one more byte extends the escaped text at its end.
proof fn lemma_esc_snoc(s: Seq<u8>, b: u8)
    ensures
        esc(s.push(b)) == esc(s) + esc_byte(b),
    decreases s.len(),
{
    if s.len() == 0 {
        assert(s.push(b)[0] == b);
        assert(s.push(b).drop_first() =~= Seq::<u8>::empty());
        assert(esc(Seq::<u8>::empty()) == Seq::<u8>::empty());
        assert(esc(s.push(b)) == esc_byte(b) + esc(s.push(b).drop_first()));
        assert(esc(s.push(b)) =~= esc(s) + esc_byte(b));
    } else {
        assert(s.push(b)[0] == s[0]);
        assert(s.push(b).drop_first() =~= s.drop_first().push(b));
        lemma_esc_snoc(s.drop_first(), b);
        assert(esc(s.push(b)) =~= esc(s) + esc_byte(b));
    }
}

/// An escaped identifier never starts with a bare quote.
proof fn lemma_esc_first(s: Seq<u8>)
    requires
        s.len() > 0,
    ensures
        esc(s).len() > 0,
        esc(s)[0] != 34,
{
    assert(esc(s) == esc_byte(s[0]) + esc(s.drop_first()));
    assert(esc(s)[0] == esc_byte(s[0])[0]);
}

/// Splitting at the closing quote: an escaped identifier, the bare quote
/// that ends it, and a remainder determine the identifier and the
/// remainder, whatever bytes the identifier holds.
proof fn lemma_esc_split(a1: Seq<u8>, r1: Seq<u8>, a2: Seq<u8>, r2: Seq<u8>)
    requires
        esc(a1) + seq![34u8] + r1 == esc(a2) + seq![34u8] + r2,
    ensures
        a1 == a2,
        r1 == r2,
    decreases a1.len(),
{
    let l = esc(a1) + seq![34u8] + r1;
    let r = esc(a2) + seq![34u8] + r2;
    if a1.len() == 0 && a2.len() == 0 {
        lemma_peel(esc(a1) + seq![34u8], r1, esc(a2) + seq![34u8], r2);
        assert(a1 =~= a2);
    } else if a1.len() == 0 {
        assert(l[0] == 34);
        lemma_esc_first(a2);
        assert(r[0] == esc(a2)[0]);
        assert(false);
    } else if a2.len() == 0 {
        assert(r[0] == 34);
        lemma_esc_first(a1);
        assert(l[0] == esc(a1)[0]);
        assert(false);
    } else {
        let b1 = a1[0];
        let b2 = a2[0];
        assert(l =~= esc_byte(b1) + (esc(a1.drop_first()) + seq![34u8] + r1));
        assert(r =~= esc_byte(b2) + (esc(a2.drop_first()) + seq![34u8] + r2));
        assert(l[0] == esc_byte(b1)[0] && r[0] == esc_byte(b2)[0]);
        if b1 == 34 || b1 == 92 {
            assert(l[0] == 92);
            assert(b2 == 34 || b2 == 92) by {
                if b2 != 34 && b2 != 92 {
                    assert(r[0] == b2);
                }
            }
            assert(l[1] == b1 && r[1] == b2);
            assert(b1 == b2);
            lemma_peel(
                esc_byte(b1),
                esc(a1.drop_first()) + seq![34u8] + r1,
                esc_byte(b2),
                esc(a2.drop_first()) + seq![34u8] + r2,
            );
        } else {
            assert(l[0] == b1 && b1 != 92);
            assert(!(b2 == 34 || b2 == 92)) by {
                if b2 == 34 || b2 == 92 {
                    assert(r[0] == 92);
                }
            }
            assert(r[0] == b2);
            assert(b1 == b2);
            lemma_peel(
                esc_byte(b1),
                esc(a1.drop_first()) + seq![34u8] + r1,
                esc_byte(b2),
                esc(a2.drop_first()) + seq![34u8] + r2,
            );
        }
        lemma_esc_split(a1.drop_first(), r1, a2.drop_first(), r2);
        assert(a1 =~= a2) by {
            assert(a1[0] == a2[0]);
            assert(forall|i: int|
                1 <= i < a1.len() ==> a1[i] == a1.drop_first()[i - 1] && a2[i] == a2.drop_first()[
                    i - 1
                ]);
        }
    }
}

/// One store entry written
/// `"identifier":{"added_at":"timestamp","rating":number}`.
pub open spec fn entry_bytes(p: (Seq<u8>, RatingEntry)) -> Seq<u8> {
    seq![34u8] + esc(p.0) + seq![34u8, 58u8, 123u8, 34u8, 97u8, 100u8, 100u8, 101u8, 100u8, 95u8, 97u8, 116u8, 34u8, 58u8, 34u8]
        + ts_bytes(p.1.added_at) + seq![34u8, 44u8, 34u8, 114u8, 97u8, 116u8, 105u8, 110u8, 103u8, 34u8, 58u8]
        + centi_bytes(p.1.rating as int) + seq![125u8]
}

/// The store's entries in held order, separated by commas.
pub open spec fn entries_bytes(s: Seq<(Seq<u8>, RatingEntry)>) -> Seq<u8>
    decreases s.len(),
{
    if s.len() == 0 {
        Seq::empty()
    } else if s.len() == 1 {
        entry_bytes(s[0])
    } else {
        entries_bytes(s.drop_last()) + seq![44u8] + entry_bytes(s.last())
    }
}

/// A whole store: the entries braced as one object.
pub open spec fn store_bytes(s: Seq<(Seq<u8>, RatingEntry)>) -> Seq<u8> {
    seq![123u8] + entries_bytes(s) + seq![125u8]
}

/// Append one entry's encoding.
#[verifier::rlimit(30)]
fn push_entry(out: &mut Vec<u8>, id: &Vec<u8>, e: &RatingEntry)
    requires
        e.wf(),
    ensures
        final(out)@ == old(out)@ + entry_bytes((id@, *e)),
{
    out.push(34);
    let mut k: usize = 0;
    while k < id.len()
        invariant
            k <= id@.len(),
            out@ == old(out)@ + seq![34u8] + esc(id@.subrange(0, k as int)),
        decreases id@.len() - k,
    {
        let b = id[k];
        if b == 34 || b == 92 {
            out.push(92);
            out.push(b);
        } else {
            out.push(b);
        }
        proof {
            assert(id@.subrange(0, k + 1) =~= id@.subrange(0, k as int).push(id@[k as int]));
            lemma_esc_snoc(id@.subrange(0, k as int), id@[k as int]);
            assert(out@ =~= old(out)@ + seq![34u8] + esc(id@.subrange(0, k + 1)));
        }
        k = k + 1;
    }
    proof {
        assert(id@.subrange(0, id@.len() as int) =~= id@);
    }
    out.push(34);
    out.push(58);
    out.push(123);
    out.push(34);
    out.push(97);
    out.push(100);
    out.push(100);
    out.push(101);
    out.push(100);
    out.push(95);
    out.push(97);
    out.push(116);
    out.push(34);
    out.push(58);
    out.push(34);
    push_ts(out, &e.added_at);
    out.push(34);
    out.push(44);
    out.push(34);
    out.push(114);
    out.push(97);
    out.push(116);
    out.push(105);
    out.push(110);
    out.push(103);
    out.push(34);
    out.push(58);
    push_centi(out, e.rating);
    out.push(125);
    proof {
        assert(out@ =~= old(out)@ + entry_bytes((id@, *e)));
    }
}

/// Serialize a whole store: the bytes `save` persists. Identifiers are
/// written with the quote and backslash bytes escaped, so any identifier
/// is storable.
pub fn to_bytes(store: &RatingStore) -> (r: Vec<u8>)
    requires
        store.wf(),
    ensures
        r@ == store_bytes(store.entry_seq()),
{
    let mut out: Vec<u8> = Vec::new();
    out.push(123);
    let n = store.entries.len();
    let mut i: usize = 0;
    while i < n
        invariant
            store.wf(),
            n == store.entries.len(),
            i <= n,
            out@ == seq![123u8] + entries_bytes(store.entry_seq().take(i as int)),
        decreases n - i,
    {
        if i > 0 {
            out.push(44);
        }
        proof {
            assert(store.entry_seq()[i as int].1.wf());
        }
        push_entry(&mut out, &store.entries[i].0, &store.entries[i].1);
        proof {
            let s = store.entry_seq();
            assert(s.take(i + 1).drop_last() =~= s.take(i as int));
            assert(s.take(i + 1).last() == s[i as int]);
            assert(s.take(i + 1)[0] == s[0]);
            assert(out@ =~= seq![123u8] + entries_bytes(s.take(i + 1)));
        }
        i = i + 1;
    }
    out.push(125);
    proof {
        assert(store.entry_seq().take(n as int) =~= store.entry_seq());
        assert(out@ =~= store_bytes(store.entry_seq()));
    }
    out
}

/// The byte at a position, when it is the wanted one.
fn expect(input: &Vec<u8>, pos: usize, b: u8) -> (r: Option<usize>)
    ensures
        r is Some <==> pos < input@.len() && input@[pos as int] == b,
        r is Some ==> r->0 == pos + 1,
{
    if pos < input.len() && input[pos] == b {
        Some(pos + 1)
    } else {
        None
    }
}

/// A digit's value, if the byte is a digit.
fn digit_at(input: &Vec<u8>, pos: usize) -> (r: Option<u32>)
    ensures
        r is Some <==> pos < input@.len() && 48 <= input@[pos as int] <= 57,
        r is Some ==> r->0 == input@[pos as int] - 48 && r->0 < 10,
{
    if pos < input.len() && 48 <= input[pos] && input[pos] <= 57 {
        Some((input[pos] - 48) as u32)
    } else {
        None
    }
}

/// Two digits, zero-padded, and the position just past them.
fn parse_fixed2(input: &Vec<u8>, pos: usize) -> (r: Option<(u32, usize)>)
    ensures
        r is Some ==> (r->0).1 == pos + 2 && pos + 2 <= input@.len() && (r->0).0 < 100,
{
    let n = input.len();
    let d1 = match digit_at(input, pos) {
        Some(d) => d,
        None => {
            return None;
        },
    };
    let d2 = match digit_at(input, pos + 1) {
        Some(d) => d,
        None => {
            return None;
        },
    };
    Some((d1 * 10 + d2, pos + 2))
}

/// Four digits, zero-padded, and the position just past them.
fn parse_fixed4(input: &Vec<u8>, pos: usize) -> (r: Option<(u32, usize)>)
    ensures
        r is Some ==> (r->0).1 == pos + 4 && pos + 4 <= input@.len() && (r->0).0 < 10000,
{
    let hi = match parse_fixed2(input, pos) {
        Some(p) => p,
        None => {
            return None;
        },
    };
    let lo = match parse_fixed2(input, hi.1) {
        Some(p) => p,
        None => {
            return None;
        },
    };
    Some((hi.0 * 100 + lo.0, lo.1))
}

/// A run of one or more digits, read as a number, and the position just
/// past it; too large a run is refused.
fn parse_number(input: &Vec<u8>, pos: usize) -> (r: Option<(u32, usize)>)
    ensures
        r is Some ==> pos < (r->0).1 <= input@.len(),
{
    let n = input.len();
    let mut value: u32 = match digit_at(input, pos) {
        Some(d) => d,
        None => {
            return None;
        },
    };
    let mut at: usize = pos + 1;
    loop
        invariant
            n == input@.len(),
            pos < at <= n,
        ensures
            pos < at <= n,
        decreases n - at,
    {
        match digit_at(input, at) {
            Some(d) => {
                if value > (u32::MAX - d) / 10 {
                    return None;
                }
                value = value * 10 + d;
                at = at + 1;
            },
            None => {
                break;
            },
        }
    }
    Some((value, at))
}

/// A calendar text `YYYY-MM-DDThh:mm:ssZ` with its fields in range, and
/// the position just past it.
fn parse_ts(input: &Vec<u8>, pos: usize) -> (r: Option<(Timestamp, usize)>)
    ensures
        r is Some ==> pos < (r->0).1 <= input@.len() && (r->0).0.wf(),
{
    let year = match parse_fixed4(input, pos) {
        Some(p) => p,
        None => {
            return None;
        },
    };
    let at1 = match expect(input, year.1, 45) {
        Some(a) => a,
        None => {
            return None;
        },
    };
    let month = match parse_fixed2(input, at1) {
        Some(p) => p,
        None => {
            return None;
        },
    };
    let at2 = match expect(input, month.1, 45) {
        Some(a) => a,
        None => {
            return None;
        },
    };
    let day = match parse_fixed2(input, at2) {
        Some(p) => p,
        None => {
            return None;
        },
    };
    let at3 = match expect(input, day.1, 84) {
        Some(a) => a,
        None => {
            return None;
        },
    };
    let hour = match parse_fixed2(input, at3) {
        Some(p) => p,
        None => {
            return None;
        },
    };
    let at4 = match expect(input, hour.1, 58) {
        Some(a) => a,
        None => {
            return None;
        },
    };
    let minute = match parse_fixed2(input, at4) {
        Some(p) => p,
        None => {
            return None;
        },
    };
    let at5 = match expect(input, minute.1, 58) {
        Some(a) => a,
        None => {
            return None;
        },
    };
    let second = match parse_fixed2(input, at5) {
        Some(p) => p,
        None => {
            return None;
        },
    };
    let end = match expect(input, second.1, 90) {
        Some(a) => a,
        None => {
            return None;
        },
    };
    if month.0 < 1 || month.0 > 12 || day.0 < 1 || day.0 > 31 || hour.0 > 23 || minute.0 > 59
        || second.0 > 59 {
        return None;
    }
    Some((
        Timestamp {
            year: year.0 as u16,
            month: month.0 as u8,
            day: day.0 as u8,
            hour: hour.0 as u8,
            minute: minute.0 as u8,
            second: second.0 as u8,
        },
        end,
    ))
}

/// The identifier bytes up to the next bare closing quote, escapes
/// unfolded, and the position just past that quote.
fn parse_id(input: &Vec<u8>, pos: usize) -> (r: Option<(Vec<u8>, usize)>)
    requires
        pos <= input@.len(),
    ensures
        r is Some ==> pos < (r->0).1 <= input@.len(),
{
    let n = input.len();
    let mut id: Vec<u8> = Vec::new();
    let mut at: usize = pos;
    loop
        invariant
            n == input@.len(),
            pos <= at <= n,
        ensures
            pos <= at < n,
        decreases n - at,
    {
        if at >= n {
            return None;
        }
        let b = input[at];
        if b == 34 {
            break;
        }
        if b == 92 {
            if at + 1 >= n {
                return None;
            }
            id.push(input[at + 1]);
            at = at + 2;
        } else {
            id.push(b);
            at = at + 1;
        }
    }
    Some((id, at + 1))
}

/// A number in hundredths written `digits.dd`, and the position just past
/// it; a value too large for the store is refused.
fn parse_centi(input: &Vec<u8>, pos: usize) -> (r: Option<(u32, usize)>)
    ensures
        r is Some ==> pos < (r->0).1 <= input@.len(),
{
    let whole = match parse_number(input, pos) {
        Some(p) => p,
        None => {
            return None;
        },
    };
    let dot = match expect(input, whole.1, 46) {
        Some(a) => a,
        None => {
            return None;
        },
    };
    let frac = match parse_fixed2(input, dot) {
        Some(p) => p,
        None => {
            return None;
        },
    };
    if whole.0 > u32::MAX / 100 {
        return None;
    }
    let scaled = whole.0 * 100;
    if frac.0 > u32::MAX - scaled {
        return None;
    }
    Some((scaled + frac.0, frac.1))
}

/// The literal key `"added_at":"` between an entry's opening brace and its
/// timestamp, and the position just past it.
fn expect_added_at_key(input: &Vec<u8>, pos: usize) -> (r: Option<usize>)
    ensures
        r is Some ==> pos < r->0 <= input@.len(),
{
    let key: [u8; 12] = [34, 97, 100, 100, 101, 100, 95, 97, 116, 34, 58, 34];
    let mut at: usize = pos;
    let mut k: usize = 0;
    while k < 12
        invariant
            k <= 12,
            at == pos + k,
            k > 0 ==> at <= input@.len(),
        decreases 12 - k,
    {
        at = match expect(input, at, key[k]) {
            Some(a) => a,
            None => {
                return None;
            },
        };
        k = k + 1;
    }
    Some(at)
}

/// The literal text `","rating":` between an entry's timestamp and its
/// rating, and the position just past it.
fn expect_rating_key(input: &Vec<u8>, pos: usize) -> (r: Option<usize>)
    ensures
        r is Some ==> pos < r->0 <= input@.len(),
{
    let key: [u8; 11] = [34, 44, 34, 114, 97, 116, 105, 110, 103, 34, 58];
    let mut at: usize = pos;
    let mut k: usize = 0;
    while k < 11
        invariant
            k <= 11,
            at == pos + k,
            k > 0 ==> at <= input@.len(),
        decreases 11 - k,
    {
        at = match expect(input, at, key[k]) {
            Some(a) => a,
            None => {
                return None;
            },
        };
        k = k + 1;
    }
    Some(at)
}

/// Read the store structure out of the bytes: well-formed on success, with
/// duplicate identifiers refused. What the bytes then denote is pinned by
/// the re-serialisation check in `from_bytes`.
fn raw_parse(input: &Vec<u8>) -> (r: Option<RatingStore>)
    ensures
        r is Some ==> r->0.wf() && encodable(r->0.entry_seq()),
        input@ == seq![123u8, 125u8] ==> r is Some && (r->0).entry_seq().len() == 0,
{
    let mut store = RatingStore::new();
    let mut at: usize = match expect(input, 0, 123) {
        Some(a) => a,
        None => {
            return None;
        },
    };
    if at < input.len() && input[at] == 125 {
        if at + 1 == input.len() {
            return Some(store);
        }
        return None;
    }
    proof {
        assert(input@ != seq![123u8, 125u8]) by {
            if input@ == seq![123u8, 125u8] {
                assert(at == 1 && input@[1] == 125);
            }
        }
    }
    loop
        invariant
            store.wf(),
            encodable(store.entry_seq()),
            0 < at <= input@.len(),
            input@ != seq![123u8, 125u8],
        decreases input@.len() - at,
    {
        at = match expect(input, at, 34) {
            Some(a) => a,
            None => {
                return None;
            },
        };
        let (id, after_id) = match parse_id(input, at) {
            Some(p) => p,
            None => {
                return None;
            },
        };
        at = after_id;
        at = match expect(input, at, 58) {
            Some(a) => a,
            None => {
                return None;
            },
        };
        at = match expect(input, at, 123) {
            Some(a) => a,
            None => {
                return None;
            },
        };
        at = match expect_added_at_key(input, at) {
            Some(a) => a,
            None => {
                return None;
            },
        };
        let (ts, after_ts) = match parse_ts(input, at) {
            Some(p) => p,
            None => {
                return None;
            },
        };
        at = after_ts;
        at = match expect_rating_key(input, at) {
            Some(a) => a,
            None => {
                return None;
            },
        };
        let (rating, after_rating) = match parse_centi(input, at) {
            Some(p) => p,
            None => {
                return None;
            },
        };
        at = after_rating;
        at = match expect(input, at, 125) {
            Some(a) => a,
            None => {
                return None;
            },
        };
        let ghost pre_seq = store.entry_seq();
        let ghost idv = id@;
        let entry = RatingEntry { added_at: ts, rating };
        if !store.insert_new(id, entry) {
            return None;
        }
        proof {
            assert(encodable(store.entry_seq())) by {
                assert(store.entry_seq() == pre_seq.push((idv, entry)));
                assert(forall|i: int|
                    0 <= i < pre_seq.len() ==> store.entry_seq()[i] == pre_seq[i]);
                assert(store.entry_seq().last() == (idv, entry));
            }
        }
        if at < input.len() && input[at] == 44 {
            at = at + 1;
        } else if at < input.len() && input[at] == 125 {
            if at + 1 == input.len() {
                return Some(store);
            }
            return None;
        } else {
            return None;
        }
    }
}

/// Deserialize a store: only the canonical serialisation that `to_bytes`
/// writes is accepted — looser texts for the same mapping, such as ratings
/// without two fraction digits or instants with zone offsets, are refused
/// as a parse failure. Any success re-serialises to the given bytes
/// unchanged, so by `lemma_store_encoding_injective` a load of saved bytes
/// can only yield the store that was saved.
pub fn from_bytes(input: &Vec<u8>) -> (r: Result<RatingStore, StoreError>)
    ensures
        match r {
            Ok(s) => {
                &&& s.wf()
                &&& encodable(s.entry_seq())
                &&& store_bytes(s.entry_seq()) == input@
            },
            Err(e) => e == StoreError::Parse,
        },
        input@ == store_bytes(Seq::<(Seq<u8>, RatingEntry)>::empty()) ==> r is Ok,
{
    proof {
        assert(store_bytes(Seq::<(Seq<u8>, RatingEntry)>::empty()) =~= seq![123u8, 125u8]);
    }
    match raw_parse(input) {
        Some(store) => {
            let again = to_bytes(&store);
            if crate::store::bytes_eq(&again, input) {
                Ok(store)
            } else {
                proof {
                    if input@ == seq![123u8, 125u8] {
                        assert(store.entry_seq() =~= Seq::<(Seq<u8>, RatingEntry)>::empty());
                        assert(again@ == input@);
                    }
                }
                Err(StoreError::Parse)
            }
        },
        None => Err(StoreError::Parse),
    }
}

/// Load a store from a file's contents, absent when the file is: an absent
/// file is reported as not found, malformed bytes as a parse failure.
pub fn load_store(contents: Option<&Vec<u8>>) -> (r: Result<RatingStore, StoreError>)
    ensures
        match r {
            Ok(s) => contents is Some && s.wf() && encodable(s.entry_seq()) && store_bytes(
                s.entry_seq(),
            ) == contents->0@,
            Err(e) => (contents is None && e == StoreError::NotFound) || (contents is Some && e
                == StoreError::Parse),
        },
        contents is Some && contents->0@ == store_bytes(Seq::<(Seq<u8>, RatingEntry)>::empty())
            ==> r is Ok,
{
    match contents {
        Some(bytes) => from_bytes(bytes),
        None => Err(StoreError::NotFound),
    }
}

/// Load a store from a file's contents, starting from an empty store when
/// the file is absent; malformed bytes still fail.
pub fn load_or_create_store(contents: Option<&Vec<u8>>) -> (r: Result<RatingStore, StoreError>)
    ensures
        match r {
            Ok(s) => {
                &&& s.wf()
                &&& match contents {
                    Some(bytes) => encodable(s.entry_seq()) && store_bytes(s.entry_seq())
                        == bytes@,
                    None => s.entry_seq().len() == 0,
                }
            },
            Err(e) => contents is Some && e == StoreError::Parse,
        },
        contents is Some && contents->0@ == store_bytes(Seq::<(Seq<u8>, RatingEntry)>::empty())
            ==> r is Ok,
{
    match contents {
        Some(bytes) => from_bytes(bytes),
        None => Ok(RatingStore::new()),
    }
}

/// Two concatenations with equally long heads are equal piecewise.
proof fn lemma_peel(a1: Seq<u8>, b1: Seq<u8>, a2: Seq<u8>, b2: Seq<u8>)
    requires
        a1 + b1 == a2 + b2,
        a1.len() == a2.len(),
    ensures
        a1 == a2,
        b1 == b2,
{
    let l = a1 + b1;
    let r = a2 + b2;
    assert(a1 =~= l.subrange(0, a1.len() as int));
    assert(a2 =~= r.subrange(0, a2.len() as int));
    assert(b1 =~= l.subrange(a1.len() as int, l.len() as int));
    assert(b2 =~= r.subrange(a2.len() as int, r.len() as int));
}

/// Two concatenations around the same separator byte, with heads free of
/// that byte, are equal piecewise: the first separator position pins the
/// split.
proof fn lemma_split_at_sentinel(a1: Seq<u8>, b1: Seq<u8>, a2: Seq<u8>, b2: Seq<u8>, sep: u8)
    requires
        a1 + seq![sep] + b1 == a2 + seq![sep] + b2,
        forall|i: int| 0 <= i < a1.len() ==> a1[i] != sep,
        forall|i: int| 0 <= i < a2.len() ==> a2[i] != sep,
    ensures
        a1 == a2,
        b1 == b2,
{
    let l = a1 + seq![sep] + b1;
    let r = a2 + seq![sep] + b2;
    if a1.len() < a2.len() {
        assert(l[a1.len() as int] == sep);
        assert(r[a1.len() as int] == a2[a1.len() as int]);
        assert(false);
    }
    if a2.len() < a1.len() {
        assert(r[a2.len() as int] == sep);
        assert(l[a2.len() as int] == a1[a2.len() as int]);
        assert(false);
    }
    lemma_peel(a1 + seq![sep], b1, a2 + seq![sep], b2);
    lemma_peel(a1, seq![sep], a2, seq![sep]);
}

/// Every byte of a decimal run is a digit, and the run is never empty.
proof fn lemma_dec_digits_are_digits(n: int)
    ensures
        dec_digits(n).len() >= 1,
        forall|i: int| 0 <= i < dec_digits(n).len() ==> 48 <= #[trigger] dec_digits(n)[i] <= 57,
    decreases n,
{
    if n >= 10 {
        lemma_dec_digits_are_digits(n / 10);
        assert(forall|i: int|
            0 <= i < dec_digits(n / 10).len() ==> dec_digits(n)[i] == dec_digits(n / 10)[i]);
    }
}

/// Equal decimal runs name equal numbers.
proof fn lemma_dec_digits_injective(x: int, y: int)
    requires
        x >= 0,
        y >= 0,
        dec_digits(x) == dec_digits(y),
    ensures
        x == y,
    decreases x,
{
    lemma_dec_digits_are_digits(x / 10);
    lemma_dec_digits_are_digits(y / 10);
    if x < 10 && y < 10 {
        assert(dec_digits(x)[0] == (48 + x) as u8);
        assert(dec_digits(y)[0] == (48 + y) as u8);
    } else if x < 10 && y >= 10 {
        assert(dec_digits(x).len() == 1);
        assert(dec_digits(y).len() == dec_digits(y / 10).len() + 1);
        assert(false);
    } else if x >= 10 && y < 10 {
        assert(dec_digits(y).len() == 1);
        assert(dec_digits(x).len() == dec_digits(x / 10).len() + 1);
        assert(false);
    } else {
        assert(dec_digits(x).last() == (48 + x % 10) as u8);
        assert(dec_digits(y).last() == (48 + y % 10) as u8);
        assert(x % 10 == y % 10);
        assert(dec_digits(x).drop_last() =~= dec_digits(x / 10));
        assert(dec_digits(y).drop_last() =~= dec_digits(y / 10));
        lemma_dec_digits_injective(x / 10, y / 10);
    }
}

/// Equal zero-padded pairs name equal numbers below one hundred.
proof fn lemma_dec2_injective(x: int, y: int)
    requires
        0 <= x < 100,
        0 <= y < 100,
        dec2(x) == dec2(y),
    ensures
        x == y,
{
    assert(dec2(x)[0] == (48 + x / 10) as u8 && dec2(x)[1] == (48 + x % 10) as u8);
    assert(dec2(y)[0] == (48 + y / 10) as u8 && dec2(y)[1] == (48 + y % 10) as u8);
}

/// Equal zero-padded quadruples name equal numbers below ten thousand.
proof fn lemma_dec4_injective(x: int, y: int)
    requires
        0 <= x < 10000,
        0 <= y < 10000,
        dec4(x) == dec4(y),
    ensures
        x == y,
{
    lemma_peel(dec2(x / 100), dec2(x % 100), dec2(y / 100), dec2(y % 100));
    lemma_dec2_injective(x / 100, y / 100);
    lemma_dec2_injective(x % 100, y % 100);
}

/// Equal calendar texts name equal timestamps.
proof fn lemma_ts_bytes_injective(t1: Timestamp, t2: Timestamp)
    requires
        t1.wf(),
        t2.wf(),
        ts_bytes(t1) == ts_bytes(t2),
    ensures
        t1 == t2,
{
    let y1 = dec4(t1.year as int);
    let y2 = dec4(t2.year as int);
    let rest1 = seq![45u8] + dec2(t1.month as int) + seq![45u8] + dec2(t1.day as int)
        + seq![84u8] + dec2(t1.hour as int) + seq![58u8] + dec2(t1.minute as int) + seq![58u8]
        + dec2(t1.second as int) + seq![90u8];
    let rest2 = seq![45u8] + dec2(t2.month as int) + seq![45u8] + dec2(t2.day as int)
        + seq![84u8] + dec2(t2.hour as int) + seq![58u8] + dec2(t2.minute as int) + seq![58u8]
        + dec2(t2.second as int) + seq![90u8];
    assert(ts_bytes(t1) =~= y1 + rest1);
    assert(ts_bytes(t2) =~= y2 + rest2);
    lemma_peel(y1, rest1, y2, rest2);
    lemma_dec4_injective(t1.year as int, t2.year as int);
    assert(rest1[1] == dec2(t1.month as int)[0] && rest1[2] == dec2(t1.month as int)[1]);
    assert(rest2[1] == dec2(t2.month as int)[0] && rest2[2] == dec2(t2.month as int)[1]);
    assert(dec2(t1.month as int) =~= dec2(t2.month as int));
    lemma_dec2_injective(t1.month as int, t2.month as int);
    assert(rest1[4] == dec2(t1.day as int)[0] && rest1[5] == dec2(t1.day as int)[1]);
    assert(rest2[4] == dec2(t2.day as int)[0] && rest2[5] == dec2(t2.day as int)[1]);
    assert(dec2(t1.day as int) =~= dec2(t2.day as int));
    lemma_dec2_injective(t1.day as int, t2.day as int);
    assert(rest1[7] == dec2(t1.hour as int)[0] && rest1[8] == dec2(t1.hour as int)[1]);
    assert(rest2[7] == dec2(t2.hour as int)[0] && rest2[8] == dec2(t2.hour as int)[1]);
    assert(dec2(t1.hour as int) =~= dec2(t2.hour as int));
    lemma_dec2_injective(t1.hour as int, t2.hour as int);
    assert(rest1[10] == dec2(t1.minute as int)[0] && rest1[11] == dec2(t1.minute as int)[1]);
    assert(rest2[10] == dec2(t2.minute as int)[0] && rest2[11] == dec2(t2.minute as int)[1]);
    assert(dec2(t1.minute as int) =~= dec2(t2.minute as int));
    lemma_dec2_injective(t1.minute as int, t2.minute as int);
    assert(rest1[13] == dec2(t1.second as int)[0] && rest1[14] == dec2(t1.second as int)[1]);
    assert(rest2[13] == dec2(t2.second as int)[0] && rest2[14] == dec2(t2.second as int)[1]);
    assert(dec2(t1.second as int) =~= dec2(t2.second as int));
    lemma_dec2_injective(t1.second as int, t2.second as int);
}

/// Every entry's instant in range: what the encoding, which escapes
/// identifier bytes as needed, can write out and read back unambiguously.
pub open spec fn encodable(s: Seq<(Seq<u8>, RatingEntry)>) -> bool {
    forall|i: int| 0 <= i < s.len() ==> (#[trigger] s[i]).1.wf()
}

/// An entry's encoding, followed by anything, determines the entry and
/// the remainder.
#[verifier::rlimit(60)]
proof fn lemma_entry_prefix_injective(
    p1: (Seq<u8>, RatingEntry),
    r1: Seq<u8>,
    p2: (Seq<u8>, RatingEntry),
    r2: Seq<u8>,
)
    requires
        entry_bytes(p1) + r1 == entry_bytes(p2) + r2,
        p1.1.wf(),
        p2.1.wf(),
    ensures
        p1 == p2,
        r1 == r2,
{
    let k1 = seq![58u8, 123u8, 34u8, 97u8, 100u8, 100u8, 101u8, 100u8, 95u8, 97u8, 116u8, 34u8, 58u8, 34u8];
    let k2 = seq![34u8, 44u8, 34u8, 114u8, 97u8, 116u8, 105u8, 110u8, 103u8, 34u8, 58u8];
    let u1 = k1 + ts_bytes(p1.1.added_at) + k2 + centi_bytes(p1.1.rating as int) + seq![125u8]
        + r1;
    let u2 = k1 + ts_bytes(p2.1.added_at) + k2 + centi_bytes(p2.1.rating as int) + seq![125u8]
        + r2;
    assert(entry_bytes(p1) + r1 =~= seq![34u8] + (esc(p1.0) + seq![34u8] + u1));
    assert(entry_bytes(p2) + r2 =~= seq![34u8] + (esc(p2.0) + seq![34u8] + u2));
    lemma_peel(seq![34u8], esc(p1.0) + seq![34u8] + u1, seq![34u8], esc(p2.0) + seq![34u8] + u2);
    lemma_esc_split(p1.0, u1, p2.0, u2);
    let v1 = ts_bytes(p1.1.added_at) + (k2 + centi_bytes(p1.1.rating as int) + seq![125u8] + r1);
    let v2 = ts_bytes(p2.1.added_at) + (k2 + centi_bytes(p2.1.rating as int) + seq![125u8] + r2);
    assert(u1 =~= k1 + v1);
    assert(u2 =~= k1 + v2);
    lemma_peel(k1, v1, k1, v2);
    assert(ts_bytes(p1.1.added_at).len() == 20);
    assert(ts_bytes(p2.1.added_at).len() == 20);
    lemma_peel(
        ts_bytes(p1.1.added_at),
        k2 + centi_bytes(p1.1.rating as int) + seq![125u8] + r1,
        ts_bytes(p2.1.added_at),
        k2 + centi_bytes(p2.1.rating as int) + seq![125u8] + r2,
    );
    lemma_ts_bytes_injective(p1.1.added_at, p2.1.added_at);
    let w1 = dec_digits(p1.1.rating as int / 100) + seq![46u8] + (dec2(p1.1.rating as int % 100)
        + seq![125u8] + r1);
    let w2 = dec_digits(p2.1.rating as int / 100) + seq![46u8] + (dec2(p2.1.rating as int % 100)
        + seq![125u8] + r2);
    assert(k2 + centi_bytes(p1.1.rating as int) + seq![125u8] + r1 =~= k2 + w1);
    assert(k2 + centi_bytes(p2.1.rating as int) + seq![125u8] + r2 =~= k2 + w2);
    lemma_peel(k2, w1, k2, w2);
    lemma_dec_digits_are_digits(p1.1.rating as int / 100);
    lemma_dec_digits_are_digits(p2.1.rating as int / 100);
    lemma_split_at_sentinel(
        dec_digits(p1.1.rating as int / 100),
        dec2(p1.1.rating as int % 100) + seq![125u8] + r1,
        dec_digits(p2.1.rating as int / 100),
        dec2(p2.1.rating as int % 100) + seq![125u8] + r2,
        46,
    );
    lemma_dec_digits_injective(p1.1.rating as int / 100, p2.1.rating as int / 100);
    assert(dec2(p1.1.rating as int % 100) + seq![125u8] + r1 =~= dec2(p1.1.rating as int % 100)
        + (seq![125u8] + r1));
    assert(dec2(p2.1.rating as int % 100) + seq![125u8] + r2 =~= dec2(p2.1.rating as int % 100)
        + (seq![125u8] + r2));
    lemma_peel(
        dec2(p1.1.rating as int % 100),
        seq![125u8] + r1,
        dec2(p2.1.rating as int % 100),
        seq![125u8] + r2,
    );
    lemma_dec2_injective(p1.1.rating as int % 100, p2.1.rating as int % 100);
    lemma_peel(seq![125u8], r1, seq![125u8], r2);
    assert(p1.1.rating == p2.1.rating) by {
        assert(p1.1.rating as int == 100 * (p1.1.rating as int / 100) + p1.1.rating as int % 100);
        assert(p2.1.rating as int == 100 * (p2.1.rating as int / 100) + p2.1.rating as int % 100);
    }
}

/// The entries after the first, each preceded by its comma.
spec fn tail_bytes(s: Seq<(Seq<u8>, RatingEntry)>) -> Seq<u8>
    decreases s.len(),
{
    if s.len() == 0 {
        Seq::empty()
    } else {
        seq![44u8] + entry_bytes(s[0]) + tail_bytes(s.drop_first())
    }
}

/// Appending one entry extends the comma-joined tail at its end.
#[verifier::rlimit(50)]
proof fn lemma_tail_bytes_snoc(s: Seq<(Seq<u8>, RatingEntry)>, p: (Seq<u8>, RatingEntry))
    ensures
        tail_bytes(s.push(p)) == tail_bytes(s) + seq![44u8] + entry_bytes(p),
    decreases s.len(),
{
    if s.len() == 0 {
        assert(s.push(p)[0] == p);
        assert(s.push(p).drop_first() =~= Seq::<(Seq<u8>, RatingEntry)>::empty());
        assert(tail_bytes(s.push(p)) == seq![44u8] + entry_bytes(p) + tail_bytes(
            Seq::<(Seq<u8>, RatingEntry)>::empty(),
        ));
        assert(tail_bytes(s.push(p)) =~= tail_bytes(s) + seq![44u8] + entry_bytes(p));
    } else {
        assert(s.push(p)[0] == s[0]);
        assert(s.push(p).drop_first() =~= s.drop_first().push(p));
        assert(tail_bytes(s.push(p)) == seq![44u8] + entry_bytes(s[0]) + tail_bytes(
            s.drop_first().push(p),
        ));
        lemma_tail_bytes_snoc(s.drop_first(), p);
        assert(tail_bytes(s.push(p)) == seq![44u8] + entry_bytes(s[0]) + (tail_bytes(
            s.drop_first(),
        ) + seq![44u8] + entry_bytes(p)));
        assert(tail_bytes(s) == seq![44u8] + entry_bytes(s[0]) + tail_bytes(s.drop_first()));
        assert(tail_bytes(s.push(p)) =~= tail_bytes(s) + seq![44u8] + entry_bytes(p));
    }
}

/// The comma-joined encoding, read from the front: the first entry, then
/// the comma-led rest.
proof fn lemma_entries_bytes_front(s: Seq<(Seq<u8>, RatingEntry)>)
    requires
        s.len() >= 1,
    ensures
        entries_bytes(s) == entry_bytes(s[0]) + tail_bytes(s.drop_first()),
    decreases s.len(),
{
    if s.len() == 1 {
        assert(s.drop_first() =~= Seq::<(Seq<u8>, RatingEntry)>::empty());
        assert(entries_bytes(s) =~= entry_bytes(s[0]) + tail_bytes(s.drop_first()));
    } else {
        lemma_entries_bytes_front(s.drop_last());
        assert(s.drop_last()[0] == s[0]);
        assert(s.drop_first() =~= s.drop_last().drop_first().push(s.last()));
        lemma_tail_bytes_snoc(s.drop_last().drop_first(), s.last());
        assert(entries_bytes(s) =~= entry_bytes(s[0]) + tail_bytes(s.drop_first()));
    }
}

/// Equal comma-led tails hold equal entry sequences.
#[verifier::rlimit(60)]
proof fn lemma_tail_bytes_injective(s1: Seq<(Seq<u8>, RatingEntry)>, s2: Seq<(Seq<u8>, RatingEntry)>)
    requires
        encodable(s1),
        encodable(s2),
        tail_bytes(s1) == tail_bytes(s2),
    ensures
        s1 == s2,
    decreases s1.len(),
{
    if s1.len() == 0 && s2.len() == 0 {
        assert(s1 =~= s2);
    } else if s1.len() == 0 || s2.len() == 0 {
        assert(false);
    } else {
        let u1 = entry_bytes(s1[0]) + tail_bytes(s1.drop_first());
        let u2 = entry_bytes(s2[0]) + tail_bytes(s2.drop_first());
        assert(tail_bytes(s1) =~= seq![44u8] + u1);
        assert(tail_bytes(s2) =~= seq![44u8] + u2);
        lemma_peel(seq![44u8], u1, seq![44u8], u2);
        lemma_entry_prefix_injective(
            s1[0],
            tail_bytes(s1.drop_first()),
            s2[0],
            tail_bytes(s2.drop_first()),
        );
        assert(encodable(s1.drop_first()) && encodable(s2.drop_first())) by {
            assert(forall|i: int|
                0 <= i < s1.drop_first().len() ==> s1.drop_first()[i] == s1[i + 1]);
            assert(forall|i: int|
                0 <= i < s2.drop_first().len() ==> s2.drop_first()[i] == s2[i + 1]);
        }
        lemma_tail_bytes_injective(s1.drop_first(), s2.drop_first());
        assert(forall|i: int|
            1 <= i < s1.len() ==> s1[i] == s1.drop_first()[i - 1] && s2[i] == s2.drop_first()[i
                - 1]);
        assert(s1 =~= s2);
    }
}

/// The persisted encoding is injective: two stores with in-range instants
/// that serialise to the same bytes hold the same entries in the same
/// order, whatever bytes their identifiers hold. Together with the
/// contract of deserialisation, that every success re-serialises to the
/// bytes read, this pins a successful load of a saved store to the saved
/// store itself.
#[verifier::rlimit(60)]
pub proof fn lemma_store_encoding_injective(
    s1: Seq<(Seq<u8>, RatingEntry)>,
    s2: Seq<(Seq<u8>, RatingEntry)>,
)
    requires
        encodable(s1),
        encodable(s2),
        store_bytes(s1) == store_bytes(s2),
    ensures
        s1 == s2,
{
    assert(store_bytes(s1) =~= seq![123u8] + (entries_bytes(s1) + seq![125u8]));
    assert(store_bytes(s2) =~= seq![123u8] + (entries_bytes(s2) + seq![125u8]));
    lemma_peel(
        seq![123u8],
        entries_bytes(s1) + seq![125u8],
        seq![123u8],
        entries_bytes(s2) + seq![125u8],
    );
    assert(entries_bytes(s1).len() == entries_bytes(s2).len());
    lemma_peel(entries_bytes(s1), seq![125u8], entries_bytes(s2), seq![125u8]);
    if s1.len() == 0 && s2.len() == 0 {
        assert(s1 =~= s2);
    } else if s1.len() == 0 || s2.len() == 0 {
        if s1.len() > 0 {
            lemma_entries_bytes_front(s1);
            assert(entries_bytes(s1).len() > 0);
        }
        if s2.len() > 0 {
            lemma_entries_bytes_front(s2);
            assert(entries_bytes(s2).len() > 0);
        }
        assert(false);
    } else {
        lemma_entries_bytes_front(s1);
        lemma_entries_bytes_front(s2);
        lemma_entry_prefix_injective(
            s1[0],
            tail_bytes(s1.drop_first()),
            s2[0],
            tail_bytes(s2.drop_first()),
        );
        assert(encodable(s1.drop_first()) && encodable(s2.drop_first())) by {
            assert(forall|i: int|
                0 <= i < s1.drop_first().len() ==> s1.drop_first()[i] == s1[i + 1]);
            assert(forall|i: int|
                0 <= i < s2.drop_first().len() ==> s2.drop_first()[i] == s2[i + 1]);
        }
        lemma_tail_bytes_injective(s1.drop_first(), s2.drop_first());
        assert(forall|i: int|
            1 <= i < s1.len() ==> s1[i] == s1.drop_first()[i - 1] && s2[i] == s2.drop_first()[i
                - 1]);
        assert(s1 =~= s2);
    }
}

/// The readable form of a rating in hundredths: the four conventional
/// scale points get their names, anything else its shortest numeric text,
/// with trailing fraction zeroes and a bare point left off.
pub open spec fn label_bytes(r: int) -> Seq<u8> {
    if r == 100 {
        seq![103u8, 114u8, 101u8, 97u8, 116u8]
    } else if r == 200 {
        seq![103u8, 111u8, 111u8, 100u8]
    } else if r == 300 {
        seq![111u8, 107u8]
    } else if r == 400 {
        seq![98u8, 97u8, 100u8]
    } else if r % 100 == 0 {
        dec_digits(r / 100)
    } else if r % 10 == 0 {
        dec_digits(r / 100) + seq![46u8, (48 + (r % 100) / 10) as u8]
    } else {
        centi_bytes(r)
    }
}

/// Render a rating readably: `great`, `good`, `ok` and `bad` for the four
/// conventional scale points, the shortest numeric text otherwise.
pub fn rating_label(r: u32) -> (out: Vec<u8>)
    ensures
        out@ == label_bytes(r as int),
{
    let mut out: Vec<u8> = Vec::new();
    if r == 100 {
        out.push(103);
        out.push(114);
        out.push(101);
        out.push(97);
        out.push(116);
        proof {
            assert(out@ =~= label_bytes(r as int));
        }
    } else if r == 200 {
        out.push(103);
        out.push(111);
        out.push(111);
        out.push(100);
        proof {
            assert(out@ =~= label_bytes(r as int));
        }
    } else if r == 300 {
        out.push(111);
        out.push(107);
        proof {
            assert(out@ =~= label_bytes(r as int));
        }
    } else if r == 400 {
        out.push(98);
        out.push(97);
        out.push(100);
        proof {
            assert(out@ =~= label_bytes(r as int));
        }
    } else if r % 100 == 0 {
        push_dec(&mut out, r / 100);
        proof {
            assert(out@ =~= label_bytes(r as int));
        }
    } else if r % 10 == 0 {
        push_dec(&mut out, r / 100);
        out.push(46);
        out.push(48 + ((r % 100) / 10) as u8);
        proof {
            assert(out@ =~= label_bytes(r as int));
        }
    } else {
        push_centi(&mut out, r);
        proof {
            assert(out@ =~= label_bytes(r as int));
        }
    }
    out
}

/// The rating named by a scale word or digit: `great` or `1` is 1.00,
/// `good` or `2` is 2.00, `ok` or `3` is 3.00, `bad` or `4` is 4.00;
/// anything else names no scale point.
pub open spec fn name_rating(s: Seq<u8>) -> Option<u32> {
    if s == seq![103u8, 114u8, 101u8, 97u8, 116u8] || s == seq![49u8] {
        Some(100u32)
    } else if s == seq![103u8, 111u8, 111u8, 100u8] || s == seq![50u8] {
        Some(200u32)
    } else if s == seq![111u8, 107u8] || s == seq![51u8] {
        Some(300u32)
    } else if s == seq![98u8, 97u8, 100u8] || s == seq![52u8] {
        Some(400u32)
    } else {
        None
    }
}

/// Read a rating from its scale name or digit, in hundredths.
pub fn rating_from_name(name: &Vec<u8>) -> (r: Option<u32>)
    ensures
        r == name_rating(name@),
{
    let n = name.len();
    if n == 1 {
        let c = name[0];
        if c == 49 {
            proof {
                assert(name@ =~= seq![49u8]);
            }
            return Some(100);
        }
        if c == 50 {
            proof {
                assert(name@ =~= seq![50u8]);
            }
            return Some(200);
        }
        if c == 51 {
            proof {
                assert(name@ =~= seq![51u8]);
            }
            return Some(300);
        }
        if c == 52 {
            proof {
                assert(name@ =~= seq![52u8]);
            }
            return Some(400);
        }
        return None;
    }
    if n == 5 && name[0] == 103 && name[1] == 114 && name[2] == 101 && name[3] == 97
        && name[4] == 116 {
        proof {
            assert(name@ =~= seq![103u8, 114u8, 101u8, 97u8, 116u8]);
        }
        return Some(100);
    }
    if n == 4 && name[0] == 103 && name[1] == 111 && name[2] == 111 && name[3] == 100 {
        proof {
            assert(name@ =~= seq![103u8, 111u8, 111u8, 100u8]);
        }
        return Some(200);
    }
    if n == 2 && name[0] == 111 && name[1] == 107 {
        proof {
            assert(name@ =~= seq![111u8, 107u8]);
        }
        return Some(300);
    }
    if n == 3 && name[0] == 98 && name[1] == 97 && name[2] == 100 {
        proof {
            assert(name@ =~= seq![98u8, 97u8, 100u8]);
        }
        return Some(400);
    }
    None
}

/// One feed entry written `identifier:weight`.
pub open spec fn feed_entry_bytes(p: (Seq<u8>, u32)) -> Seq<u8> {
    p.0 + seq![58u8] + centi_bytes(p.1 as int)
}

/// The whole feed: entries in rank order joined by `|`, with no leading or
/// trailing separator.
pub open spec fn feed_bytes(s: Seq<(Seq<u8>, u32)>) -> Seq<u8>
    decreases s.len(),
{
    if s.len() == 0 {
        Seq::empty()
    } else if s.len() == 1 {
        feed_entry_bytes(s[0])
    } else {
        feed_bytes(s.drop_last()) + seq![124u8] + feed_entry_bytes(s.last())
    }
}

/// The weighted-entry pairs a feed holds.
pub open spec fn weighted_view(v: Seq<WeightedEntry>) -> Seq<(Seq<u8>, u32)> {
    v.map_values(|w: WeightedEntry| (w.id@, w.weight))
}

/// Render the weight feed as text.
pub fn render_feed(entries: &Vec<WeightedEntry>) -> (r: Vec<u8>)
    ensures
        r@ == feed_bytes(weighted_view(entries@)),
{
    let mut out: Vec<u8> = Vec::new();
    let n = entries.len();
    let mut i: usize = 0;
    while i < n
        invariant
            n == entries@.len(),
            i <= n,
            out@ == feed_bytes(weighted_view(entries@).take(i as int)),
        decreases n - i,
    {
        if i > 0 {
            out.push(124);
        }
        let mut k: usize = 0;
        let ghost mid = out@;
        while k < entries[i].id.len()
            invariant
                n == entries@.len(),
                i < n,
                k <= entries@[i as int].id@.len(),
                out@ == mid + entries@[i as int].id@.subrange(0, k as int),
            decreases entries@[i as int].id@.len() - k,
        {
            out.push(entries[i].id[k]);
            proof {
                assert(out@ =~= mid + entries@[i as int].id@.subrange(0, k + 1));
            }
            k = k + 1;
        }
        proof {
            assert(entries@[i as int].id@.subrange(0, entries@[i as int].id@.len() as int)
                =~= entries@[i as int].id@);
        }
        out.push(58);
        push_centi(&mut out, entries[i].weight);
        proof {
            let s = weighted_view(entries@);
            assert(s.take(i + 1).drop_last() =~= s.take(i as int));
            assert(s.take(i + 1).last() == s[i as int]);
            assert(s.take(i + 1)[0] == s[0]);
            assert(out@ =~= feed_bytes(s.take(i + 1)));
        }
        i = i + 1;
    }
    proof {
        assert(weighted_view(entries@).take(n as int) =~= weighted_view(entries@));
    }
    out
}

} // verus!
