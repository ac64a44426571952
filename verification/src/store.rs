//! The rating store: a mapping from item identifier to a rating entry,
//! mutated by insert-if-absent merges and single-key rating overwrites.

use vstd::prelude::*;

verus! {

/// A calendar instant in UTC, second precision. Ordering is lexicographic
/// on (year, month, day, hour, minute, second).
#[derive(Clone, Copy, PartialEq, Eq, Structural, Debug)]
pub struct Timestamp {
    pub year: u16,
    pub month: u8,
    pub day: u8,
    pub hour: u8,
    pub minute: u8,
    pub second: u8,
}

impl Timestamp {
    /// Field bounds that every timestamp held by the store satisfies.
    pub open spec fn wf(self) -> bool {
        &&& self.year <= 9999
        &&& 1 <= self.month <= 12
        &&& 1 <= self.day <= 31
        &&& self.hour <= 23
        &&& self.minute <= 59
        &&& self.second <= 59
    }

    /// A single integer that orders timestamps chronologically.
    pub open spec fn order_key(self) -> int {
        ((((self.year * 100 + self.month) * 100 + self.day) * 100 + self.hour) * 100
            + self.minute) * 100 + self.second
    }

    /// Executable order key, equal to the specification-level one.
    pub fn key(&self) -> (r: u64)
        ensures
            r == self.order_key(),
    {
        ((((self.year as u64 * 100 + self.month as u64) * 100 + self.day as u64) * 100
            + self.hour as u64) * 100 + self.minute as u64) * 100 + self.second as u64
    }
}

/// One rating record: when the item was added, and its rating in
/// hundredths (a rating of 3.00 is stored as 300). Ratings are plain
/// integers, so no entry can ever hold a non-numeric rating.
#[derive(Clone, Copy, PartialEq, Eq, Structural, Debug)]
pub struct RatingEntry {
    pub added_at: Timestamp,
    pub rating: u32,
}

impl RatingEntry {
    pub open spec fn wf(self) -> bool {
        self.added_at.wf()
    }
}

/// An item fetched from the remote collection: its identifier bytes and
/// the instant it was added there.
#[derive(Debug)]
pub struct LikedItemRecord {
    pub id: Vec<u8>,
    pub added_at: Timestamp,
}

/// Byte-for-byte equality of two identifier strings.
pub fn bytes_eq(a: &Vec<u8>, b: &Vec<u8>) -> (r: bool)
    ensures
        r <==> a@ == b@,
{
    if a.len() != b.len() {
        return false;
    }
    let n = a.len();
    let mut i: usize = 0;
    while i < n
        invariant
            n == a.len() == b.len(),
            i <= n,
            forall|k: int| 0 <= k < i ==> a@[k] == b@[k],
        decreases n - i,
    {
        if a[i] != b[i] {
            return false;
        }
        i = i + 1;
    }
    proof {
        assert(a@ =~= b@);
    }
    true
}

/// A copy of an identifier with the same bytes.
pub fn copy_bytes(a: &Vec<u8>) -> (r: Vec<u8>)
    ensures
        r@ == a@,
{
    let mut out: Vec<u8> = Vec::new();
    let n = a.len();
    let mut i: usize = 0;
    while i < n
        invariant
            n == a.len(),
            i <= n,
            out@ =~= a@.subrange(0, i as int),
        decreases n - i,
    {
        out.push(a[i]);
        i = i + 1;
    }
    proof {
        assert(out@ =~= a@);
    }
    out
}

/// The mathematical content of a list of store entries.
pub open spec fn as_map(s: Seq<(Seq<u8>, RatingEntry)>) -> Map<Seq<u8>, RatingEntry>
    decreases s.len(),
{
    if s.len() == 0 {
        Map::empty()
    } else {
        as_map(s.drop_last()).insert(s.last().0, s.last().1)
    }
}

/// No identifier occurs twice.
pub open spec fn keys_distinct(s: Seq<(Seq<u8>, RatingEntry)>) -> bool {
    forall|i: int, j: int| 0 <= i < j < s.len() ==> s[i].0 != s[j].0
}

/// A key is in the map exactly when some entry carries it.
pub proof fn lemma_as_map_contains(s: Seq<(Seq<u8>, RatingEntry)>, k: Seq<u8>)
    ensures
        as_map(s).contains_key(k) <==> exists|i: int| 0 <= i < s.len() && s[i].0 == k,
    decreases s.len(),
{
    if s.len() > 0 {
        lemma_as_map_contains(s.drop_last(), k);
        if as_map(s).contains_key(k) {
            if s.last().0 == k {
                assert(s[s.len() - 1].0 == k);
            } else {
                let i = choose|i: int| 0 <= i < s.drop_last().len() && s.drop_last()[i].0 == k;
                assert(s[i].0 == k);
            }
        }
        if exists|i: int| 0 <= i < s.len() && s[i].0 == k {
            let i = choose|i: int| 0 <= i < s.len() && s[i].0 == k;
            if i < s.len() - 1 {
                assert(s.drop_last()[i].0 == k);
            }
        }
    }
}

/// With distinct keys, each entry's value is what the map gives its key.
pub proof fn lemma_as_map_index(s: Seq<(Seq<u8>, RatingEntry)>, i: int)
    requires
        keys_distinct(s),
        0 <= i < s.len(),
    ensures
        as_map(s).contains_key(s[i].0),
        as_map(s)[s[i].0] == s[i].1,
    decreases s.len(),
{
    if i == s.len() - 1 {
    } else {
        assert(keys_distinct(s.drop_last())) by {
            assert(forall|p: int, q: int|
                0 <= p < q < s.drop_last().len() ==> s.drop_last()[p].0 != s.drop_last()[q].0);
        }
        assert(s.drop_last()[i] == s[i]);
        lemma_as_map_index(s.drop_last(), i);
        assert(s[i].0 != s.last().0);
    }
}

/// The persisted mapping from item identifier to rating entry.
/// Held as a list of pairs with pairwise-distinct identifiers; its
/// mathematical content is the map `as_map` of that list.
#[derive(Debug)]
pub struct RatingStore {
    pub entries: Vec<(Vec<u8>, RatingEntry)>,
}

impl RatingStore {
    /// The entries as a mathematical sequence of (identifier, entry) pairs.
    pub open spec fn entry_seq(self) -> Seq<(Seq<u8>, RatingEntry)> {
        self.entries@.map_values(|p: (Vec<u8>, RatingEntry)| (p.0@, p.1))
    }

    /// The mathematical content of the store.
    pub open spec fn view_map(self) -> Map<Seq<u8>, RatingEntry> {
        as_map(self.entry_seq())
    }

    /// Well-formed: identifiers distinct, every entry's timestamp in range.
    pub open spec fn wf(self) -> bool {
        &&& keys_distinct(self.entry_seq())
        &&& forall|i: int| 0 <= i < self.entry_seq().len() ==> (#[trigger] self.entry_seq()[i]).1.wf()
    }

    /// An empty store.
    pub fn new() -> (r: RatingStore)
        ensures
            r.wf(),
            r.view_map() == Map::<Seq<u8>, RatingEntry>::empty(),
            r.entry_seq().len() == 0,
    {
        let r = RatingStore { entries: Vec::new() };
        proof {
            assert(r.entry_seq() =~= Seq::<(Seq<u8>, RatingEntry)>::empty());
        }
        r
    }

    /// Number of entries held.
    pub fn len(&self) -> (r: usize)
        ensures
            r == self.entry_seq().len(),
    {
        self.entries.len()
    }

    /// Whether an identifier is present.
    pub fn contains(&self, id: &Vec<u8>) -> (r: bool)
        ensures
            r <==> self.view_map().contains_key(id@),
    {
        let n = self.entries.len();
        let mut i: usize = 0;
        while i < n
            invariant
                n == self.entries.len(),
                i <= n,
                forall|k: int| 0 <= k < i ==> self.entry_seq()[k].0 != id@,
            decreases n - i,
        {
            if bytes_eq(&self.entries[i].0, id) {
                proof {
                    assert(self.entry_seq()[i as int].0 == id@);
                    lemma_as_map_contains(self.entry_seq(), id@);
                }
                return true;
            }
            i = i + 1;
        }
        proof {
            lemma_as_map_contains(self.entry_seq(), id@);
        }
        false
    }

    /// The entry under an identifier, if present.
    pub fn get(&self, id: &Vec<u8>) -> (r: Option<RatingEntry>)
        requires
            self.wf(),
        ensures
            match r {
                Some(e) => self.view_map().contains_key(id@) && e == self.view_map()[id@],
                None => !self.view_map().contains_key(id@),
            },
    {
        let n = self.entries.len();
        let mut i: usize = 0;
        while i < n
            invariant
                self.wf(),
                n == self.entries.len(),
                i <= n,
                forall|k: int| 0 <= k < i ==> self.entry_seq()[k].0 != id@,
            decreases n - i,
        {
            if bytes_eq(&self.entries[i].0, id) {
                proof {
                    assert(self.entry_seq()[i as int].0 == id@);
                    lemma_as_map_index(self.entry_seq(), i as int);
                }
                return Some(self.entries[i].1);
            }
            i = i + 1;
        }
        proof {
            lemma_as_map_contains(self.entry_seq(), id@);
        }
        None
    }
}

/// What one fetched record does to the store's content: insert a fresh
/// entry with the caller's default rating when the identifier is absent,
/// leave the store unchanged when it is present.
pub open spec fn merge_step(
    m: Map<Seq<u8>, RatingEntry>,
    id: Seq<u8>,
    added_at: Timestamp,
    default_rating: u32,
) -> Map<Seq<u8>, RatingEntry> {
    if m.contains_key(id) {
        m
    } else {
        m.insert(id, RatingEntry { added_at, rating: default_rating })
    }
}

/// The content after merging a whole fetched sequence, first record first.
pub open spec fn merge_spec(
    m: Map<Seq<u8>, RatingEntry>,
    recs: Seq<(Seq<u8>, Timestamp)>,
    default_rating: u32,
) -> Map<Seq<u8>, RatingEntry>
    decreases recs.len(),
{
    if recs.len() == 0 {
        m
    } else {
        merge_spec(
            merge_step(m, recs[0].0, recs[0].1, default_rating),
            recs.drop_first(),
            default_rating,
        )
    }
}

/// Merging one more record at the end folds onto the merged prefix.
pub proof fn lemma_merge_spec_snoc(
    m: Map<Seq<u8>, RatingEntry>,
    recs: Seq<(Seq<u8>, Timestamp)>,
    r: (Seq<u8>, Timestamp),
    default_rating: u32,
)
    ensures
        merge_spec(m, recs.push(r), default_rating)
            == merge_step(merge_spec(m, recs, default_rating), r.0, r.1, default_rating),
    decreases recs.len(),
{
    if recs.len() == 0 {
        let m2 = merge_step(m, r.0, r.1, default_rating);
        assert(recs.push(r)[0] == r);
        assert(recs.push(r).drop_first() =~= Seq::<(Seq<u8>, Timestamp)>::empty());
        assert(merge_spec(m2, Seq::<(Seq<u8>, Timestamp)>::empty(), default_rating) == m2);
        assert(merge_spec(m, recs.push(r), default_rating) == m2);
    } else {
        let m1 = merge_step(m, recs[0].0, recs[0].1, default_rating);
        assert(recs.push(r).drop_first() =~= recs.drop_first().push(r));
        assert(recs.push(r)[0] == recs[0]);
        lemma_merge_spec_snoc(m1, recs.drop_first(), r, default_rating);
        assert(merge_spec(m, recs.push(r), default_rating)
            == merge_spec(m1, recs.drop_first().push(r), default_rating));
        assert(merge_spec(m, recs, default_rating)
            == merge_spec(m1, recs.drop_first(), default_rating));
    }
}

/// Merging never removes a key, and afterwards every merged identifier
/// is present.
pub proof fn lemma_merge_spec_dom(
    m: Map<Seq<u8>, RatingEntry>,
    recs: Seq<(Seq<u8>, Timestamp)>,
    default_rating: u32,
)
    ensures
        forall|k: Seq<u8>| m.contains_key(k)
            ==> merge_spec(m, recs, default_rating).contains_key(k),
        forall|i: int| 0 <= i < recs.len()
            ==> merge_spec(m, recs, default_rating).contains_key(recs[i].0),
    decreases recs.len(),
{
    if recs.len() > 0 {
        let m1 = merge_step(m, recs[0].0, recs[0].1, default_rating);
        lemma_merge_spec_dom(m1, recs.drop_first(), default_rating);
        assert(merge_spec(m, recs, default_rating)
            == merge_spec(m1, recs.drop_first(), default_rating));
        assert forall|k: Seq<u8>| m.contains_key(k) implies merge_spec(
            m,
            recs,
            default_rating,
        ).contains_key(k) by {
            assert(m1.contains_key(k));
            assert(merge_spec(m1, recs.drop_first(), default_rating).contains_key(k));
        }
        assert forall|i: int| 0 <= i < recs.len() implies merge_spec(
            m,
            recs,
            default_rating,
        ).contains_key(recs[i].0) by {
            if i == 0 {
                assert(m1.contains_key(recs[0].0));
                assert(merge_spec(m1, recs.drop_first(), default_rating).contains_key(recs[0].0));
            } else {
                assert(recs.drop_first()[i - 1] == recs[i]);
                assert(merge_spec(m1, recs.drop_first(), default_rating)
                    .contains_key(recs.drop_first()[i - 1].0));
            }
        }
    }
}

/// Merging a sequence whose identifiers are all present changes nothing.
pub proof fn lemma_merge_spec_noop(
    m: Map<Seq<u8>, RatingEntry>,
    recs: Seq<(Seq<u8>, Timestamp)>,
    default_rating: u32,
)
    requires
        forall|i: int| 0 <= i < recs.len() ==> m.contains_key(recs[i].0),
    ensures
        merge_spec(m, recs, default_rating) == m,
    decreases recs.len(),
{
    if recs.len() > 0 {
        assert(forall|i: int| 0 <= i < recs.drop_first().len()
            ==> m.contains_key(recs.drop_first()[i].0)) by {
            assert(forall|i: int| 0 <= i < recs.drop_first().len()
                ==> recs.drop_first()[i] == recs[i + 1]);
        }
        lemma_merge_spec_noop(m, recs.drop_first(), default_rating);
    }
}

/// Merging the same fetched sequence a second time leaves the store as the
/// first merge left it: insert-if-absent never overwrites.
pub proof fn lemma_merge_idempotent(
    m: Map<Seq<u8>, RatingEntry>,
    recs: Seq<(Seq<u8>, Timestamp)>,
    default_rating: u32,
)
    ensures
        merge_spec(merge_spec(m, recs, default_rating), recs, default_rating)
            == merge_spec(m, recs, default_rating),
{
    lemma_merge_spec_dom(m, recs, default_rating);
    lemma_merge_spec_noop(merge_spec(m, recs, default_rating), recs, default_rating);
}

/// Some entry of the list already carries the identifier.
pub open spec fn seq_has_key(es: Seq<(Seq<u8>, RatingEntry)>, k: Seq<u8>) -> bool {
    exists|j: int| 0 <= j < es.len() && es[j].0 == k
}

/// What one fetched record does to the entry list: append a fresh entry at
/// the end when the identifier is absent, leave the list unchanged when it
/// is present.
pub open spec fn merge_seq_step(
    es: Seq<(Seq<u8>, RatingEntry)>,
    r: (Seq<u8>, Timestamp),
    default_rating: u32,
) -> Seq<(Seq<u8>, RatingEntry)> {
    if seq_has_key(es, r.0) {
        es
    } else {
        es.push((r.0, RatingEntry { added_at: r.1, rating: default_rating }))
    }
}

/// The entry list after merging a whole fetched sequence, first record
/// first: present entries keep their places, fresh ones are appended in
/// record order.
pub open spec fn merge_entry_seq(
    es: Seq<(Seq<u8>, RatingEntry)>,
    recs: Seq<(Seq<u8>, Timestamp)>,
    default_rating: u32,
) -> Seq<(Seq<u8>, RatingEntry)>
    decreases recs.len(),
{
    if recs.len() == 0 {
        es
    } else {
        merge_entry_seq(merge_seq_step(es, recs[0], default_rating), recs.drop_first(), default_rating)
    }
}

/// Merging one more record at the end folds onto the merged prefix.
pub proof fn lemma_merge_entry_seq_snoc(
    es: Seq<(Seq<u8>, RatingEntry)>,
    recs: Seq<(Seq<u8>, Timestamp)>,
    r: (Seq<u8>, Timestamp),
    default_rating: u32,
)
    ensures
        merge_entry_seq(es, recs.push(r), default_rating)
            == merge_seq_step(merge_entry_seq(es, recs, default_rating), r, default_rating),
    decreases recs.len(),
{
    if recs.len() == 0 {
        let es2 = merge_seq_step(es, r, default_rating);
        assert(recs.push(r)[0] == r);
        assert(recs.push(r).drop_first() =~= Seq::<(Seq<u8>, Timestamp)>::empty());
        assert(merge_entry_seq(es2, Seq::<(Seq<u8>, Timestamp)>::empty(), default_rating) == es2);
        assert(merge_entry_seq(es, recs.push(r), default_rating) == es2);
    } else {
        let es1 = merge_seq_step(es, recs[0], default_rating);
        assert(recs.push(r).drop_first() =~= recs.drop_first().push(r));
        assert(recs.push(r)[0] == recs[0]);
        lemma_merge_entry_seq_snoc(es1, recs.drop_first(), r, default_rating);
        assert(merge_entry_seq(es, recs.push(r), default_rating)
            == merge_entry_seq(es1, recs.drop_first().push(r), default_rating));
        assert(merge_entry_seq(es, recs, default_rating)
            == merge_entry_seq(es1, recs.drop_first(), default_rating));
    }
}

/// Merging never removes an entry's identifier, and afterwards every
/// merged identifier has an entry.
pub proof fn lemma_merge_entry_seq_keys(
    es: Seq<(Seq<u8>, RatingEntry)>,
    recs: Seq<(Seq<u8>, Timestamp)>,
    default_rating: u32,
)
    ensures
        forall|k: Seq<u8>| #[trigger]
            seq_has_key(es, k) ==> seq_has_key(
                merge_entry_seq(es, recs, default_rating),
                k,
            ),
        forall|i: int|
            0 <= i < recs.len() ==> seq_has_key(
                merge_entry_seq(es, recs, default_rating),
                (#[trigger] recs[i]).0,
            ),
    decreases recs.len(),
{
    if recs.len() > 0 {
        let es1 = merge_seq_step(es, recs[0], default_rating);
        lemma_merge_entry_seq_keys(es1, recs.drop_first(), default_rating);
        assert(merge_entry_seq(es, recs, default_rating)
            == merge_entry_seq(es1, recs.drop_first(), default_rating));
        assert forall|k: Seq<u8>| #[trigger]
            seq_has_key(es, k) implies seq_has_key(
            merge_entry_seq(es, recs, default_rating),
            k,
        ) by {
            let j = choose|j: int| 0 <= j < es.len() && es[j].0 == k;
            assert(es1[j].0 == k);
            assert(seq_has_key(es1, k));
        }
        assert forall|i: int| 0 <= i < recs.len() implies seq_has_key(
            merge_entry_seq(es, recs, default_rating),
            (#[trigger] recs[i]).0,
        ) by {
            if i == 0 {
                assert(seq_has_key(es1, recs[0].0)) by {
                    if !seq_has_key(es, recs[0].0) {
                        assert(es1[es.len() as int].0 == recs[0].0);
                    } else {
                        let j = choose|j: int| 0 <= j < es.len() && es[j].0 == recs[0].0;
                        assert(es1[j].0 == recs[0].0);
                    }
                }
            } else {
                assert(recs.drop_first()[i - 1] == recs[i]);
                assert(seq_has_key(
                    merge_entry_seq(es1, recs.drop_first(), default_rating),
                    recs.drop_first()[i - 1].0,
                ));
            }
        }
    }
}

/// Merging a sequence whose identifiers all have entries changes nothing.
pub proof fn lemma_merge_entry_seq_noop(
    es: Seq<(Seq<u8>, RatingEntry)>,
    recs: Seq<(Seq<u8>, Timestamp)>,
    default_rating: u32,
)
    requires
        forall|i: int| 0 <= i < recs.len() ==> seq_has_key(es, (#[trigger] recs[i]).0),
    ensures
        merge_entry_seq(es, recs, default_rating) == es,
    decreases recs.len(),
{
    if recs.len() > 0 {
        assert(seq_has_key(es, recs[0].0));
        assert(forall|i: int|
            0 <= i < recs.drop_first().len() ==> seq_has_key(
                es,
                (#[trigger] recs.drop_first()[i]).0,
            )) by {
            assert(forall|i: int|
                0 <= i < recs.drop_first().len() ==> recs.drop_first()[i] == recs[i + 1]);
        }
        lemma_merge_entry_seq_noop(es, recs.drop_first(), default_rating);
    }
}

/// Merging the same fetched sequence a second time leaves even the entry
/// list as the first merge left it, so a re-merged store persists to
/// byte-for-byte the same encoding.
pub proof fn lemma_merge_entry_seq_idempotent(
    es: Seq<(Seq<u8>, RatingEntry)>,
    recs: Seq<(Seq<u8>, Timestamp)>,
    default_rating: u32,
)
    ensures
        merge_entry_seq(merge_entry_seq(es, recs, default_rating), recs, default_rating)
            == merge_entry_seq(es, recs, default_rating),
{
    lemma_merge_entry_seq_keys(es, recs, default_rating);
    lemma_merge_entry_seq_noop(merge_entry_seq(es, recs, default_rating), recs, default_rating);
}

/// The identifier-and-instant view of a fetched record sequence.
pub open spec fn records_seq(recs: Seq<LikedItemRecord>) -> Seq<(Seq<u8>, Timestamp)> {
    recs.map_values(|r: LikedItemRecord| (r.id@, r.added_at))
}

impl RatingStore {
    /// Insert a fresh entry, with the given default rating, for each fetched
    /// record whose identifier is absent, appending in record order; never
    /// overwrite, move or drop a present entry.
    pub fn merge_new(&mut self, records: &Vec<LikedItemRecord>, default_rating: u32)
        requires
            old(self).wf(),
            forall|i: int| 0 <= i < records@.len() ==> (#[trigger] records@[i]).added_at.wf(),
        ensures
            final(self).wf(),
            final(self).view_map()
                == merge_spec(old(self).view_map(), records_seq(records@), default_rating),
            final(self).entry_seq()
                == merge_entry_seq(old(self).entry_seq(), records_seq(records@), default_rating),
    {
        let n = records.len();
        let mut i: usize = 0;
        while i < n
            invariant
                n == records@.len(),
                i <= n,
                self.wf(),
                forall|k: int| 0 <= k < n ==> (#[trigger] records@[k]).added_at.wf(),
                self.view_map() == merge_spec(
                    old(self).view_map(),
                    records_seq(records@).take(i as int),
                    default_rating,
                ),
                self.entry_seq() == merge_entry_seq(
                    old(self).entry_seq(),
                    records_seq(records@).take(i as int),
                    default_rating,
                ),
            decreases n - i,
        {
            let ghost pre = self.view_map();
            let ghost pre_seq = self.entry_seq();
            let rec = &records[i];
            if !self.contains(&rec.id) {
                let entry = RatingEntry { added_at: rec.added_at, rating: default_rating };
                let id_copy = copy_bytes(&rec.id);
                self.entries.push((id_copy, entry));
                proof {
                    assert(self.entry_seq() =~= pre_seq.push((records@[i as int].id@, entry)));
                    assert(self.entry_seq().drop_last() =~= pre_seq);
                    assert(self.entry_seq().last() == (records@[i as int].id@, entry));
                    lemma_as_map_contains(pre_seq, records@[i as int].id@);
                    assert(keys_distinct(self.entry_seq())) by {
                        assert(forall|p: int| 0 <= p < pre_seq.len()
                            ==> self.entry_seq()[p] == pre_seq[p]);
                    }
                    assert(self.view_map() == pre.insert(records@[i as int].id@, entry));
                }
            }
            proof {
                let rs = records_seq(records@);
                assert(rs.take(i as int).push(rs[i as int]) =~= rs.take(i + 1));
                lemma_merge_spec_snoc(
                    old(self).view_map(),
                    rs.take(i as int),
                    rs[i as int],
                    default_rating,
                );
                lemma_merge_entry_seq_snoc(
                    old(self).entry_seq(),
                    rs.take(i as int),
                    rs[i as int],
                    default_rating,
                );
                lemma_as_map_contains(pre_seq, records@[i as int].id@);
                assert(seq_has_key(pre_seq, rs[i as int].0) <==> pre.contains_key(
                    records@[i as int].id@,
                ));
            }
            i = i + 1;
        }
        proof {
            assert(records_seq(records@).take(n as int) =~= records_seq(records@));
        }
    }

    /// Overwrite the rating of a present identifier in place, leaving its
    /// instant, its position and every other entry untouched, and hand back
    /// the rating it had before; absent identifiers are reported, and the
    /// store then left unchanged.
    pub fn set_rating(&mut self, id: &Vec<u8>, new_rating: u32) -> (r: Result<u32, StoreError>)
        requires
            old(self).wf(),
        ensures
            final(self).wf(),
            match r {
                Ok(prev) => {
                    &&& old(self).view_map().contains_key(id@)
                    &&& prev == old(self).view_map()[id@].rating
                    &&& final(self).view_map() == old(self).view_map().insert(
                        id@,
                        RatingEntry {
                            added_at: old(self).view_map()[id@].added_at,
                            rating: new_rating,
                        },
                    )
                    &&& exists|j: int|
                        0 <= j < old(self).entry_seq().len() && (#[trigger] old(
                            self,
                        ).entry_seq()[j]).0 == id@ && final(self).entry_seq() == old(
                            self,
                        ).entry_seq().update(
                            j,
                            (
                                id@,
                                RatingEntry {
                                    added_at: old(self).entry_seq()[j].1.added_at,
                                    rating: new_rating,
                                },
                            ),
                        )
                },
                Err(e) => {
                    &&& e == StoreError::NotFound
                    &&& !old(self).view_map().contains_key(id@)
                    &&& *final(self) == *old(self)
                },
            },
    {
        let n = self.entries.len();
        let mut i: usize = 0;
        while i < n
            invariant
                self == old(self),
                self.wf(),
                n == self.entries.len(),
                i <= n,
                forall|k: int| 0 <= k < i ==> self.entry_seq()[k].0 != id@,
            decreases n - i,
        {
            if bytes_eq(&self.entries[i].0, id) {
                proof {
                    assert(self.entry_seq()[i as int].0 == id@);
                    lemma_as_map_index(self.entry_seq(), i as int);
                }
                let ghost pre_seq = self.entry_seq();
                let prev = self.entries[i].1.rating;
                let entry = RatingEntry { added_at: self.entries[i].1.added_at, rating: new_rating };
                let id_copy = copy_bytes(&self.entries[i].0);
                self.entries.set(i, (id_copy, entry));
                proof {
                    assert(self.entry_seq() =~= pre_seq.update(i as int, (id@, entry)));
                    assert(keys_distinct(self.entry_seq())) by {
                        assert(forall|p: int| 0 <= p < pre_seq.len() && p != i
                            ==> self.entry_seq()[p] == pre_seq[p]);
                    }
                    lemma_as_map_update(pre_seq, i as int, entry);
                    assert((#[trigger] pre_seq[i as int]).0 == id@ && self.entry_seq()
                        == pre_seq.update(
                        i as int,
                        (
                            id@,
                            RatingEntry {
                                added_at: pre_seq[i as int].1.added_at,
                                rating: new_rating,
                            },
                        ),
                    ));
                }
                return Ok(prev);
            }
            i = i + 1;
        }
        proof {
            lemma_as_map_contains(self.entry_seq(), id@);
        }
        Err(StoreError::NotFound)
    }
}

impl RatingStore {
    /// Insert an entry under a fresh identifier; a present identifier is
    /// refused and the store left unchanged.
    pub fn insert_new(&mut self, id: Vec<u8>, e: RatingEntry) -> (r: bool)
        requires
            old(self).wf(),
            e.wf(),
        ensures
            final(self).wf(),
            r == !old(self).view_map().contains_key(id@),
            r ==> final(self).entry_seq() == old(self).entry_seq().push((id@, e))
                && final(self).view_map() == old(self).view_map().insert(id@, e),
            !r ==> *final(self) == *old(self),
    {
        if self.contains(&id) {
            return false;
        }
        let ghost pre_seq = self.entry_seq();
        let ghost idv = id@;
        self.entries.push((id, e));
        proof {
            assert(self.entry_seq() =~= pre_seq.push((idv, e)));
            assert(self.entry_seq().drop_last() =~= pre_seq);
            assert(self.entry_seq().last() == (idv, e));
            lemma_as_map_contains(pre_seq, idv);
            assert(keys_distinct(self.entry_seq())) by {
                assert(forall|p: int| 0 <= p < pre_seq.len() ==> self.entry_seq()[p] == pre_seq[p]);
            }
        }
        true
    }
}

/// Replacing the entry under one key updates the map at that key alone.
pub proof fn lemma_as_map_update(s: Seq<(Seq<u8>, RatingEntry)>, i: int, e: RatingEntry)
    requires
        keys_distinct(s),
        0 <= i < s.len(),
    ensures
        as_map(s.update(i, (s[i].0, e))) == as_map(s).insert(s[i].0, e),
    decreases s.len(),
{
    let t = s.update(i, (s[i].0, e));
    if i == s.len() - 1 {
        assert(t.drop_last() =~= s.drop_last());
        assert(t.last() == (s[i].0, e));
    } else {
        assert(keys_distinct(s.drop_last()));
        assert(s.drop_last()[i] == s[i]);
        lemma_as_map_update(s.drop_last(), i, e);
        assert(t.drop_last() =~= s.drop_last().update(i, (s[i].0, e)));
        assert(t.last() == s.last());
        assert(s[i].0 != s.last().0);
        assert(as_map(s.drop_last()).insert(s[i].0, e).insert(s.last().0, s.last().1)
            =~= as_map(s.drop_last()).insert(s.last().0, s.last().1).insert(s[i].0, e));
    }
}

/// Why a store operation failed.
#[derive(Clone, Copy, PartialEq, Eq, Structural, Debug)]
pub enum StoreError {
    /// The requested identifier, or the persisted file, is absent.
    NotFound,
    /// The persisted bytes are not a well-formed store encoding.
    Parse,
}

} // verus!
