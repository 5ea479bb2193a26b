//! The popularity store: one counter per distinct date ever explicitly
//! requested. Supports an atomic increment-or-insert and a descending
//! top-N query. Modelled as a map from a date's order key to its count.

use vstd::prelude::*;
use vstd::pervasive::VecAdditionalExecFns;

use crate::date::CalendarDate;

verus! {

broadcast use vstd::seq_lib::group_to_multiset_ensures;

/// One persisted counter: a date and how often it was requested.
#[derive(Clone, Copy, PartialEq, Eq, Structural, Debug)]
pub struct FetchRecord {
    pub date: CalendarDate,
    pub fetch_count: u64,
}

/// The store rejected an operation (here: a counter cannot grow further).
#[derive(Clone, Copy, PartialEq, Eq, Structural, Debug)]
pub struct StoreError;

/// No two records share a date.
pub open spec fn distinct_keys(s: Seq<FetchRecord>) -> bool {
    forall|i: int, j: int|
        0 <= i < j < s.len() ==> s[i].date.key() != s[j].date.key()
}

/// Every record holds a well-formed date and a count of at least one.
pub open spec fn wf_records(s: Seq<FetchRecord>) -> bool {
    forall|i: int| 0 <= i < s.len() ==> (#[trigger] s[i]).date.wf() && s[i].fetch_count >= 1
}

/// `a` ranks no lower than `b`: more fetches, or equally many and an
/// earlier (or equal) date — the tie-break is date ascending.
pub open spec fn rank_leq(a: FetchRecord, b: FetchRecord) -> bool {
    a.fetch_count > b.fetch_count || (a.fetch_count == b.fetch_count && a.date.key()
        <= b.date.key())
}

/// Ordered by descending count, ties by ascending date.
pub open spec fn sorted_by_rank(s: Seq<FetchRecord>) -> bool {
    forall|i: int, j: int| 0 <= i < j < s.len() ==> rank_leq(#[trigger] s[i], #[trigger] s[j])
}

/// Some record in `s` carries the date key `k`.
pub open spec fn has_key(s: Seq<FetchRecord>, k: int) -> bool {
    exists|i: int| 0 <= i < s.len() && s[i].date.key() == k
}

/// The counter map that a sequence of records denotes.
pub open spec fn seq_counts(s: Seq<FetchRecord>) -> Map<int, nat>
    decreases s.len(),
{
    if s.len() == 0 {
        Map::empty()
    } else {
        seq_counts(s.drop_last()).insert(s.last().date.key(), s.last().fetch_count as nat)
    }
}

/// The count for `k`, zero when the key is absent.
pub open spec fn count_of(m: Map<int, nat>, k: int) -> nat {
    if m.contains_key(k) {
        m[k]
    } else {
        0
    }
}

/// What one successful `record_fetch` for key `k` does to the counter map.
pub open spec fn bump(m: Map<int, nat>, k: int) -> Map<int, nat> {
    m.insert(k, count_of(m, k) + 1)
}

/// `times` successful fetches for `k`, one after another.
pub open spec fn bump_n(m: Map<int, nat>, k: int, times: nat) -> Map<int, nat>
    decreases times,
{
    if times == 0 {
        m
    } else {
        bump(bump_n(m, k, (times - 1) as nat), k)
    }
}

/// Repeating `record_fetch` for one date from a fresh store leaves that
/// date's count at exactly the number of calls.
pub proof fn lemma_repeat_fetch_count(k: int, times: nat)
    ensures
        count_of(bump_n(Map::empty(), k, times), k) == times,
    decreases times,
{
    if times > 0 {
        lemma_repeat_fetch_count(k, (times - 1) as nat);
    }
}

/// A fetch for one date never touches another date's count: interleaved
/// calls for distinct dates cannot cross-contaminate.
pub proof fn lemma_fetch_no_cross_talk(m: Map<int, nat>, a: int, b: int)
    requires
        a != b,
    ensures
        count_of(bump(m, a), b) == count_of(m, b),
{
}

proof fn lemma_seq_counts_contains(s: Seq<FetchRecord>, k: int)
    ensures
        seq_counts(s).contains_key(k) <==> exists|i: int|
            0 <= i < s.len() && s[i].date.key() == k,
    decreases s.len(),
{
    if s.len() > 0 {
        lemma_seq_counts_contains(s.drop_last(), k);
        if s.last().date.key() == k {
            assert(s[s.len() - 1].date.key() == k);
        } else {
            if seq_counts(s).contains_key(k) {
                let i = choose|i: int| 0 <= i < s.drop_last().len() && s.drop_last()[i].date.key()
                    == k;
                assert(s[i].date.key() == k);
            }
            if exists|i: int| 0 <= i < s.len() && s[i].date.key() == k {
                let i = choose|i: int| 0 <= i < s.len() && s[i].date.key() == k;
                assert(i < s.len() - 1);
                assert(s.drop_last()[i].date.key() == k);
            }
        }
    }
}

proof fn lemma_seq_counts_at(s: Seq<FetchRecord>, i: int)
    requires
        distinct_keys(s),
        0 <= i < s.len(),
    ensures
        seq_counts(s).contains_key(s[i].date.key()),
        seq_counts(s)[s[i].date.key()] == s[i].fetch_count as nat,
    decreases s.len(),
{
    if i == s.len() - 1 {
    } else {
        lemma_seq_counts_at(s.drop_last(), i);
        assert(s.drop_last()[i] == s[i]);
        assert(s.last().date.key() != s[i].date.key());
    }
}

proof fn lemma_seq_counts_update(s: Seq<FetchRecord>, i: int, r: FetchRecord)
    requires
        distinct_keys(s),
        0 <= i < s.len(),
        r.date.key() == s[i].date.key(),
    ensures
        seq_counts(s.update(i, r)) =~= seq_counts(s).insert(
            r.date.key(),
            r.fetch_count as nat,
        ),
    decreases s.len(),
{
    let t = s.update(i, r);
    if i == s.len() - 1 {
        assert(t.drop_last() =~= s.drop_last());
        assert(t.last() == r);
    } else {
        assert(t.drop_last() =~= s.drop_last().update(i, r));
        assert(t.last() == s.last());
        assert(s.drop_last()[i] == s[i]);
        lemma_seq_counts_update(s.drop_last(), i, r);
        assert(s.last().date.key() != s[i].date.key());
    }
}

proof fn lemma_seq_counts_push(s: Seq<FetchRecord>, r: FetchRecord)
    ensures
        seq_counts(s.push(r)) =~= seq_counts(s).insert(r.date.key(), r.fetch_count as nat),
{
    assert(s.push(r).drop_last() =~= s);
    assert(s.push(r).last() == r);
}

/// The in-memory popularity store.
pub struct PopularityStore {
    pub records: Vec<FetchRecord>,
}

impl View for PopularityStore {
    type V = Map<int, nat>;

    open spec fn view(&self) -> Map<int, nat> {
        seq_counts(self.records@)
    }
}

impl PopularityStore {
    /// Every record holds a well-formed date and a count of at least one,
    /// and no two records share a date.
    pub open spec fn wf(self) -> bool {
        &&& distinct_keys(self.records@)
        &&& wf_records(self.records@)
    }

    /// A fresh, empty store.
    pub fn new() -> (r: PopularityStore)
        ensures
            r.wf(),
            r@ =~= Map::<int, nat>::empty(),
    {
        PopularityStore { records: Vec::new() }
    }

    /// Insert a record with count one if the date is absent, else increment
    /// its count by one; return the resulting count. Fails only when the
    /// counter can no longer grow.
    pub fn record_fetch(&mut self, date: CalendarDate) -> (r: Result<u64, StoreError>)
        requires
            old(self).wf(),
            date.wf(),
        ensures
            final(self).wf(),
            r is Ok <==> count_of(old(self)@, date.key()) < u64::MAX,
            r matches Ok(n) ==> 1 <= n && n as nat == count_of(old(self)@, date.key()) + 1
                && final(self)@ =~= old(self)@.insert(date.key(), n as nat),
            r is Ok ==> final(self)@ =~= bump(old(self)@, date.key()),
            r is Err ==> *final(self) == *old(self),
    {
        let ghost k = date.key();
        let mut i: usize = 0;
        while i < self.records.len()
            invariant
                i <= self.records@.len(),
                *self == *old(self),
                old(self).wf(),
                date.wf(),
                k == date.key(),
                forall|j: int| 0 <= j < i ==> self.records@[j].date.key() != k,
            decreases self.records@.len() - i,
        {
            let rec = self.records[i];
            if rec.date == date {
                let c = rec.fetch_count;
                proof {
                    lemma_seq_counts_at(self.records@, i as int);
                }
                if c == u64::MAX {
                    return Err(StoreError);
                }
                let updated = FetchRecord { date: rec.date, fetch_count: c + 1 };
                self.records.set(i, updated);
                proof {
                    lemma_seq_counts_update(old(self).records@, i as int, updated);
                }
                return Ok(c + 1);
            }
            proof {
                assert(rec == self.records@[i as int]);
                assert(rec.date.wf());
                if rec.date.key() == k {
                    crate::date::lemma_key_injective(rec.date, date);
                }
            }
            i += 1;
        }
        proof {
            lemma_seq_counts_contains(self.records@, k);
            assert(!old(self)@.contains_key(k));
        }
        let fresh = FetchRecord { date, fetch_count: 1 };
        self.records.push(fresh);
        proof {
            lemma_seq_counts_push(old(self).records@, fresh);
        }
        Ok(1)
    }
}

impl PopularityStore {
    /// How often `date` has been fetched so far; zero when never.
    pub fn count_for(&self, date: CalendarDate) -> (n: u64)
        requires
            self.wf(),
            date.wf(),
        ensures
            n as nat == count_of(self@, date.key()),
    {
        let ghost k = date.key();
        let mut i: usize = 0;
        while i < self.records.len()
            invariant
                i <= self.records@.len(),
                self.wf(),
                date.wf(),
                k == date.key(),
                forall|j: int| 0 <= j < i ==> self.records@[j].date.key() != k,
            decreases self.records@.len() - i,
        {
            let rec = self.records[i];
            if rec.date == date {
                proof {
                    lemma_seq_counts_at(self.records@, i as int);
                }
                return rec.fetch_count;
            }
            proof {
                assert(rec == self.records@[i as int]);
                assert(rec.date.wf());
                if rec.date.key() == k {
                    crate::date::lemma_key_injective(rec.date, date);
                }
            }
            i += 1;
        }
        proof {
            lemma_seq_counts_contains(self.records@, k);
        }
        0
    }
}

/// `a` ranks no lower than `b`; executable counterpart of `rank_leq`.
fn ranks_before(a: &FetchRecord, b: &FetchRecord) -> (r: bool)
    requires
        a.date.wf(),
        b.date.wf(),
    ensures
        r == rank_leq(*a, *b),
{
    if a.fetch_count != b.fetch_count {
        a.fetch_count > b.fetch_count
    } else {
        !b.date.is_before(&a.date)
    }
}

/// Insertion sort into rank order: the result is the same records,
/// ordered by descending count with ties broken by ascending date.
fn sort_by_rank(v: &Vec<FetchRecord>) -> (out: Vec<FetchRecord>)
    requires
        wf_records(v@),
    ensures
        out@.to_multiset() =~= v@.to_multiset(),
        out@.len() == v@.len(),
        sorted_by_rank(out@),
        wf_records(out@),
{
    let mut out: Vec<FetchRecord> = Vec::new();
    let mut i: usize = 0;
    while i < v.len()
        invariant
            i <= v@.len(),
            wf_records(v@),
            out@.to_multiset() =~= v@.subrange(0, i as int).to_multiset(),
            out@.len() == i,
            sorted_by_rank(out@),
            wf_records(out@),
        decreases v@.len() - i,
    {
        let rec = v[i];
        let mut j: usize = 0;
        while j < out.len() && ranks_before(&out[j], &rec)
            invariant
                j <= out@.len(),
                wf_records(out@),
                rec.date.wf(),
                forall|p: int| 0 <= p < j ==> rank_leq(#[trigger] out@[p], rec),
            decreases out@.len() - j,
        {
            j += 1;
        }
        let ghost prev = out@;
        out.insert(j, rec);
        proof {
            prev.insert_ensures(j as int, rec);
            assert(v@.subrange(0, i as int + 1) =~= v@.subrange(0, i as int).push(rec));
            assert forall|p: int, q: int| 0 <= p < q < out@.len() implies rank_leq(
                #[trigger] out@[p],
                #[trigger] out@[q],
            ) by {
                if q < j {
                    assert(out@[p] == prev[p] && out@[q] == prev[q]);
                } else if p < j && q == j {
                    assert(out@[p] == prev[p]);
                } else if p < j {
                    assert(out@[p] == prev[p] && out@[q] == prev[q - 1]);
                } else if p == j {
                    assert(out@[q] == prev[q - 1]);
                    assert(rank_leq(rec, prev[j as int]));
                    assert(rank_leq(prev[j as int], prev[q - 1]));
                } else {
                    assert(out@[p] == prev[p - 1] && out@[q] == prev[q - 1]);
                }
            }
            assert(wf_records(out@));
        }
        i += 1;
    }
    proof {
        assert(v@.subrange(0, v@.len() as int) =~= v@);
    }
    out
}

impl PopularityStore {
    /// Up to `n` records, ordered by descending fetch count with ties broken
    /// by ascending date. Every returned record is in the store with its
    /// exact count, no date repeats, and nothing left out ranks above
    /// anything returned. The in-memory store cannot fail this query; the
    /// error variant exists for callers that must handle a failing store.
    pub fn top_n(&self, n: usize) -> (r: Result<Vec<FetchRecord>, StoreError>)
        requires
            self.wf(),
        ensures
            r is Ok,
            r matches Ok(top) ==> top@.len() == (if n <= self.records@.len() {
                n as int
            } else {
                self.records@.len() as int
            }),
            r matches Ok(top) ==> sorted_by_rank(top@) && distinct_keys(top@) && wf_records(top@),
            r matches Ok(top) ==> forall|i: int|
                0 <= i < top@.len() ==> self@.contains_key((#[trigger] top@[i]).date.key())
                    && top@[i].fetch_count as nat == self@[top@[i].date.key()],
            r matches Ok(top) ==> forall|i: int, j: int|
                0 <= i < top@.len() && 0 <= j < self.records@.len() && !has_key(
                    top@,
                    (#[trigger] self.records@[j]).date.key(),
                ) ==> rank_leq(#[trigger] top@[i], self.records@[j]),
    {
        let sorted = sort_by_rank(&self.records);
        let m: usize = if n <= sorted.len() {
            n
        } else {
            sorted.len()
        };
        let mut top: Vec<FetchRecord> = Vec::new();
        let mut i: usize = 0;
        while i < m
            invariant
                i <= m,
                m <= sorted@.len(),
                top@ =~= sorted@.subrange(0, i as int),
            decreases m - i,
        {
            top.push(sorted[i]);
            proof {
                assert(sorted@.subrange(0, i as int + 1) =~= sorted@.subrange(
                    0,
                    i as int,
                ).push(sorted@[i as int]));
            }
            i += 1;
        }
        proof {
            let s = self.records@;
            let t = top@;
            assert(t =~= sorted@.subrange(0, m as int));
            assert forall|p: int, q: int|
                0 <= p < s.len() && 0 <= q < s.len() && p != q implies s[p] != s[q] by {
                if s[p] == s[q] {
                    assert(s[p].date.key() == s[q].date.key());
                }
            }
            s.lemma_multiset_has_no_duplicates();
            sorted@.lemma_multiset_has_no_duplicates_conv();
            assert forall|i2: int| 0 <= i2 < t.len() implies self@.contains_key(
                (#[trigger] t[i2]).date.key(),
            ) && t[i2].fetch_count as nat == self@[t[i2].date.key()] by {
                assert(sorted@.contains(sorted@[i2]));
                assert(s.to_multiset().contains(t[i2]));
                assert(s.contains(t[i2]));
                let j = choose|j: int| 0 <= j < s.len() && s[j] == t[i2];
                lemma_seq_counts_at(s, j);
            }
            assert forall|p: int, q: int| 0 <= p < q < t.len() implies t[p].date.key()
                != t[q].date.key() by {
                assert(t[p] == sorted@[p] && t[q] == sorted@[q]);
                assert(sorted@[p] != sorted@[q]);
                assert(sorted@.contains(sorted@[p]) && sorted@.contains(sorted@[q]));
                assert(s.to_multiset().contains(t[p]) && s.to_multiset().contains(t[q]));
                assert(s.contains(t[p]) && s.contains(t[q]));
                let jp = choose|j: int| 0 <= j < s.len() && s[j] == t[p];
                let jq = choose|j: int| 0 <= j < s.len() && s[j] == t[q];
                assert(jp != jq);
            }
            assert forall|i2: int, j: int|
                0 <= i2 < t.len() && 0 <= j < s.len() && !has_key(
                    t,
                    (#[trigger] s[j]).date.key(),
                ) implies rank_leq(#[trigger] t[i2], s[j]) by {
                assert(s.contains(s[j]));
                assert(sorted@.to_multiset().contains(s[j]));
                assert(sorted@.contains(s[j]));
                let p = choose|p: int| 0 <= p < sorted@.len() && sorted@[p] == s[j];
                if p < m {
                    assert(t[p].date.key() == s[j].date.key());
                    assert(has_key(t, s[j].date.key()));
                } else {
                    assert(t[i2] == sorted@[i2]);
                    assert(rank_leq(sorted@[i2], sorted@[p]));
                }
            }
        }
        Ok(top)
    }
}

} // verus!
