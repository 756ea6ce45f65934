//! The memtable: the in-memory sorted write set.
//!
//! Entries are kept strictly sorted by key; a put overwrites any prior
//! entry for the same key.  The table accumulates an approximate byte size
//! (`key + value + 16` per put) and reports itself full once that reaches
//! its budget, which drives the flush pipeline.

use vstd::prelude::*;
use vstd::pervasive::VecAdditionalExecFns;
use vstd::string::StringExecFns;
use crate::error::StorageError;
use crate::keyorder::{compare_keys, lemma_lex_total, lemma_lex_trans, lex_leq, lex_less, KeyCmp};

verus! {

/// The mathematical image of a row of keyed records.
pub open spec fn kv_models(s: Seq<(Vec<u8>, Vec<u8>, u64)>) -> Seq<(Seq<u8>, Seq<u8>, u64)> {
    s.map_values(|e: (Vec<u8>, Vec<u8>, u64)| (e.0@, e.1@, e.2))
}

/// Strict key-sortedness of a row of records.
pub open spec fn sorted_by_key(s: Seq<(Vec<u8>, Vec<u8>, u64)>) -> bool {
    forall|i: int, j: int| 0 <= i < j < s.len() ==> lex_less(s[i].0@, s[j].0@)
}

/// Strict key-sortedness, stated of the mathematical image.
pub open spec fn sorted_kv_models(s: Seq<(Seq<u8>, Seq<u8>, u64)>) -> bool {
    forall|i: int, j: int| 0 <= i < j < s.len() ==> lex_less(s[i].0, s[j].0)
}

/// In-memory sorted map from key to (value, timestamp).
pub struct MemTable {
    /// The records, strictly ascending by key.
    pub entries: Vec<(Vec<u8>, Vec<u8>, u64)>,
    /// Approximate accumulated size: `key + value + 16` per put.
    pub approx_bytes: usize,
    /// The budget: at this size the table reports itself full.
    pub max_size: usize,
}

impl MemTable {
    /// Keys are strictly sorted, hence unique, and the size estimate never
    /// undercounts the records' encoded bytes.
    pub open spec fn wf(self) -> bool {
        &&& sorted_by_key(self.entries@)
        &&& spec_kv_bytes(kv_models(self.entries@)) <= self.approx_bytes
    }

    /// Whether a record for `k` is present.
    pub open spec fn spec_contains(self, k: Seq<u8>) -> bool {
        lookup(self.entries@, k) is Some
    }

    /// The map the table represents.
    pub open spec fn spec_get(self, k: Seq<u8>) -> Option<(Seq<u8>, u64)> {
        lookup(self.entries@, k)
    }

    /// An empty table with the given byte budget.
    pub fn new(max_size: usize) -> (m: MemTable)
        ensures
            m.wf(),
            m.entries@.len() == 0,
            m.approx_bytes == 0,
            m.max_size == max_size,
    {
        MemTable { entries: Vec::new(), approx_bytes: 0, max_size }
    }

    /// Number of records.
    pub fn len(&self) -> (n: usize)
        ensures
            n == self.entries@.len(),
    {
        self.entries.len()
    }

    /// Whether the table holds no records.
    pub fn is_empty(&self) -> (r: bool)
        ensures
            r == (self.entries@.len() == 0),
    {
        self.entries.len() == 0
    }

    /// The accumulated approximate size in bytes.
    pub fn size_bytes(&self) -> (n: usize)
        ensures
            n == self.approx_bytes,
    {
        self.approx_bytes
    }

    /// Insert or overwrite the record for `key`.  Returns whether the table
    /// is full: the accumulated size has reached the budget.  Each put adds
    /// `key + value + 16` to the accumulated size; only a size beyond what a
    /// machine can address is refused.
    pub fn put(&mut self, key: Vec<u8>, value: Vec<u8>, timestamp: u64) -> (r: Result<
        bool,
        StorageError,
    >)
        requires
            old(self).wf(),
        ensures
            final(self).wf(),
            r matches Ok(full) ==> {
                &&& final(self).spec_get(key@) == Some((value@, timestamp))
                &&& forall|k: Seq<u8>|
                    k != key@ ==> final(self).spec_get(k) == old(self).spec_get(k)
                &&& final(self).approx_bytes == old(self).approx_bytes + key@.len()
                    + value@.len() + 16
                &&& full == (final(self).approx_bytes >= final(self).max_size)
                &&& final(self).max_size == old(self).max_size
                &&& old(self).spec_contains(key@) ==> final(self).entries@.len() == old(self).entries@.len()
                &&& !old(self).spec_contains(key@) ==> final(self).entries@.len() == old(self).entries@.len() + 1
                &&& forall|j: int|
                    0 <= j < final(self).entries@.len() ==> (((#[trigger] final(self).entries@[j]).0@ == key@ && final(self).entries@[j].1@ == value@ && final(self).entries@[j].2 == timestamp) || (exists|l: int|
                        0 <= l < old(self).entries@.len() && (#[trigger] old(self).entries@[l])
                            == final(self).entries@[j]))
                &&& spec_kv_bytes(kv_models(final(self).entries@)) <= spec_kv_bytes(
                    kv_models(old(self).entries@),
                ) + 14 + key@.len() + value@.len()
            },
            r is Err ==> *final(self) == *old(self),
            r is Ok <==> key@.len() + value@.len() + 16 <= usize::MAX && old(self).approx_bytes
                + key@.len() + value@.len() + 16 <= usize::MAX,
    {
        if key.len() > usize::MAX - 16 || value.len() > usize::MAX - 16 - key.len() {
            return Err(StorageError::InvalidFormat(String::from_str("Entry too large")));
        }
        let contribution = key.len() + value.len() + 16;
        if self.approx_bytes > usize::MAX - contribution {
            return Err(StorageError::InvalidFormat(String::from_str("MemTable size overflow")));
        }
        let n = self.entries.len();
        let (i, found) = find_slot(&self.entries, &key);
        if found {
            let ghost pre = self.entries@;
            let ghost key_view = key@;
            let ghost value_view = value@;
            self.entries.set(i, (key, value, timestamp));
            self.approx_bytes = self.approx_bytes + contribution;
            proof {
                let post = self.entries@;
                assert(post[i as int].0@ == pre[i as int].0@);
                assert forall|p: int, q: int|
                    0 <= p < q < post.len() implies lex_less(post[p].0@, post[q].0@) by {
                    assert(lex_less(pre[p].0@, pre[q].0@));
                }
                assert(post[i as int].0@ == key_view);
                lemma_sorted_unique(pre);
                lemma_sorted_unique(post);
                let w = choose|w: int| 0 <= w < post.len() && (#[trigger] post[w]).0@ == key_view;
                assert(w == i);
                assert(lookup(post, key_view) == Some((value_view, timestamp)));
                assert forall|k: Seq<u8>| k != key_view implies lookup(post, k) == lookup(
                    pre,
                    k,
                ) by {
                    lemma_same_lookup(pre, post, k, i as int);
                }
                assert(kv_models(post) =~= kv_models(pre).update(
                    i as int,
                    (key_view, value_view, timestamp),
                ));
                lemma_kv_bytes_update(kv_models(pre), i as int, (key_view, value_view, timestamp));
            }
            return Ok(self.approx_bytes >= self.max_size);
        }
        // No record for `key` yet; it belongs at position `i`.
        let ghost pre = self.entries@;
        let ghost key_view = key@;
        let ghost value_view = value@;
        self.entries.insert(i, (key, value, timestamp));
        self.approx_bytes = self.approx_bytes + contribution;
        proof {
            pre.insert_ensures(i as int, (key, value, timestamp));
            let post = self.entries@;
            assert(post =~= pre.insert(i as int, (key, value, timestamp)));
            assert forall|p: int, q: int|
                0 <= p < q < post.len() implies lex_less(post[p].0@, post[q].0@) by {
                if q < i {
                    assert(lex_less(pre[p].0@, pre[q].0@));
                } else if q == i {
                    assert(post[q].0@ == key@);
                    assert(lex_less(pre[p].0@, key@));
                } else if p == i {
                    assert(post[p].0@ == key@);
                    assert(post[q] == pre[q - 1]);
                    if i < n {
                        if q - 1 == i {
                            assert(lex_less(key@, pre[i as int].0@));
                        } else {
                            lemma_lex_trans(key@, pre[i as int].0@, pre[q - 1].0@);
                        }
                    }
                } else if p < i {
                    assert(post[q] == pre[q - 1]);
                    assert(lex_less(pre[p].0@, pre[q - 1].0@));
                } else {
                    assert(post[p] == pre[p - 1]);
                    assert(post[q] == pre[q - 1]);
                    assert(lex_less(pre[p - 1].0@, pre[q - 1].0@));
                }
            }
            assert forall|j: int| 0 <= j < pre.len() implies (#[trigger] pre[j]).0@
                != key_view by {
                if j < i {
                    lemma_lex_total(pre[j].0@, key_view);
                } else if j == i {
                    lemma_lex_total(key_view, pre[j].0@);
                } else {
                    assert(lex_less(pre[i as int].0@, pre[j].0@));
                    lemma_lex_trans(key_view, pre[i as int].0@, pre[j].0@);
                    lemma_lex_total(key_view, pre[j].0@);
                }
            }
            assert(lookup(pre, key_view) is None);
            assert(post[i as int].0@ == key_view);
            lemma_sorted_unique(post);
            let w = choose|w: int| 0 <= w < post.len() && (#[trigger] post[w]).0@ == key_view;
            assert(w == i);
            assert(lookup(post, key_view) == Some((value_view, timestamp)));
            assert forall|k: Seq<u8>| k != key_view implies lookup(post, k) == lookup(
                pre,
                k,
            ) by {
                lemma_insert_lookup(pre, post, k, i as int);
            }
            assert(kv_models(post) =~= kv_models(pre).insert(
                i as int,
                (key_view, value_view, timestamp),
            ));
            lemma_kv_bytes_insert(kv_models(pre), i as int, (key_view, value_view, timestamp));
        }
        Ok(self.approx_bytes >= self.max_size)
    }

    /// Look a key up; a present record's value is returned as a copy.
    pub fn get(&self, key: &Vec<u8>) -> (r: Option<Vec<u8>>)
        requires
            self.wf(),
        ensures
            r matches Some(v) ==> self.spec_get(key@) matches Some(p) && p.0 == v@,
            r is None ==> !self.spec_contains(key@),
    {
        match self.get_with_timestamp(key) {
            Some((v, _ts)) => Some(v),
            None => None,
        }
    }

    /// The (value, timestamp) stored for a key, if any.
    pub fn get_with_timestamp(&self, key: &Vec<u8>) -> (r: Option<(Vec<u8>, u64)>)
        requires
            self.wf(),
        ensures
            r matches Some(v) ==> self.spec_get(key@) == Some((v.0@, v.1)),
            r is None ==> !self.spec_contains(key@),
    {
        let n = self.entries.len();
        let mut i: usize = 0;
        while i < n
            invariant
                n == self.entries@.len(),
                i <= n,
                forall|j: int| 0 <= j < i ==> (#[trigger] self.entries@[j]).0@ != key@,
                self.wf(),
            decreases n - i,
        {
            let c = compare_keys(&self.entries[i].0, key);
            if let KeyCmp::Eq = c {
                let v = self.entries[i].1.clone();
                let ts = self.entries[i].2;
                proof {
                    let s = self.entries@;
                    assert(s[i as int].0@ == key@);
                    lemma_sorted_unique(s);
                    let w = choose|w: int| 0 <= w < s.len() && (#[trigger] s[w]).0@ == key@;
                    assert(w == i);
                    assert(v@ =~= s[i as int].1@);
                    assert(lookup(s, key@) == Some((v@, ts)));
                }
                return Some((v, ts));
            }
            i = i + 1;
        }
        None
    }

    /// Every record, in key order, with its timestamp.
    pub fn entries_with_timestamps(&self) -> (r: Vec<(Vec<u8>, Vec<u8>, u64)>)
        requires
            self.wf(),
        ensures
            kv_models(r@) == kv_models(self.entries@),
            sorted_by_key(r@),
    {
        let n = self.entries.len();
        let mut out: Vec<(Vec<u8>, Vec<u8>, u64)> = Vec::new();
        let mut i: usize = 0;
        while i < n
            invariant
                n == self.entries@.len(),
                i <= n,
                self.wf(),
                kv_models(out@) == kv_models(self.entries@.take(i as int)),
                out@.len() == i,
            decreases n - i,
        {
            let e = clone_record(&self.entries, i);
            out.push(e);
            proof {
                assert(self.entries@.take(i as int + 1) =~= self.entries@.take(i as int).push(
                    self.entries@[i as int],
                ));
                assert(kv_models(out@) =~= kv_models(self.entries@.take(i as int)).push(
                    (
                        self.entries@[i as int].0@,
                        self.entries@[i as int].1@,
                        self.entries@[i as int].2,
                    ),
                ));
                assert(kv_models(self.entries@.take(i as int + 1)) =~= kv_models(
                    self.entries@.take(i as int),
                ).push(
                    (
                        self.entries@[i as int].0@,
                        self.entries@[i as int].1@,
                        self.entries@[i as int].2,
                    ),
                ));
            }
            i = i + 1;
        }
        proof {
            assert(self.entries@.take(n as int) =~= self.entries@);
            assert forall|p: int, q: int|
                0 <= p < q < out@.len() implies lex_less(out@[p].0@, out@[q].0@) by {
                assert(kv_models(out@)[p] == kv_models(self.entries@)[p]);
                assert(kv_models(out@)[q] == kv_models(self.entries@)[q]);
                assert(lex_less(self.entries@[p].0@, self.entries@[q].0@));
            }
        }
        out
    }

    /// Every record with `start ≤ key < end`, in key order.  An empty range
    /// — `start` not below `end` — yields nothing.
    pub fn scan_with_timestamps(&self, start: &Vec<u8>, end: &Vec<u8>) -> (r: Vec<
        (Vec<u8>, Vec<u8>, u64),
    >)
        requires
            self.wf(),
        ensures
            kv_models(r@) == kv_models(self.entries@).filter(
                |e: (Seq<u8>, Seq<u8>, u64)| lex_leq(start@, e.0) && lex_less(e.0, end@),
            ),
            !lex_less(start@, end@) ==> r@.len() == 0,
    {
        scan_range(&self.entries, start, end)
    }
}

/// The records of a row with `start ≤ key < end`, in stored order.  An
/// empty range — `start` not below `end` — yields nothing.
pub fn scan_range(entries: &Vec<(Vec<u8>, Vec<u8>, u64)>, start: &Vec<u8>, end: &Vec<u8>) -> (r:
    Vec<(Vec<u8>, Vec<u8>, u64)>)
    ensures
        kv_models(r@) == kv_models(entries@).filter(
            |e: (Seq<u8>, Seq<u8>, u64)| lex_leq(start@, e.0) && lex_less(e.0, end@),
        ),
        !lex_less(start@, end@) ==> r@.len() == 0,
{
    let ghost pred = |e: (Seq<u8>, Seq<u8>, u64)| lex_leq(start@, e.0) && lex_less(e.0, end@);
    let n = entries.len();
    let mut out: Vec<(Vec<u8>, Vec<u8>, u64)> = Vec::new();
    let mut i: usize = 0;
    proof {
        assert(kv_models(entries@.take(0)) =~= Seq::<(Seq<u8>, Seq<u8>, u64)>::empty());
        assert(kv_models(out@) =~= kv_models(entries@.take(0)).filter(pred));
    }
    while i < n
        invariant
            n == entries@.len(),
            i <= n,
            kv_models(out@) == kv_models(entries@.take(i as int)).filter(pred),
            forall|e: (Seq<u8>, Seq<u8>, u64)| #[trigger]
                pred(e) == (lex_leq(start@, e.0) && lex_less(e.0, end@)),
        decreases n - i,
    {
        let c_lo = compare_keys(start, &entries[i].0);
        let in_lo = match c_lo {
            KeyCmp::Gt => false,
            _ => true,
        };
        let c_hi = compare_keys(&entries[i].0, end);
        let in_hi = match c_hi {
            KeyCmp::Lt => true,
            _ => false,
        };
        let ghost m = (entries@[i as int].0@, entries@[i as int].1@, entries@[i as int].2);
        proof {
            assert(entries@.take(i as int + 1) =~= entries@.take(i as int).push(
                entries@[i as int],
            ));
            assert(kv_models(entries@.take(i as int + 1)) =~= kv_models(
                entries@.take(i as int),
            ).push(m));
            reveal_kv_filter_push(kv_models(entries@.take(i as int)), m, pred);
            assert((in_lo && in_hi) == pred(m));
        }
        if in_lo && in_hi {
            let e = clone_record(entries, i);
            out.push(e);
            proof {
                assert(kv_models(out@) =~= kv_models(entries@.take(i as int)).filter(pred).push(
                    m,
                ));
            }
        }
        i = i + 1;
    }
    proof {
        assert(entries@.take(n as int) =~= entries@);
        if !lex_less(start@, end@) {
            let models = kv_models(entries@).filter(pred);
            kv_models(entries@).filter_lemma(pred);
            if models.len() > 0 {
                assert(pred(models[0]));
                lemma_lex_total(start@, models[0].0);
                if lex_less(start@, models[0].0) {
                    lemma_lex_trans(start@, models[0].0, end@);
                }
                assert(false);
            }
        }
    }
    out
}

/// Where `key` sits in a sorted row: the index of its record when present
/// (second component true), else the position where it would be inserted.
pub(crate) fn find_slot(entries: &Vec<(Vec<u8>, Vec<u8>, u64)>, key: &Vec<u8>) -> (r: (
    usize,
    bool,
))
    requires
        sorted_by_key(entries@),
    ensures
        r.0 <= entries@.len(),
        forall|j: int| 0 <= j < r.0 ==> lex_less((#[trigger] entries@[j]).0@, key@),
        r.1 ==> r.0 < entries@.len() && entries@[r.0 as int].0@ == key@,
        !r.1 && r.0 < entries@.len() ==> lex_less(key@, entries@[r.0 as int].0@),
{
    let n = entries.len();
    let mut i: usize = 0;
    while i < n
        invariant
            sorted_by_key(entries@),
            n == entries@.len(),
            i <= n,
            forall|j: int| 0 <= j < i ==> lex_less((#[trigger] entries@[j]).0@, key@),
        decreases n - i,
    {
        let c = compare_keys(&entries[i].0, key);
        match c {
            KeyCmp::Lt => {
                i = i + 1;
            },
            KeyCmp::Eq => {
                return (i, true);
            },
            KeyCmp::Gt => {
                return (i, false);
            },
        }
    }
    (i, false)
}

/// Keys of a sorted row are pairwise distinct.
pub proof fn lemma_sorted_unique(s: Seq<(Vec<u8>, Vec<u8>, u64)>)
    requires
        sorted_by_key(s),
    ensures
        forall|p: int, q: int|
            0 <= p < q < s.len() ==> (#[trigger] s[p]).0@ != (#[trigger] s[q]).0@,
{
    assert forall|p: int, q: int|
        0 <= p < q < s.len() implies (#[trigger] s[p]).0@ != (#[trigger] s[q]).0@ by {
        assert(lex_less(s[p].0@, s[q].0@));
        lemma_lex_total(s[p].0@, s[q].0@);
    }
}

/// The bytes a row of record models takes in the block format: fourteen
/// fixed bytes plus key and value, per record.
pub open spec fn spec_kv_bytes(s: Seq<(Seq<u8>, Seq<u8>, u64)>) -> int
    decreases s.len(),
{
    if s.len() == 0 {
        0
    } else {
        spec_kv_bytes(s.drop_last()) + 14 + s.last().0.len() + s.last().1.len()
    }
}

/// Row bytes are never negative.
pub proof fn lemma_kv_bytes_nonneg(s: Seq<(Seq<u8>, Seq<u8>, u64)>)
    ensures
        spec_kv_bytes(s) >= 0,
    decreases s.len(),
{
    if s.len() > 0 {
        lemma_kv_bytes_nonneg(s.drop_last());
    }
}

/// Concatenation adds row bytes.
pub proof fn lemma_kv_bytes_concat(a: Seq<(Seq<u8>, Seq<u8>, u64)>, b: Seq<(Seq<u8>, Seq<u8>, u64)>)
    ensures
        spec_kv_bytes(a + b) == spec_kv_bytes(a) + spec_kv_bytes(b),
    decreases b.len(),
{
    if b.len() == 0 {
        assert(a + b =~= a);
    } else {
        assert((a + b).drop_last() =~= a + b.drop_last());
        assert((a + b).last() == b.last());
        lemma_kv_bytes_concat(a, b.drop_last());
    }
}

/// A prefix never outweighs the whole row.
pub proof fn lemma_kv_bytes_prefix(s: Seq<(Seq<u8>, Seq<u8>, u64)>, i: int)
    requires
        0 <= i <= s.len(),
    ensures
        spec_kv_bytes(s.take(i)) <= spec_kv_bytes(s),
{
    assert(s.take(i) + s.skip(i) =~= s);
    lemma_kv_bytes_concat(s.take(i), s.skip(i));
    lemma_kv_bytes_nonneg(s.skip(i));
}

/// Replacing one record changes the row bytes by the difference of the
/// two records.
pub proof fn lemma_kv_bytes_update(s: Seq<(Seq<u8>, Seq<u8>, u64)>, i: int, e: (Seq<u8>, Seq<u8>, u64))
    requires
        0 <= i < s.len(),
    ensures
        spec_kv_bytes(s.update(i, e)) == spec_kv_bytes(s) - (14 + s[i].0.len() + s[i].1.len()) + (
        14 + e.0.len() + e.1.len()),
    decreases s.len(),
{
    if i == s.len() - 1 {
        assert(s.update(i, e).drop_last() =~= s.drop_last());
        assert(s.update(i, e).last() == e);
    } else {
        assert(s.update(i, e).drop_last() =~= s.drop_last().update(i, e));
        assert(s.update(i, e).last() == s.last());
        lemma_kv_bytes_update(s.drop_last(), i, e);
    }
}

/// Inserting one record adds its bytes.
pub proof fn lemma_kv_bytes_insert(s: Seq<(Seq<u8>, Seq<u8>, u64)>, i: int, e: (Seq<u8>, Seq<u8>, u64))
    requires
        0 <= i <= s.len(),
    ensures
        spec_kv_bytes(s.insert(i, e)) == spec_kv_bytes(s) + 14 + e.0.len() + e.1.len(),
    decreases s.len(),
{
    if i == s.len() {
        assert(s.insert(i, e).drop_last() =~= s);
        assert(s.insert(i, e).last() == e);
    } else {
        assert(s.insert(i, e).drop_last() =~= s.drop_last().insert(i, e));
        assert(s.insert(i, e).last() == s.last());
        lemma_kv_bytes_insert(s.drop_last(), i, e);
    }
}

/// What a row of record models stores for a key.
pub open spec fn lookup_kv(s: Seq<(Seq<u8>, Seq<u8>, u64)>, k: Seq<u8>) -> Option<(Seq<u8>, u64)> {
    if exists|i: int| 0 <= i < s.len() && (#[trigger] s[i]).0 == k {
        let i = choose|i: int| 0 <= i < s.len() && (#[trigger] s[i]).0 == k;
        Some((s[i].1, s[i].2))
    } else {
        None
    }
}

/// On a sorted row, looking a key up through the mathematical image gives
/// the same answer.
pub proof fn lemma_lookup_models(v: Seq<(Vec<u8>, Vec<u8>, u64)>, k: Seq<u8>)
    requires
        sorted_by_key(v),
    ensures
        lookup(v, k) == lookup_kv(kv_models(v), k),
{
    lemma_sorted_unique(v);
    if exists|i: int| 0 <= i < v.len() && (#[trigger] v[i]).0@ == k {
        let i = choose|i: int| 0 <= i < v.len() && (#[trigger] v[i]).0@ == k;
        assert(kv_models(v)[i].0 == k);
        let j = choose|j: int| 0 <= j < kv_models(v).len() && (#[trigger] kv_models(v)[j]).0 == k;
        assert(v[j].0@ == k);
        assert(j == i);
        assert(lookup_kv(kv_models(v), k) == Some((v[i].1@, v[i].2)));
    } else {
        if exists|j: int| 0 <= j < kv_models(v).len() && (#[trigger] kv_models(v)[j]).0 == k {
            let j = choose|j: int|
                0 <= j < kv_models(v).len() && (#[trigger] kv_models(v)[j]).0 == k;
            assert(v[j].0@ == k);
            assert(false);
        }
    }
}

/// Two sorted rows with the same record models answer every lookup alike.
pub proof fn lemma_lookup_congruent(a: Seq<(Vec<u8>, Vec<u8>, u64)>, b: Seq<(Vec<u8>, Vec<u8>, u64)>, k: Seq<u8>)
    requires
        sorted_by_key(a),
        sorted_by_key(b),
        kv_models(a) == kv_models(b),
    ensures
        lookup(a, k) == lookup(b, k),
{
    lemma_lookup_models(a, k);
    lemma_lookup_models(b, k);
}

/// Records other than the one at `at` look up the same in both rows.
pub(crate) proof fn lemma_same_lookup(
    pre: Seq<(Vec<u8>, Vec<u8>, u64)>,
    post: Seq<(Vec<u8>, Vec<u8>, u64)>,
    k: Seq<u8>,
    at: int,
)
    requires
        pre.len() == post.len(),
        0 <= at < pre.len(),
        forall|j: int| 0 <= j < pre.len() && j != at ==> pre[j] == post[j],
        pre[at].0@ == post[at].0@,
        k != pre[at].0@,
        forall|p: int, q: int|
            0 <= p < q < pre.len() ==> (#[trigger] pre[p]).0@ != (#[trigger] pre[q]).0@,
        forall|p: int, q: int|
            0 <= p < q < post.len() ==> (#[trigger] post[p]).0@ != (#[trigger] post[q]).0@,
    ensures
        lookup(post, k) == lookup(pre, k),
{
    if exists|i: int| 0 <= i < pre.len() && (#[trigger] pre[i]).0@ == k {
        let i = choose|i: int| 0 <= i < pre.len() && (#[trigger] pre[i]).0@ == k;
        assert(i != at);
        assert(post[i].0@ == k);
        let j = choose|j: int| 0 <= j < post.len() && (#[trigger] post[j]).0@ == k;
        assert(j == i);
        assert(lookup(pre, k) == Some((pre[i].1@, pre[i].2)));
        assert(lookup(post, k) == Some((post[i].1@, post[i].2)));
    } else {
        if exists|i: int| 0 <= i < post.len() && (#[trigger] post[i]).0@ == k {
            let i = choose|i: int| 0 <= i < post.len() && (#[trigger] post[i]).0@ == k;
            assert(i != at);
            assert(pre[i].0@ == k);
            assert(false);
        }
    }
}

/// What a row of records stores for a key.
pub open spec fn lookup(s: Seq<(Vec<u8>, Vec<u8>, u64)>, k: Seq<u8>) -> Option<(Seq<u8>, u64)> {
    if exists|i: int| 0 <= i < s.len() && (#[trigger] s[i]).0@ == k {
        let i = choose|i: int| 0 <= i < s.len() && (#[trigger] s[i]).0@ == k;
        Some((s[i].1@, s[i].2))
    } else {
        None
    }
}

/// A row with one fresh record inserted looks up the same for other keys.
pub(crate) proof fn lemma_insert_lookup(
    pre: Seq<(Vec<u8>, Vec<u8>, u64)>,
    post: Seq<(Vec<u8>, Vec<u8>, u64)>,
    k: Seq<u8>,
    at: int,
)
    requires
        0 <= at <= pre.len(),
        post.len() == pre.len() + 1,
        forall|j: int| 0 <= j < at ==> post[j] == pre[j],
        forall|j: int| at <= j < pre.len() ==> post[j + 1] == pre[j],
        k != post[at].0@,
        forall|p: int, q: int|
            0 <= p < q < post.len() ==> (#[trigger] post[p]).0@ != (#[trigger] post[q]).0@,
    ensures
        lookup(post, k) == lookup(pre, k),
{
    if exists|i: int| 0 <= i < pre.len() && (#[trigger] pre[i]).0@ == k {
        let i = choose|i: int| 0 <= i < pre.len() && (#[trigger] pre[i]).0@ == k;
        let ghost ip = if i < at {
            i
        } else {
            i + 1
        };
        assert(post[ip].0@ == k);
        assert(post[ip] == pre[i]);
        let j = choose|j: int| 0 <= j < post.len() && (#[trigger] post[j]).0@ == k;
        assert(j == ip);
        assert(lookup(pre, k) == Some((pre[i].1@, pre[i].2)));
        assert(lookup(post, k) == Some((post[ip].1@, post[ip].2)));
    } else {
        if exists|i: int| 0 <= i < post.len() && (#[trigger] post[i]).0@ == k {
            let i = choose|i: int| 0 <= i < post.len() && (#[trigger] post[i]).0@ == k;
            assert(i != at);
            if i < at {
                assert(pre[i].0@ == k);
            } else {
                assert(pre[i - 1].0@ == k);
            }
            assert(false);
        }
    }
}

/// Every element a filter keeps is an element of the original row.
pub proof fn lemma_filter_elements(
    s: Seq<(Seq<u8>, Seq<u8>, u64)>,
    pred: spec_fn((Seq<u8>, Seq<u8>, u64)) -> bool,
)
    ensures
        forall|i: int|
            0 <= i < s.filter(pred).len() ==> exists|w: int|
                0 <= w < s.len() && s[w] == #[trigger] s.filter(pred)[i],
    decreases s.len(),
{
    reveal(Seq::filter);
    if s.len() > 0 {
        lemma_filter_elements(s.drop_last(), pred);
        assert forall|i: int|
            0 <= i < s.filter(pred).len() implies exists|w: int|
            0 <= w < s.len() && s[w] == #[trigger] s.filter(pred)[i] by {
            if pred(s.last()) && i == s.filter(pred).len() - 1 {
                assert(s[s.len() - 1] == s.filter(pred)[i]);
            } else {
                assert(s.filter(pred)[i] == s.drop_last().filter(pred)[i]);
                let w = choose|w: int|
                    0 <= w < s.drop_last().len() && s.drop_last()[w] == s.drop_last().filter(
                        pred,
                    )[i];
                assert(s[w] == s.filter(pred)[i]);
            }
        }
    }
}

/// A filter of a strictly sorted row stays strictly sorted.
pub proof fn lemma_filter_sorted(
    s: Seq<(Seq<u8>, Seq<u8>, u64)>,
    pred: spec_fn((Seq<u8>, Seq<u8>, u64)) -> bool,
)
    requires
        sorted_kv_models(s),
    ensures
        sorted_kv_models(s.filter(pred)),
    decreases s.len(),
{
    reveal(Seq::filter);
    if s.len() > 0 {
        assert forall|i: int, j: int|
            0 <= i < j < s.drop_last().len() implies lex_less(
            (#[trigger] s.drop_last()[i]).0,
            (#[trigger] s.drop_last()[j]).0,
        ) by {
            assert(s.drop_last()[i] == s[i]);
            assert(s.drop_last()[j] == s[j]);
        }
        lemma_filter_sorted(s.drop_last(), pred);
        lemma_filter_elements(s.drop_last(), pred);
        let out = s.filter(pred);
        let base = s.drop_last().filter(pred);
        assert forall|i: int, j: int|
            0 <= i < j < out.len() implies lex_less((#[trigger] out[i]).0, (#[trigger] out[j]).0)
            by {
            if pred(s.last()) && j == out.len() - 1 {
                assert(out[i] == base[i]);
                let w = choose|w: int|
                    0 <= w < s.drop_last().len() && s.drop_last()[w] == base[i];
                assert(s[w] == out[i]);
                assert(lex_less(s[w].0, s[s.len() - 1].0));
                assert(out[j] == s.last());
            } else {
                assert(out[i] == base[i]);
                assert(out[j] == base[j]);
            }
        }
    }
}

/// Unfold one step of `filter` on a pushed element.
proof fn reveal_kv_filter_push(
    s: Seq<(Seq<u8>, Seq<u8>, u64)>,
    x: (Seq<u8>, Seq<u8>, u64),
    pred: spec_fn((Seq<u8>, Seq<u8>, u64)) -> bool,
)
    ensures
        s.push(x).filter(pred) == if pred(x) {
            s.filter(pred).push(x)
        } else {
            s.filter(pred)
        },
{
    reveal(Seq::filter);
    assert(s.push(x).drop_last() =~= s);
}

/// Clone the record at `idx`.
pub fn clone_record(records: &Vec<(Vec<u8>, Vec<u8>, u64)>, idx: usize) -> (e: (
    Vec<u8>,
    Vec<u8>,
    u64,
))
    requires
        idx < records@.len(),
    ensures
        e.0@ == records@[idx as int].0@,
        e.1@ == records@[idx as int].1@,
        e.2 == records@[idx as int].2,
{
    let key = records[idx].0.clone();
    let value = records[idx].1.clone();
    let ts = records[idx].2;
    proof {
        assert(key@ =~= records@[idx as int].0@);
        assert(value@ =~= records@[idx as int].1@);
    }
    (key, value, ts)
}

} // verus!
