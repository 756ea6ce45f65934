//! Size-tiered compaction: merging sorted runs into one.
//!
//! The merge walks the input tables oldest to newest and keeps, for every
//! key, the record with the newest timestamp; a timestamp tie goes to the
//! more recent table.  The output is a single strictly-sorted run with
//! exactly one record per key.

use vstd::prelude::*;
use vstd::pervasive::VecAdditionalExecFns;
use crate::error::StorageError;
use crate::keyorder::{lemma_lex_total, lemma_lex_trans, lex_less, KeyCmp};
use crate::block::{all_brecords_encodable, brecord_encodable};
use crate::memtable::{
    clone_record, find_slot, kv_models, lemma_insert_lookup, lemma_kv_bytes_insert,
    lemma_kv_bytes_update, lemma_same_lookup, lemma_sorted_unique, lookup, sorted_by_key,
    spec_kv_bytes,
};
use crate::sstable::{write_sorted_run, SsTableFile, SsTableReader};

verus! {

/// Counters describing one compaction run.
#[derive(Debug, Clone)]
pub struct CompactionStats {
    pub input_sstables: usize,
    pub input_bytes: u64,
    pub output_bytes: u64,
    pub entries_merged: usize,
    pub duplicates_removed: usize,
    pub duration_ms: u64,
}

/// The winner between the record kept so far and a newer candidate: the
/// candidate replaces the holder unless its timestamp is older.
pub open spec fn upd_winner(cur: Option<(Seq<u8>, u64)>, cand: Option<(Seq<u8>, u64)>) -> Option<
    (Seq<u8>, u64),
> {
    match cand {
        None => cur,
        Some(c) => match cur {
            None => Some(c),
            Some(c0) => if c.1 >= c0.1 {
                Some(c)
            } else {
                Some(c0)
            },
        },
    }
}

/// What a key resolves to across a row of runs, oldest first: the record
/// with the newest timestamp, ties going to the later run.
pub open spec fn spec_merge_get(inputs: Seq<Vec<(Vec<u8>, Vec<u8>, u64)>>, k: Seq<u8>) -> Option<
    (Seq<u8>, u64),
>
    decreases inputs.len(),
{
    if inputs.len() == 0 {
        None
    } else {
        upd_winner(spec_merge_get(inputs.drop_last(), k), lookup(inputs.last()@, k))
    }
}

/// The records of a row of runs, as models.
pub open spec fn runs_models(rows: Seq<Vec<(Vec<u8>, Vec<u8>, u64)>>) -> Seq<
    Seq<(Seq<u8>, Seq<u8>, u64)>,
> {
    rows.map_values(|r: Vec<(Vec<u8>, Vec<u8>, u64)>| kv_models(r@))
}

/// Total record count across a row of runs.
pub open spec fn spec_runs_len(runs: Seq<Seq<(Seq<u8>, Seq<u8>, u64)>>) -> int
    decreases runs.len(),
{
    if runs.len() == 0 {
        0
    } else {
        spec_runs_len(runs.drop_last()) + runs.last().len()
    }
}

/// Total encoded bytes across a row of runs.
pub open spec fn spec_runs_bytes(runs: Seq<Seq<(Seq<u8>, Seq<u8>, u64)>>) -> int
    decreases runs.len(),
{
    if runs.len() == 0 {
        0
    } else {
        spec_runs_bytes(runs.drop_last()) + spec_kv_bytes(runs.last())
    }
}

/// Every record of every run fits the block format.
pub open spec fn runs_all_encodable(runs: Seq<Seq<(Seq<u8>, Seq<u8>, u64)>>) -> bool {
    forall|t: int| 0 <= t < runs.len() ==> all_brecords_encodable(#[trigger] runs[t])
}

/// Insert a record into a sorted accumulator, keeping the newer timestamp
/// on collision (the candidate wins a tie).
fn upsert_newest(acc: &mut Vec<(Vec<u8>, Vec<u8>, u64)>, entry: (Vec<u8>, Vec<u8>, u64))
    requires
        sorted_by_key(old(acc)@),
    ensures
        sorted_by_key(final(acc)@),
        lookup(final(acc)@, entry.0@) == upd_winner(
            lookup(old(acc)@, entry.0@),
            Some((entry.1@, entry.2)),
        ),
        forall|k: Seq<u8>|
            k != entry.0@ ==> lookup(final(acc)@, k) == lookup(old(acc)@, k),
        final(acc)@.len() <= old(acc)@.len() + 1,
        spec_kv_bytes(kv_models(final(acc)@)) <= spec_kv_bytes(kv_models(old(acc)@)) + 14
            + entry.0@.len() + entry.1@.len(),
        all_brecords_encodable(kv_models(old(acc)@)) && brecord_encodable(
            (entry.0@, entry.1@, entry.2),
        ) ==> all_brecords_encodable(kv_models(final(acc)@)),
{
    let (i, found) = find_slot(acc, &entry.0);
    let ghost pre = acc@;
    let ghost key_view = entry.0@;
    let ghost value_view = entry.1@;
    let ghost ts = entry.2;
    if found {
        proof {
            lemma_sorted_unique(pre);
            let w = choose|w: int| 0 <= w < pre.len() && (#[trigger] pre[w]).0@ == key_view;
            assert(w == i);
            assert(lookup(pre, key_view) == Some((pre[i as int].1@, pre[i as int].2)));
        }
        if entry.2 >= acc[i].2 {
            acc.set(i, entry);
            proof {
                let post = acc@;
                assert(post[i as int].0@ == pre[i as int].0@);
                assert forall|p: int, q: int|
                    0 <= p < q < post.len() implies lex_less(post[p].0@, post[q].0@) by {
                    assert(lex_less(pre[p].0@, pre[q].0@));
                }
                lemma_sorted_unique(post);
                let w = choose|w: int|
                    0 <= w < post.len() && (#[trigger] post[w]).0@ == key_view;
                assert(w == i);
                assert(lookup(post, key_view) == Some((value_view, ts)));
                assert forall|k: Seq<u8>| k != key_view implies lookup(post, k) == lookup(
                    pre,
                    k,
                ) by {
                    lemma_same_lookup(pre, post, k, i as int);
                }
                assert(kv_models(post) =~= kv_models(pre).update(
                    i as int,
                    (key_view, value_view, ts),
                ));
                lemma_kv_bytes_update(kv_models(pre), i as int, (key_view, value_view, ts));
                if all_brecords_encodable(kv_models(pre)) && brecord_encodable(
                    (key_view, value_view, ts),
                ) {
                    assert forall|t: int| 0 <= t < kv_models(post).len() implies brecord_encodable(
                        #[trigger] kv_models(post)[t],
                    ) by {
                        if t != i {
                            assert(kv_models(post)[t] == kv_models(pre)[t]);
                        }
                    }
                }
            }
        }
    } else {
        proof {
            assert forall|j: int| 0 <= j < pre.len() implies (#[trigger] pre[j]).0@
                != key_view by {
                if j < i {
                    lemma_lex_total(pre[j].0@, key_view);
                } else if j == i {
                    lemma_lex_total(key_view, pre[j].0@);
                } else {
                    assert(lex_less(pre[i as int].0@, pre[j].0@));
                    lemma_lex_trans(key_view, pre[i as int].0@, pre[j].0@);
                    lemma_lex_total(key_view, pre[j].0@);
                }
            }
            assert(lookup(pre, key_view) is None);
        }
        acc.insert(i, entry);
        proof {
            pre.insert_ensures(i as int, (entry.0, entry.1, entry.2));
            let post = acc@;
            assert(post =~= pre.insert(i as int, (entry.0, entry.1, entry.2)));
            assert forall|p: int, q: int|
                0 <= p < q < post.len() implies lex_less(post[p].0@, post[q].0@) by {
                if q < i {
                    assert(lex_less(pre[p].0@, pre[q].0@));
                } else if q == i {
                    assert(post[q].0@ == key_view);
                    assert(lex_less(pre[p].0@, key_view));
                } else if p == i {
                    assert(post[p].0@ == key_view);
                    assert(post[q] == pre[q - 1]);
                    if q - 1 == i {
                        assert(lex_less(key_view, pre[i as int].0@));
                    } else {
                        lemma_lex_trans(key_view, pre[i as int].0@, pre[q - 1].0@);
                    }
                } else if p < i {
                    assert(post[q] == pre[q - 1]);
                    assert(lex_less(pre[p].0@, pre[q - 1].0@));
                } else {
                    assert(post[p] == pre[p - 1]);
                    assert(post[q] == pre[q - 1]);
                    assert(lex_less(pre[p - 1].0@, pre[q - 1].0@));
                }
            }
            assert(post[i as int].0@ == key_view);
            lemma_sorted_unique(post);
            let w = choose|w: int| 0 <= w < post.len() && (#[trigger] post[w]).0@ == key_view;
            assert(w == i);
            assert(lookup(post, key_view) == Some((value_view, ts)));
            assert forall|k: Seq<u8>| k != key_view implies lookup(post, k) == lookup(
                pre,
                k,
            ) by {
                lemma_insert_lookup(pre, post, k, i as int);
            }
            assert(kv_models(post) =~= kv_models(pre).insert(
                i as int,
                (key_view, value_view, ts),
            ));
            lemma_kv_bytes_insert(kv_models(pre), i as int, (key_view, value_view, ts));
            if all_brecords_encodable(kv_models(pre)) && brecord_encodable(
                (key_view, value_view, ts),
            ) {
                assert forall|t: int| 0 <= t < kv_models(post).len() implies brecord_encodable(
                    #[trigger] kv_models(post)[t],
                ) by {
                    if t < i {
                        assert(kv_models(post)[t] == kv_models(pre)[t]);
                    } else if t > i {
                        assert(kv_models(post)[t] == kv_models(pre)[t - 1]);
                    }
                }
            }
        }
    }
}

/// Merge sorted runs, oldest first: one record per key, the newest
/// timestamp winning and a tie going to the later run.
pub fn merge_entry_rows(inputs: &Vec<Vec<(Vec<u8>, Vec<u8>, u64)>>) -> (r: Vec<
    (Vec<u8>, Vec<u8>, u64),
>)
    requires
        forall|i: int| 0 <= i < inputs@.len() ==> sorted_by_key((#[trigger] inputs@[i])@),
    ensures
        sorted_by_key(r@),
        forall|k: Seq<u8>| #[trigger] lookup(r@, k) == spec_merge_get(inputs@, k),
        r@.len() <= spec_runs_len(runs_models(inputs@)),
        spec_kv_bytes(kv_models(r@)) <= spec_runs_bytes(runs_models(inputs@)),
        runs_all_encodable(runs_models(inputs@)) ==> all_brecords_encodable(kv_models(r@)),
{
    let mut acc: Vec<(Vec<u8>, Vec<u8>, u64)> = Vec::new();
    let n = inputs.len();
    let mut i: usize = 0;
    proof {
        assert(inputs@.take(0) =~= Seq::<Vec<(Vec<u8>, Vec<u8>, u64)>>::empty());
        assert forall|k: Seq<u8>| #[trigger]
            lookup(acc@, k) == spec_merge_get(inputs@.take(0), k) by {
            assert(lookup(acc@, k) is None);
        }
        assert(kv_models(acc@) =~= Seq::<(Seq<u8>, Seq<u8>, u64)>::empty());
        assert(runs_models(inputs@.take(0)).len() == 0);
    }
    while i < n
        invariant
            n == inputs@.len(),
            i <= n,
            forall|t: int| 0 <= t < inputs@.len() ==> sorted_by_key((#[trigger] inputs@[t])@),
            sorted_by_key(acc@),
            forall|k: Seq<u8>| #[trigger]
                lookup(acc@, k) == spec_merge_get(inputs@.take(i as int), k),
            acc@.len() <= spec_runs_len(runs_models(inputs@.take(i as int))),
            spec_kv_bytes(kv_models(acc@)) <= spec_runs_bytes(runs_models(inputs@.take(i as int))),
            runs_all_encodable(runs_models(inputs@)) ==> all_brecords_encodable(kv_models(acc@)),
        decreases n - i,
    {
        let ghost prev = acc@;
        let ghost row = inputs@[i as int];
        let m = inputs[i].len();
        let mut j: usize = 0;
        proof {
            assert(kv_models(row@.take(0)) =~= Seq::<(Seq<u8>, Seq<u8>, u64)>::empty());
        }
        while j < m
            invariant
                n == inputs@.len(),
                i < n,
                m == inputs@[i as int]@.len(),
                j <= m,
                row == inputs@[i as int],
                forall|t: int| 0 <= t < inputs@.len() ==> sorted_by_key((#[trigger] inputs@[t])@),
                sorted_by_key(acc@),
                forall|k: Seq<u8>| #[trigger]
                    lookup(prev, k) == spec_merge_get(inputs@.take(i as int), k),
                forall|k: Seq<u8>| #[trigger]
                    lookup(acc@, k) == if (exists|idx: int|
                        0 <= idx < j && (#[trigger] row@[idx]).0@ == k) {
                        upd_winner(lookup(prev, k), lookup(row@, k))
                    } else {
                        lookup(prev, k)
                    },
                acc@.len() <= spec_runs_len(runs_models(inputs@.take(i as int))) + j,
                spec_kv_bytes(kv_models(acc@)) <= spec_runs_bytes(
                    runs_models(inputs@.take(i as int)),
                ) + spec_kv_bytes(kv_models(row@.take(j as int))),
                runs_all_encodable(runs_models(inputs@)) ==> all_brecords_encodable(
                    kv_models(acc@),
                ),
            decreases m - j,
        {
            let entry = clone_record(&inputs[i], j);
            let ghost pre_acc = acc@;
            let ghost em = (entry.0@, entry.1@, entry.2);
            proof {
                lemma_sorted_unique(row@);
                let w = choose|w: int|
                    0 <= w < row@.len() && (#[trigger] row@[w]).0@ == entry.0@;
                assert(row@[j as int].0@ == entry.0@);
                assert(w == j);
                assert(lookup(row@, entry.0@) == Some((entry.1@, entry.2)));
                assert(!(exists|idx: int|
                    0 <= idx < j && (#[trigger] row@[idx]).0@ == entry.0@));
                if runs_all_encodable(runs_models(inputs@)) {
                    assert(runs_models(inputs@)[i as int] == kv_models(row@));
                    assert(kv_models(row@)[j as int] == em);
                    assert(brecord_encodable(em));
                }
            }
            upsert_newest(&mut acc, entry);
            proof {
                assert(row@.take(j as int + 1) =~= row@.take(j as int).push(row@[j as int]));
                assert(kv_models(row@.take(j as int + 1)) =~= kv_models(
                    row@.take(j as int),
                ).push(em));
                assert(kv_models(row@.take(j as int + 1)).drop_last() =~= kv_models(
                    row@.take(j as int),
                ));
                assert(spec_kv_bytes(kv_models(row@.take(j as int + 1))) == spec_kv_bytes(
                    kv_models(row@.take(j as int)),
                ) + 14 + em.0.len() + em.1.len());
            }
            j = j + 1;
        }
        proof {
            assert(inputs@.take(i as int + 1).drop_last() =~= inputs@.take(i as int));
            assert(inputs@.take(i as int + 1).last() == inputs@[i as int]);
            assert forall|k: Seq<u8>| #[trigger]
                lookup(acc@, k) == spec_merge_get(inputs@.take(i as int + 1), k) by {
                if exists|idx: int| 0 <= idx < m && (#[trigger] row@[idx]).0@ == k {
                } else {
                    assert(lookup(row@, k) is None);
                }
            }
            assert(runs_models(inputs@.take(i as int + 1)).drop_last() =~= runs_models(
                inputs@.take(i as int),
            ));
            assert(runs_models(inputs@.take(i as int + 1)).last() == kv_models(row@));
            assert(row@.take(m as int) =~= row@);
            assert(kv_models(row@).len() == row@.len());
            assert(spec_runs_len(runs_models(inputs@.take(i as int + 1))) == spec_runs_len(
                runs_models(inputs@.take(i as int)),
            ) + row@.len());
            assert(spec_runs_bytes(runs_models(inputs@.take(i as int + 1))) == spec_runs_bytes(
                runs_models(inputs@.take(i as int)),
            ) + spec_kv_bytes(kv_models(row@)));
        }
        i = i + 1;
    }
    proof {
        assert(inputs@.take(n as int) =~= inputs@);
    }
    acc
}

/// Merge a row of tables, oldest first, into one fresh table.
///
/// For every key that appears in any input, the output holds exactly one
/// record: the one with the newest timestamp across the inputs, a tie going
/// to the most recent table.  On failure nothing is installed and the
/// inputs stay as they were.
pub fn compact_sstables(
    inputs: &Vec<SsTableReader>,
    output_id: u64,
    block_size: usize,
) -> (r: Result<(SsTableFile, CompactionStats), StorageError>)
    requires
        forall|i: int| 0 <= i < inputs@.len() ==> (#[trigger] inputs@[i]).wf(),
    ensures
        r matches Ok(p) ==> {
            &&& p.0.wf()
            &&& p.0.id == output_id
            &&& p.1.input_sstables == inputs@.len()
            &&& p.1.entries_merged == p.0.spec_entries().len()
            &&& p.1.duplicates_removed == (if spec_runs_len(runs_models(reader_rows(inputs@)))
                <= usize::MAX {
                spec_runs_len(runs_models(reader_rows(inputs@)))
            } else {
                usize::MAX as int
            }) - p.1.entries_merged
            &&& forall|k: Seq<u8>| #[trigger]
                crate::memtable::lookup_kv(p.0.spec_entries(), k) == spec_merge_get(
                    reader_rows(inputs@),
                    k,
                )
        },
        runs_all_encodable(runs_models(reader_rows(inputs@))) && spec_runs_bytes(
            runs_models(reader_rows(inputs@)),
        ) + block_size <= usize::MAX && spec_runs_bytes(runs_models(reader_rows(inputs@)))
            <= u64::MAX ==> r is Ok,
{
    let mut rows: Vec<Vec<(Vec<u8>, Vec<u8>, u64)>> = Vec::new();
    let n = inputs.len();
    let mut i: usize = 0;
    let mut input_entries: usize = 0;
    let mut input_bytes: u64 = 0;
    while i < n
        invariant
            n == inputs@.len(),
            i <= n,
            forall|t: int| 0 <= t < inputs@.len() ==> (#[trigger] inputs@[t]).wf(),
            rows@.len() == i,
            forall|t: int|
                0 <= t < i ==> kv_models((#[trigger] rows@[t])@) == kv_models(
                    inputs@[t].entries@,
                ) && sorted_by_key(rows@[t]@),
            input_entries == (if spec_runs_len(runs_models(rows@)) <= usize::MAX {
                spec_runs_len(runs_models(rows@))
            } else {
                usize::MAX as int
            }),
        decreases n - i,
    {
        let row = inputs[i].all_entries();
        let ghost rows_pre = rows@;
        input_entries = if input_entries > usize::MAX - row.len() {
            usize::MAX
        } else {
            input_entries + row.len()
        };
        let size = inputs[i].size_bytes();
        input_bytes = if input_bytes > u64::MAX - size {
            u64::MAX
        } else {
            input_bytes + size
        };
        rows.push(row);
        proof {
            assert(runs_models(rows@).drop_last() =~= runs_models(rows_pre));
            assert(runs_models(rows@).last() == kv_models(rows@[i as int]@));
            assert(kv_models(rows@[i as int]@).len() == rows@[i as int]@.len());
            assert(spec_runs_len(runs_models(rows@)) == spec_runs_len(runs_models(rows_pre))
                + rows@[i as int]@.len());
        }
        i = i + 1;
    }
    proof {
        assert forall|t: int| 0 <= t < n implies #[trigger] runs_models(rows@)[t] == runs_models(
            reader_rows(inputs@),
        )[t] by {
            assert(reader_rows(inputs@)[t] == inputs@[t].entries);
            assert(kv_models(rows@[t]@) == kv_models(inputs@[t].entries@));
        }
        assert(runs_models(rows@) =~= runs_models(reader_rows(inputs@)));
    }
    let merged = merge_entry_rows(&rows);
    proof {
        assert forall|t: int|
            0 <= t < reader_rows(inputs@).len() implies kv_models(rows@[t]@) == kv_models(
            (#[trigger] reader_rows(inputs@)[t])@,
        ) && sorted_by_key(reader_rows(inputs@)[t]@) by {
            assert(reader_rows(inputs@)[t] == inputs@[t].entries);
        }
        assert forall|k: Seq<u8>| #[trigger]
            spec_merge_get(rows@, k) == spec_merge_get(reader_rows(inputs@), k) by {
            lemma_merge_get_congruent(rows@, reader_rows(inputs@), k);
        }
    }
    let merged_len = merged.len();
    let file = match write_sorted_run(output_id, block_size, &merged) {
        Ok(f) => f,
        Err(e) => {
            return Err(e);
        },
    };
    let output_bytes = file.size_bytes();
    proof {
        assert forall|k: Seq<u8>| #[trigger]
            crate::memtable::lookup_kv(file.spec_entries(), k) == spec_merge_get(
            reader_rows(inputs@),
            k,
        ) by {
            crate::memtable::lemma_lookup_models(merged@, k);
        }
    }
    proof {
        assert(kv_models(merged@).len() == merged@.len());
        assert(input_entries >= merged_len);
    }
    let stats = CompactionStats {
        input_sstables: n,
        input_bytes,
        output_bytes,
        entries_merged: merged_len,
        duplicates_removed: if input_entries >= merged_len {
            input_entries - merged_len
        } else {
            0
        },
        duration_ms: 0,
    };
    Ok((file, stats))
}

/// Whether a table of `size` bytes sits in the tier of `base`: no smaller,
/// and at most one and a half times as large.
pub open spec fn size_within(base: u64, size: u64) -> bool {
    base <= size <= base + base / 2
}

/// The ids of the tables in `base`'s tier, in input order.
pub open spec fn spec_tier(tables: Seq<(u64, u64)>, base: u64) -> Seq<u64> {
    tables.filter(|p: (u64, u64)| size_within(base, p.1)).map_values(|p: (u64, u64)| p.0)
}

/// Unfold one step of `filter` on a pushed pair.
proof fn reveal_pair_filter_push(s: Seq<(u64, u64)>, x: (u64, u64), pred: spec_fn((u64, u64)) -> bool)
    ensures
        s.push(x).filter(pred) == if pred(x) {
            s.filter(pred).push(x)
        } else {
            s.filter(pred)
        },
{
    reveal(Seq::filter);
    assert(s.push(x).drop_last() =~= s);
}

/// Number of tables in `base`'s tier.
fn tier_count(tables: &Vec<(u64, u64)>, base: u64) -> (r: usize)
    ensures
        r == spec_tier(tables@, base).len(),
{
    let ghost pred = |p: (u64, u64)| size_within(base, p.1);
    let n = tables.len();
    let mut count: usize = 0;
    let mut i: usize = 0;
    proof {
        assert(tables@.take(0).filter(pred) =~= Seq::<(u64, u64)>::empty());
    }
    while i < n
        invariant
            n == tables@.len(),
            i <= n,
            count == tables@.take(i as int).filter(pred).len(),
            count <= i,
            forall|p: (u64, u64)| #[trigger] pred(p) == size_within(base, p.1),
        decreases n - i,
    {
        let size = tables[i].1;
        let keep = base <= size && (base > u64::MAX - base / 2 || size <= base + base / 2);
        proof {
            assert(tables@.take(i as int + 1) =~= tables@.take(i as int).push(
                tables@[i as int],
            ));
            reveal_pair_filter_push(tables@.take(i as int), tables@[i as int], pred);
            assert(keep == pred(tables@[i as int]));
        }
        if keep {
            count = count + 1;
        }
        i = i + 1;
    }
    proof {
        assert(tables@.take(n as int) =~= tables@);
    }
    count
}

/// Select tables for a size-tiered compaction: each table in turn is the
/// base of a tier — every table no smaller and at most one and a half
/// times as large — and the first largest tier wins, if it reaches
/// `min_sstables` members.  The result holds the ids of the winning tier,
/// in input order, or nothing when no tier is large enough.
pub fn select_sstables_for_compaction(tables: &Vec<(u64, u64)>, min_sstables: usize) -> (r: Vec<
    u64,
>)
    ensures
        r@.len() == 0 || r@.len() >= min_sstables,
        r@.len() > 0 ==> exists|b: int|
            0 <= b < tables@.len() && r@ == spec_tier(tables@, (#[trigger] tables@[b]).1) && (
            forall|c: int|
                0 <= c < tables@.len() ==> spec_tier(tables@, (#[trigger] tables@[c]).1).len()
                    <= r@.len()),
        r@.len() == 0 ==> forall|b: int|
            0 <= b < tables@.len() ==> spec_tier(tables@, (#[trigger] tables@[b]).1).len()
                < min_sstables || min_sstables == 0,
{
    let n = tables.len();
    if n == 0 || min_sstables == 0 {
        return Vec::new();
    }
    let mut best_count: usize = 0;
    let mut best_base: u64 = 0;
    let mut b: usize = 0;
    while b < n
        invariant
            n == tables@.len(),
            b <= n,
            forall|c: int|
                0 <= c < b ==> spec_tier(tables@, (#[trigger] tables@[c]).1).len()
                    <= best_count,
            best_count > 0 ==> exists|w: int|
                0 <= w < b && best_base == (#[trigger] tables@[w]).1 && spec_tier(
                    tables@,
                    tables@[w].1,
                ).len() == best_count,
        decreases n - b,
    {
        let count = tier_count(tables, tables[b].1);
        if count > best_count {
            best_count = count;
            best_base = tables[b].1;
        }
        b = b + 1;
    }
    if best_count < min_sstables {
        proof {
            assert forall|w: int|
                0 <= w < tables@.len() implies spec_tier(
                tables@,
                (#[trigger] tables@[w]).1,
            ).len() < min_sstables || min_sstables == 0 by {
                assert(spec_tier(tables@, tables@[w].1).len() <= best_count);
            }
        }
        return Vec::new();
    }
    // Collect the winning tier, in input order.
    let ghost pred = |p: (u64, u64)| size_within(best_base, p.1);
    let mut out: Vec<u64> = Vec::new();
    let mut i: usize = 0;
    proof {
        assert(tables@.take(0).filter(pred).map_values(|p: (u64, u64)| p.0) =~= Seq::<
            u64,
        >::empty());
    }
    while i < n
        invariant
            n == tables@.len(),
            i <= n,
            out@ == tables@.take(i as int).filter(pred).map_values(|p: (u64, u64)| p.0),
            forall|p: (u64, u64)| #[trigger] pred(p) == size_within(best_base, p.1),
        decreases n - i,
    {
        let size = tables[i].1;
        let keep = best_base <= size && (best_base > u64::MAX - best_base / 2 || size
            <= best_base + best_base / 2);
        proof {
            assert(tables@.take(i as int + 1) =~= tables@.take(i as int).push(
                tables@[i as int],
            ));
            reveal_pair_filter_push(tables@.take(i as int), tables@[i as int], pred);
            assert(keep == pred(tables@[i as int]));
            if keep {
                assert(tables@.take(i as int + 1).filter(pred).map_values(
                    |p: (u64, u64)| p.0,
                ) =~= tables@.take(i as int).filter(pred).map_values(|p: (u64, u64)| p.0).push(
                    tables@[i as int].0,
                ));
            }
        }
        if keep {
            out.push(tables[i].0);
        }
        i = i + 1;
    }
    proof {
        assert(tables@.take(n as int) =~= tables@);
        assert(out@.len() == spec_tier(tables@, best_base).len());
    }
    out
}

/// A merge winner always comes from one of the inputs.
pub proof fn lemma_merge_get_some(inputs: Seq<Vec<(Vec<u8>, Vec<u8>, u64)>>, k: Seq<u8>)
    requires
        spec_merge_get(inputs, k) is Some,
    ensures
        exists|t: int|
            0 <= t < inputs.len() && lookup((#[trigger] inputs[t])@, k) == spec_merge_get(
                inputs,
                k,
            ),
    decreases inputs.len(),
{
    let r = spec_merge_get(inputs, k);
    let cand = lookup(inputs.last()@, k);
    if r == cand {
        assert(inputs[inputs.len() - 1] == inputs.last());
    } else {
        lemma_merge_get_some(inputs.drop_last(), k);
        let t = choose|t: int|
            0 <= t < inputs.drop_last().len() && lookup(
                (#[trigger] inputs.drop_last()[t])@,
                k,
            ) == spec_merge_get(inputs.drop_last(), k);
        assert(inputs.drop_last()[t] == inputs[t]);
        assert(lookup(inputs[t]@, k) == r);
    }
}

/// The entry rows of a row of readers.
pub open spec fn reader_rows(readers: Seq<SsTableReader>) -> Seq<Vec<(Vec<u8>, Vec<u8>, u64)>> {
    readers.map_values(|r: SsTableReader| r.entries)
}

/// Two rows whose runs hold the same records resolve every key alike.
pub(crate) proof fn lemma_merge_get_congruent(
    a: Seq<Vec<(Vec<u8>, Vec<u8>, u64)>>,
    b: Seq<Vec<(Vec<u8>, Vec<u8>, u64)>>,
    k: Seq<u8>,
)
    requires
        a.len() == b.len(),
        forall|i: int| 0 <= i < a.len() ==> kv_models((#[trigger] a[i])@) == kv_models(b[i]@),
        forall|i: int| 0 <= i < a.len() ==> sorted_by_key((#[trigger] a[i])@),
        forall|i: int| 0 <= i < b.len() ==> sorted_by_key((#[trigger] b[i])@),
    ensures
        spec_merge_get(a, k) == spec_merge_get(b, k),
    decreases a.len(),
{
    if a.len() == 0 {
    } else {
        assert(a.drop_last().len() == b.drop_last().len());
        assert forall|i: int|
            0 <= i < a.drop_last().len() implies kv_models((#[trigger] a.drop_last()[i])@)
            == kv_models(b.drop_last()[i]@) && sorted_by_key(a.drop_last()[i]@) by {
            assert(a.drop_last()[i] == a[i]);
            assert(b.drop_last()[i] == b[i]);
        }
        assert forall|i: int|
            0 <= i < b.drop_last().len() implies sorted_by_key(
            (#[trigger] b.drop_last()[i])@,
        ) by {
            assert(b.drop_last()[i] == b[i]);
        }
        lemma_merge_get_congruent(a.drop_last(), b.drop_last(), k);
        assert(a.last() == a[a.len() - 1]);
        assert(b.last() == b[b.len() - 1]);
        crate::memtable::lemma_lookup_congruent(a.last()@, b.last()@, k);
    }
}

} // verus!
