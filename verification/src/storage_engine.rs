//! The storage engine: WAL, memtable and SSTables behind one map.
//!
//! A put is appended to the WAL and flushed — durable before it is
//! acknowledged — then inserted into the memtable.  A full memtable is
//! written out as a new SSTable, after which the WAL is marked flushed and
//! old segments are deleted, subject to the replica floor.  A read
//! consults the memtable first and otherwise resolves the key across the
//! SSTables: the newest timestamp wins, a tie going to the youngest table.
//! An empty value is a tombstone and reads as absent.

use vstd::prelude::*;
use vstd::string::StringExecFns;
use crate::clock::now_secs;
use crate::block::{all_brecords_encodable, brecord_encodable};
use crate::compaction::{
    compact_sstables, lemma_merge_get_some, reader_rows, runs_all_encodable, runs_models,
    spec_merge_get, spec_runs_bytes, upd_winner, CompactionStats,
};
use crate::error::StorageError;
use crate::keyorder::{lex_leq, lex_less};
use crate::memtable::{
    kv_models, lookup, lookup_kv, sorted_by_key, spec_kv_bytes, MemTable,
};
use crate::record::record_encodable;
use crate::sstable::{
    lemma_file_entries_encodable, write_sorted_run, SsTableFile, SsTableReader,
    DEFAULT_BLOCK_SIZE,
};
use crate::wal::{lemma_wal_durable_after_flush, Wal};
use crate::{Entry, EntryModel, OpType};

verus! {

/// The image of a data directory: the WAL segment files and the SSTable
/// files, each row ascending by number.
pub struct DataDir {
    pub wal_segments: Vec<(u64, Vec<u8>)>,
    pub sstables: Vec<SsTableFile>,
}

impl DataDir {
    pub open spec fn wf(self) -> bool {
        &&& forall|i: int, j: int|
            0 <= i < j < self.wal_segments@.len() ==> self.wal_segments@[i].0
                < self.wal_segments@[j].0
        &&& forall|i: int|
            0 <= i < self.wal_segments@.len() ==> 1 <= (#[trigger] self.wal_segments@[i]).0
                < u64::MAX
        &&& forall|i: int| 0 <= i < self.sstables@.len() ==> (#[trigger] self.sstables@[i]).wf()
        &&& forall|i: int, j: int|
            0 <= i < j < self.sstables@.len() ==> self.sstables@[i].id < self.sstables@[j].id
        &&& forall|i: int|
            0 <= i < self.sstables@.len() ==> (#[trigger] self.sstables@[i]).id < u64::MAX
    }

    /// An empty directory: what a fresh node starts from.
    pub fn new() -> (d: DataDir)
        ensures
            d.wf(),
            d.wal_segments@.len() == 0,
            d.sstables@.len() == 0,
    {
        DataDir { wal_segments: Vec::new(), sstables: Vec::new() }
    }
}

/// A point-in-time summary of the engine.
#[derive(Debug)]
pub struct EngineStats {
    pub memtable_entries: usize,
    pub memtable_bytes: usize,
    pub num_sstables: usize,
    pub immutable_memtable_entries: usize,
}

/// The LSM storage engine.
pub struct StorageEngine {
    /// The write-ahead log; every acknowledged put is durable here first.
    pub wal: Wal,
    /// The active write set.
    pub memtable: MemTable,
    /// Slot for a frozen memtable awaiting flush; this engine flushes
    /// synchronously, so the slot is empty between calls.
    pub immutable_memtable: Option<MemTable>,
    /// The sorted runs, ascending by id (oldest first).
    pub sstables: Vec<SsTableReader>,
    /// Memtable budget in bytes.
    pub memtable_max_size: usize,
    /// Next SSTable id to allocate.
    pub next_sstable_id: u64,
    /// Data-block target for new tables.
    pub block_size: usize,
    /// Whether background compaction checks run at all.
    pub compaction_enabled: bool,
    /// Last time compaction was considered (seconds).
    pub last_compaction_check: u64,
    /// Upper bound on every stored timestamp; keeps assignment monotonic.
    pub last_ts: u64,
    /// Smallest segment a live replica still needs (`u64::MAX` if none).
    pub min_replica_segment: u64,
    /// Operation counters and gauges.
    pub metrics: crate::metrics::Metrics,
}

impl StorageEngine {
    /// The rows the key resolution walks, oldest table first.
    pub open spec fn tables_rows(self) -> Seq<Vec<(Vec<u8>, Vec<u8>, u64)>> {
        reader_rows(self.sstables@)
    }

    /// What the tables alone resolve a key to.
    pub open spec fn spec_tables_get(self, k: Seq<u8>) -> Option<(Seq<u8>, u64)> {
        spec_merge_get(self.tables_rows(), k)
    }

    /// The rows of the whole store: the tables oldest first, the memtable
    /// last.
    pub open spec fn all_rows(self) -> Seq<Vec<(Vec<u8>, Vec<u8>, u64)>> {
        self.tables_rows().push(self.memtable.entries)
    }

    /// The engine's logical map: for each key, the record with the newest
    /// timestamp across the tables and the memtable; a tie goes to the
    /// younger holder, the memtable being youngest of all.  An empty value
    /// is a tombstone.
    pub open spec fn spec_get_model(self, k: Seq<u8>) -> Option<(Seq<u8>, u64)> {
        spec_merge_get(self.all_rows(), k)
    }

    pub open spec fn wf(self) -> bool {
        &&& self.wal.wf()
        &&& self.memtable.wf()
        &&& self.immutable_memtable is None
        &&& forall|i: int| 0 <= i < self.sstables@.len() ==> (#[trigger] self.sstables@[i]).wf()
        &&& forall|i: int, j: int|
            0 <= i < j < self.sstables@.len() ==> self.sstables@[i].file.id
                < self.sstables@[j].file.id
        &&& forall|i: int|
            0 <= i < self.sstables@.len() ==> (#[trigger] self.sstables@[i]).file.id
                < self.next_sstable_id
        &&& forall|i: int|
            0 <= i < self.memtable.entries@.len() ==> (#[trigger] self.memtable.entries@[i]).2
                <= self.last_ts
        &&& forall|t: int, i: int|
            0 <= t < self.sstables@.len() && 0 <= i < self.sstables@[t].entries@.len()
                ==> self.sstables@[t].entries@[i].2 <= self.last_ts
        &&& self.block_size >= 1
        &&& self.wal.current.number < u64::MAX
        &&& all_brecords_encodable(kv_models(self.memtable.entries@))
        &&& self.metrics.wf()
    }

    /// Whether a put of this key and value is accepted: the record must fit
    /// the WAL format and the machine's counters must not run out.
    pub open spec fn put_accepts(self, key: Seq<u8>, value: Seq<u8>) -> bool {
        &&& record_encodable(EntryModel { key, value, timestamp: 0 })
        &&& self.wal.current.number < u64::MAX - 1
        &&& key.len() + value.len() + 16 <= usize::MAX
        &&& self.memtable.approx_bytes + key.len() + value.len() + 16 <= usize::MAX
    }

    /// Open an engine over a directory image: reopen the WAL, replay it
    /// into a fresh memtable, and load every SSTable, oldest first.
    pub fn new(dir: DataDir, memtable_max_size: usize) -> (r: Result<StorageEngine, StorageError>)
        requires
            dir.wf(),
        ensures
            r matches Ok(e) ==> {
                &&& e.wf()
                &&& e.memtable.max_size == memtable_max_size
                &&& forall|k: Seq<u8>| #[trigger]
                    e.memtable.spec_get(k) == spec_replay_get(
                        crate::wal::spec_recover(dir.wal_segments@),
                        k,
                    )
                &&& e.sstables@.len() == dir.sstables@.len()
                &&& forall|i: int|
                    0 <= i < dir.sstables@.len() ==> kv_models(
                        (#[trigger] e.sstables@[i]).entries@,
                    ) == dir.sstables@[i].spec_entries()
            },
            spec_replay_cost(crate::wal::spec_recover(dir.wal_segments@)) <= usize::MAX && (
            dir.wal_segments@.len() == 0 || dir.wal_segments@[dir.wal_segments@.len() - 1].0
                < u64::MAX - 1) ==> r is Ok,
    {
        Self::new_with_config(dir, memtable_max_size, true)
    }

    /// Full constructor; the flush mode flag is accepted for configuration
    /// parity, flushes being synchronous either way in this engine.
    pub fn new_with_config(
        dir: DataDir,
        memtable_max_size: usize,
        _background_flush: bool,
    ) -> (r: Result<StorageEngine, StorageError>)
        requires
            dir.wf(),
        ensures
            r matches Ok(e) ==> {
                &&& e.wf()
                &&& e.memtable.max_size == memtable_max_size
                &&& forall|k: Seq<u8>| #[trigger]
                    e.memtable.spec_get(k) == spec_replay_get(
                        crate::wal::spec_recover(dir.wal_segments@),
                        k,
                    )
                &&& e.sstables@.len() == dir.sstables@.len()
                &&& forall|i: int|
                    0 <= i < dir.sstables@.len() ==> kv_models(
                        (#[trigger] e.sstables@[i]).entries@,
                    ) == dir.sstables@[i].spec_entries()
            },
            spec_replay_cost(crate::wal::spec_recover(dir.wal_segments@)) <= usize::MAX && (
            dir.wal_segments@.len() == 0 || dir.wal_segments@[dir.wal_segments@.len() - 1].0
                < u64::MAX - 1) ==> r is Ok,
    {
        let ghost dirs0 = dir.sstables@;
        let wal = Wal::open(&dir.wal_segments, 8192);
        let recovered = Wal::recover(&dir.wal_segments);
        let ghost replayed = crate::wal::spec_recover(dir.wal_segments@);
        let mut memtable = MemTable::new(memtable_max_size);
        let mut last_ts: u64 = 0;
        let n = recovered.len();
        let mut i: usize = 0;
        proof {
            assert(replayed.take(0) =~= Seq::<EntryModel>::empty());
            assert(kv_models(memtable.entries@) =~= Seq::<(Seq<u8>, Seq<u8>, u64)>::empty());
        }
        while i < n
            invariant
                n == recovered@.len(),
                recovered@.map_values(|e: Entry| e@) == replayed,
                replayed == crate::wal::spec_recover(dir.wal_segments@),
                forall|j: int| 0 <= j < recovered@.len() ==> record_encodable((#[trigger] recovered@[j])@),
                i <= n,
                memtable.wf(),
                memtable.max_size == memtable_max_size,
                forall|k: Seq<u8>| #[trigger]
                    memtable.spec_get(k) == spec_replay_get(replayed.take(i as int), k),
                forall|j: int|
                    0 <= j < memtable.entries@.len() ==> (#[trigger] memtable.entries@[j]).2
                        <= last_ts,
                memtable.approx_bytes <= spec_replay_cost(replayed.take(i as int)),
                all_brecords_encodable(kv_models(memtable.entries@)),
            decreases n - i,
        {
            let e = clone_entry_parts(&recovered, i);
            let ghost em = (e.0@, e.1@, e.2);
            let ghost pre_mt = memtable;
            if e.2 > last_ts {
                last_ts = e.2;
            }
            proof {
                assert(replayed[i as int] == recovered@.map_values(|x: Entry| x@)[i as int]);
                assert(em.0 == replayed[i as int].key && em.1 == replayed[i as int].value);
                assert(replayed.take(i as int + 1).drop_last() =~= replayed.take(i as int));
                assert(replayed.take(i as int + 1).last() == replayed[i as int]);
                assert(spec_replay_cost(replayed.take(i as int + 1)) == spec_replay_cost(
                    replayed.take(i as int),
                ) + 16 + replayed[i as int].key.len() + replayed[i as int].value.len());
                lemma_replay_cost_prefix(replayed, i as int + 1);
                lemma_replay_cost_nonneg(replayed.take(i as int));
            }
            match memtable.put(e.0, e.1, e.2) {
                Ok(_) => {},
                Err(err) => {
                    return Err(err);
                },
            }
            proof {
                assert forall|k: Seq<u8>| #[trigger]
                    memtable.spec_get(k) == spec_replay_get(
                    replayed.take(i as int + 1),
                    k,
                ) by {
                    if k == replayed[i as int].key {
                    } else {
                    }
                }
                assert(record_encodable(recovered@[i as int]@));
                assert forall|t: int|
                    0 <= t < kv_models(memtable.entries@).len() implies brecord_encodable(
                    #[trigger] kv_models(memtable.entries@)[t],
                ) by {
                    let ent = memtable.entries@[t];
                    assert(kv_models(memtable.entries@)[t] == (ent.0@, ent.1@, ent.2));
                    if ent.0@ == em.0 && ent.1@ == em.1 && ent.2 == em.2 {
                        assert(record_encodable(recovered@[i as int]@));
                    } else {
                        let l = choose|l: int|
                            0 <= l < pre_mt.entries@.len() && (#[trigger] pre_mt.entries@[l])
                                == ent;
                        assert(kv_models(pre_mt.entries@)[l] == (ent.0@, ent.1@, ent.2));
                        assert(brecord_encodable(kv_models(pre_mt.entries@)[l]));
                    }
                }
            }
            i = i + 1;
        }
        proof {
            assert(replayed.take(n as int) =~= replayed);
        }
        // Load the tables, oldest first, and remember the next free id.
        let mut sstables: Vec<SsTableReader> = Vec::new();
        let mut next_id: u64 = 1;
        let m = dir.sstables.len();
        let mut dir_tables = dir.sstables;
        let mut t: usize = 0;
        proof {
            assert(dir_tables@ =~= dirs0.skip(0));
        }
        while t < m
            invariant
                m == dirs0.len(),
                t <= m,
                dir_tables@ == dirs0.skip(t as int),
                forall|j: int| 0 <= j < m ==> (#[trigger] dirs0[j]).wf(),
                forall|j: int, l: int| 0 <= j < l < m ==> dirs0[j].id < dirs0[l].id,
                forall|j: int| 0 <= j < m ==> (#[trigger] dirs0[j]).id < u64::MAX,
                sstables@.len() == t,
                forall|j: int|
                    0 <= j < t ==> (#[trigger] sstables@[j]).wf() && sstables@[j].file.id
                        == dirs0[j].id && kv_models(sstables@[j].entries@)
                        == dirs0[j].spec_entries(),
                forall|j: int| 0 <= j < t ==> (#[trigger] sstables@[j]).file.id < next_id,
                next_id >= 1,
                t > 0 ==> next_id == dirs0[t - 1].id + 1,
            decreases m - t,
        {
            let file = dir_tables.remove(0);
            proof {
                assert(file == dirs0[t as int]);
                assert(dir_tables@ =~= dirs0.skip(t as int + 1));
            }
            let id = file.id;
            let reader = SsTableReader::open(file);
            sstables.push(reader);
            next_id = id + 1;
            t = t + 1;
        }
        let mut ts_floor = last_ts;
        let mut t2: usize = 0;
        while t2 < sstables.len()
            invariant
                t2 <= sstables@.len(),
                forall|j: int| 0 <= j < sstables@.len() ==> (#[trigger] sstables@[j]).wf(),
                ts_floor >= last_ts,
                forall|j: int, l: int|
                    0 <= j < t2 && 0 <= l < sstables@[j].entries@.len()
                        ==> sstables@[j].entries@[l].2 <= ts_floor,
            decreases sstables@.len() - t2,
        {
            let row_max = max_row_ts(&sstables[t2].entries);
            if row_max > ts_floor {
                ts_floor = row_max;
            }
            proof {
                assert forall|j: int, l: int|
                    0 <= j < t2 + 1 && 0 <= l < sstables@[j].entries@.len()
                        implies sstables@[j].entries@[l].2 <= ts_floor by {}
            }
            t2 = t2 + 1;
        }
        if wal.current_segment_number() == u64::MAX {
            return Err(StorageError::Io(String::from_str("WAL segment numbers exhausted")));
        }
        Ok(
            StorageEngine {
                wal,
                memtable,
                immutable_memtable: None,
                sstables,
                memtable_max_size,
                next_sstable_id: next_id,
                block_size: DEFAULT_BLOCK_SIZE,
                compaction_enabled: true,
                last_compaction_check: 0,
                last_ts: ts_floor,
                min_replica_segment: u64::MAX,
                metrics: crate::metrics::Metrics::new(),
            },
        )
    }

    /// Record one write: WAL first — the record is durable before the call
    /// returns — then the memtable; a full memtable is flushed to a new
    /// SSTable at once.  After the call the key reads as `value`.
    pub fn put(&mut self, key: Vec<u8>, value: Vec<u8>) -> (r: Result<(), StorageError>)
        requires
            old(self).wf(),
        ensures
            final(self).wf(),
            r is Ok ==> (final(self).spec_get_model(key@) matches Some(p) && p.0 == value@),
            r is Ok ==> forall|k: Seq<u8>|
                k != key@ ==> final(self).spec_get_model(k) == old(self).spec_get_model(k),
            r is Err ==> forall|k: Seq<u8>|
                k != key@ ==> final(self).spec_get_model(k) == old(self).spec_get_model(k),
            r is Err ==> final(self).spec_get_model(key@) == old(self).spec_get_model(key@) || (
            final(self).spec_get_model(key@) matches Some(p) && p.0 == value@),
            !old(self).put_accepts(key@, value@) ==> r is Err,
            old(self).put_accepts(key@, value@) && (old(self).memtable.approx_bytes + key@.len()
                + value@.len() + 16 < old(self).memtable.max_size || (old(self).next_sstable_id
                < u64::MAX && old(self).memtable.approx_bytes + key@.len() + value@.len() + 16
                + old(self).block_size <= usize::MAX)) ==> r is Ok,
            r is Ok ==> final(self).wal.all_records().len() > 0 && final(self).wal.all_records().last() == (
                OpType::Put,
                (EntryModel { key: key@, value: value@, timestamp: final(self).last_ts }),
            ) && final(self).wal.durable_records() == final(self).wal.all_records(),
            r is Ok && old(self).memtable.approx_bytes + key@.len() + value@.len() + 16 >= old(self).memtable.max_size ==> final(self).memtable.entries@.len() == 0,
    {
        let now = now_secs();
        let ts = if now > self.last_ts {
            now
        } else {
            self.last_ts
        };
        if self.wal.current.number >= u64::MAX - 1 {
            return Err(StorageError::Io(String::from_str("WAL segment numbers exhausted")));
        }
        let klen = key.len();
        let vlen = value.len();
        let entry = Entry { key: key.clone(), value: value.clone(), timestamp: ts };
        proof {
            assert(entry@.key =~= key@);
            assert(entry@.value =~= value@);
        }
        match self.wal.append(&entry) {
            Ok(_) => {},
            Err(e) => {
                return Err(e);
            },
        }
        proof {
            if old(self).wal.rotation_pending() {
                assert(self.wal.current.entries() =~= seq![(OpType::Put, entry@)]);
            }
            assert(self.wal.current.entries().len() > 0);
            assert(self.wal.current.entries().last() == (OpType::Put, entry@));
        }
        match self.wal.flush() {
            Ok(_) => {},
            Err(e) => {
                return Err(e);
            },
        }
        proof {
            assert(self.wal.current.bents@.len() == 0);
            assert(self.wal.current.entries().len() > 0);
            assert(self.wal.current.entries().last() == (OpType::Put, entry@));
        }
        let ghost pre_mem = self.memtable;
        let full = match self.memtable.put(key, value, ts) {
            Ok(full) => full,
            Err(e) => {
                return Err(e);
            },
        };
        self.last_ts = ts;
        self.metrics.writes_total.inc();
        self.metrics.writes_bytes.add(klen as u64);
        self.metrics.writes_bytes.add(vlen as u64);
        self.metrics.memtable_size_bytes.set(self.memtable.size_bytes() as u64);
        self.metrics.memtable_entries.set(self.memtable.len() as u64);
        proof {
            let key_view = entry@.key;
            let value_view = entry@.value;
            assert(self.all_rows().drop_last() =~= old(self).all_rows().drop_last());
            assert(old(self).all_rows().drop_last() =~= old(self).tables_rows());
            assert(self.all_rows().last() == self.memtable.entries);
            assert(old(self).all_rows().last() == old(self).memtable.entries);
            assert(lookup(self.memtable.entries@, key_view) == Some((value_view, ts)));
            let prev = spec_merge_get(old(self).tables_rows(), key_view);
            if prev is Some {
                lemma_merge_get_some(old(self).tables_rows(), key_view);
                let t = choose|t: int|
                    0 <= t < old(self).tables_rows().len() && lookup(
                        (#[trigger] old(self).tables_rows()[t])@,
                        key_view,
                    ) == prev;
                assert(old(self).tables_rows()[t] == old(self).sstables@[t].entries);
                let row = old(self).sstables@[t].entries@;
                if exists|w: int| 0 <= w < row.len() && (#[trigger] row[w]).0@ == key_view {
                    let w = choose|w: int|
                        0 <= w < row.len() && (#[trigger] row[w]).0@ == key_view;
                    assert(row[w].2 <= old(self).last_ts);
                }
            }
            assert(self.spec_get_model(key_view) == Some((value_view, ts)));
            assert forall|k: Seq<u8>| k != key_view implies self.spec_get_model(k) == old(self).spec_get_model(k) by {
                assert(self.memtable.spec_get(k) == pre_mem.spec_get(k));
                assert(lookup(self.memtable.entries@, k) == lookup(pre_mem.entries@, k));
            }
            assert(record_encodable(entry@));
            assert forall|t: int|
                0 <= t < kv_models(self.memtable.entries@).len() implies brecord_encodable(
                #[trigger] kv_models(self.memtable.entries@)[t],
            ) by {
                let ent = self.memtable.entries@[t];
                assert(kv_models(self.memtable.entries@)[t] == (ent.0@, ent.1@, ent.2));
                if ent.0@ == key_view && ent.1@ == value_view && ent.2 == ts {
                } else {
                    let l = choose|l: int|
                        0 <= l < pre_mem.entries@.len() && (#[trigger] pre_mem.entries@[l]) == ent;
                    assert(kv_models(pre_mem.entries@)[l] == (ent.0@, ent.1@, ent.2));
                    assert(brecord_encodable(kv_models(pre_mem.entries@)[l]));
                }
            }
        }
        if full {
            let flushed = self.flush_memtable_sync();
            match flushed {
                Ok(_) => {},
                Err(e) => {
                    return Err(e);
                },
            }
        }
        proof {
            lemma_wal_durable_after_flush(self.wal);
            let a = crate::wal::spec_segments_records(self.wal.closed@);
            let b = self.wal.current.entries();
            assert(self.wal.all_records() == a + b);
            assert(self.wal.all_records().len() > 0);
            assert((a + b).last() == b.last());
            assert(self.wal.all_records().last() == (OpType::Put, entry@));
            assert(entry@ == (EntryModel { key: key@, value: value@, timestamp: self.last_ts }));
        }
        Ok(())
    }

    /// Write the memtable out as a new SSTable, install the reader, mark
    /// the WAL flushed and delete obsolete segments, subject to the replica
    /// floor.  What every key reads as does not change.
    fn flush_memtable_sync(&mut self) -> (r: Result<(), StorageError>)
        requires
            old(self).wf(),
        ensures
            final(self).wf(),
            forall|k: Seq<u8>| #[trigger]
                final(self).spec_get_model(k) == old(self).spec_get_model(k),
            r is Ok ==> final(self).memtable.entries@.len() == 0,
            r is Ok && old(self).memtable.entries@.len() > 0 ==> final(self).sstables@.len()
                == old(self).sstables@.len() + 1,
            final(self).wal.current == old(self).wal.current,
            final(self).last_ts == old(self).last_ts,
            old(self).next_sstable_id < u64::MAX && spec_kv_bytes(
                kv_models(old(self).memtable.entries@),
            ) + old(self).block_size <= usize::MAX ==> r is Ok,
    {
        if self.memtable.is_empty() {
            proof {
                assert(self.memtable.entries@.len() == 0);
            }
            return Ok(());
        }
        if self.next_sstable_id == u64::MAX {
            return Err(StorageError::Io(String::from_str("SSTable ids exhausted")));
        }
        let id = self.next_sstable_id;
        let dump = self.memtable.entries_with_timestamps();
        proof {
            crate::memtable::lemma_kv_bytes_nonneg(kv_models(dump@));
            assert(spec_kv_bytes(kv_models(dump@)) <= self.memtable.approx_bytes);
        }
        proof {
            assert(spec_kv_bytes(kv_models(dump@)) <= u64::MAX);
        }
        let file = match write_sorted_run(id, self.block_size, &dump) {
            Ok(f) => f,
            Err(e) => {
                return Err(e);
            },
        };
        let reader = SsTableReader::open(file);
        let ghost pre = *old(self);
        self.sstables.push(reader);
        self.next_sstable_id = id + 1;
        self.memtable = MemTable::new(self.memtable_max_size);
        match self.wal.mark_flushed() {
            Ok(_) => {},
            Err(e) => {
                return Err(e);
            },
        }
        match self.wal.cleanup_old_segments(self.min_replica_segment) {
            Ok(_) => {},
            Err(e) => {
                return Err(e);
            },
        }
        self.metrics.flushes_total.inc();
        self.metrics.sstable_count.set(self.sstables.len() as u64);
        self.metrics.memtable_size_bytes.set(0);
        self.metrics.memtable_entries.set(0);
        proof {
            let n = pre.sstables@.len() as int;
            assert forall|t: int, i: int|
                0 <= t < self.sstables@.len() && 0 <= i < self.sstables@[t].entries@.len()
                    implies self.sstables@[t].entries@[i].2 <= self.last_ts by {
                if t < n {
                    assert(self.sstables@[t] == pre.sstables@[t]);
                } else {
                    assert(kv_models(self.sstables@[t].entries@) == kv_models(dump@));
                    assert(kv_models(self.sstables@[t].entries@)[i] == kv_models(dump@)[i]);
                    assert(self.sstables@[t].entries@[i].2 == dump@[i].2);
                    assert(kv_models(dump@)[i] == kv_models(pre.memtable.entries@)[i]);
                    assert(dump@[i].2 == pre.memtable.entries@[i].2);
                }
            }
            // Reads are unchanged: the memtable's records moved, whole, one
            // slot earlier in the resolution order.
            assert forall|k: Seq<u8>| #[trigger]
                self.spec_get_model(k) == pre.spec_get_model(k) by {
                assert(self.all_rows().drop_last().drop_last() =~= pre.tables_rows());
                assert(self.all_rows().drop_last() =~= self.tables_rows());
                assert(self.tables_rows().drop_last() =~= pre.tables_rows());
                assert(self.tables_rows().last() == self.sstables@[n].entries);
                assert(self.all_rows().last() == self.memtable.entries);
                assert(pre.all_rows().drop_last() =~= pre.tables_rows());
                assert(pre.all_rows().last() == pre.memtable.entries);
                crate::memtable::lemma_lookup_congruent(
                    self.sstables@[n].entries@,
                    pre.memtable.entries@,
                    k,
                );
                assert(lookup(self.memtable.entries@, k) is None);
                assert(self.spec_get_model(k) == upd_winner(
                    spec_merge_get(self.tables_rows(), k),
                    lookup(self.memtable.entries@, k),
                ));
            }
        }
        Ok(())
    }

    /// Read a key.  The record with the newest timestamp across the whole
    /// store decides; an empty value is a tombstone and reads as absent.
    pub fn get(&mut self, key: &Vec<u8>) -> (r: Result<Option<Vec<u8>>, StorageError>)
        requires
            old(self).wf(),
        ensures
            final(self).wf(),
            *final(self) == (StorageEngine { metrics: final(self).metrics, ..*old(self) }),
            r matches Ok(v) && (match old(self).spec_get_model(key@) {
                Some(p) => if p.0.len() == 0 {
                    v is None
                } else {
                    v matches Some(out) && out@ == p.0
                },
                None => v is None,
            }),
    {
        let mut best: Option<(Vec<u8>, u64)> = None;
        let n = self.sstables.len();
        let mut i: usize = 0;
        proof {
            assert(self.tables_rows().take(0) =~= Seq::<Vec<(Vec<u8>, Vec<u8>, u64)>>::empty());
        }
        while i < n
            invariant
                *self == *old(self),
                old(self).wf(),
                n == self.sstables@.len(),
                i <= n,
                opt_kv_model(best) == spec_merge_get(self.tables_rows().take(i as int), key@),
            decreases n - i,
        {
            let cand = match self.sstables[i].get(key) {
                Ok(c) => c,
                Err(e) => {
                    return Err(e);
                },
            };
            proof {
                assert(self.tables_rows().take(i as int + 1).drop_last()
                    =~= self.tables_rows().take(i as int));
                assert(self.tables_rows().take(i as int + 1).last()
                    == self.sstables@[i as int].entries);
            }
            best = match cand {
                None => best,
                Some(c) => match best {
                    None => Some(c),
                    Some(b) => if c.1 >= b.1 {
                        Some(c)
                    } else {
                        Some(b)
                    },
                },
            };
            i = i + 1;
        }
        proof {
            assert(self.tables_rows().take(n as int) =~= self.tables_rows());
            assert(self.all_rows().drop_last() =~= self.tables_rows());
            assert(self.all_rows().last() == self.memtable.entries);
        }
        let mem_cand = self.memtable.get_with_timestamp(key);
        let resolved = match mem_cand {
            None => best,
            Some(c) => match best {
                None => Some(c),
                Some(b) => if c.1 >= b.1 {
                    Some(c)
                } else {
                    Some(b)
                },
            },
        };
        proof {
            assert(opt_kv_model(resolved) == old(self).spec_get_model(key@));
        }
        self.metrics.reads_total.inc();
        match resolved {
            None => {
                self.metrics.reads_misses.inc();
                Ok(None)
            },
            Some((value, _ts)) => {
                if value.len() == 0 {
                    self.metrics.reads_misses.inc();
                    Ok(None)
                } else {
                    self.metrics.reads_hits.inc();
                    Ok(Some(value))
                }
            },
        }
    }

    /// Record a tombstone for the key: an empty value, replicated as such.
    /// The key subsequently reads as absent.
    pub fn delete(&mut self, key: Vec<u8>) -> (r: Result<(), StorageError>)
        requires
            old(self).wf(),
        ensures
            final(self).wf(),
            r is Ok ==> (final(self).spec_get_model(key@) matches Some(p) && p.0.len() == 0),
            r is Ok ==> forall|k: Seq<u8>|
                k != key@ ==> final(self).spec_get_model(k) == old(self).spec_get_model(k),
            r is Err ==> forall|k: Seq<u8>|
                k != key@ ==> final(self).spec_get_model(k) == old(self).spec_get_model(k),
            r is Err ==> final(self).spec_get_model(key@) == old(self).spec_get_model(key@) || (
            final(self).spec_get_model(key@) matches Some(p) && p.0.len() == 0),
            !old(self).put_accepts(key@, Seq::<u8>::empty()) ==> r is Err,
            old(self).put_accepts(key@, Seq::<u8>::empty()) && (old(self).memtable.approx_bytes
                + key@.len() + 16 < old(self).memtable.max_size || (old(self).next_sstable_id
                < u64::MAX && old(self).memtable.approx_bytes + key@.len() + 16 + old(self).block_size <= usize::MAX)) ==> r is Ok,
    {
        self.put(key, Vec::new())
    }

    /// Every live record with `start ≤ key < end`, in key order, resolved
    /// across the whole store.
    pub fn scan(&mut self, start: &Vec<u8>, end: &Vec<u8>) -> (r: Result<
        Vec<(Vec<u8>, Vec<u8>, u64)>,
        StorageError,
    >)
        requires
            old(self).wf(),
        ensures
            final(self).wf(),
            *final(self) == *old(self),
            r is Ok,
            r matches Ok(v) ==> sorted_by_key(v@),
            r matches Ok(v) ==> forall|i: int|
                0 <= i < v@.len() ==> lex_leq(start@, (#[trigger] v@[i]).0@) && lex_less(
                    v@[i].0@,
                    end@,
                ) && old(self).spec_get_model(v@[i].0@) == Some((v@[i].1@, v@[i].2)),
            r matches Ok(v) ==> forall|k: Seq<u8>|
                lex_leq(start@, k) && lex_less(k, end@) && (#[trigger] old(self).spec_get_model(
                    k,
                )) is Some ==> exists|i: int| 0 <= i < v@.len() && (#[trigger] v@[i]).0@ == k,
            r matches Ok(v) ==> (!lex_less(start@, end@) ==> v@.len() == 0),
    {
        let mut rows: Vec<Vec<(Vec<u8>, Vec<u8>, u64)>> = Vec::new();
        let n = self.sstables.len();
        let mut i: usize = 0;
        while i < n
            invariant
                *self == *old(self),
                old(self).wf(),
                n == self.sstables@.len(),
                i <= n,
                rows@.len() == i,
                forall|t: int|
                    0 <= t < i ==> kv_models((#[trigger] rows@[t])@) == kv_models(
                        self.sstables@[t].entries@,
                    ) && sorted_by_key(rows@[t]@),
            decreases n - i,
        {
            let row = self.sstables[i].all_entries();
            rows.push(row);
            i = i + 1;
        }
        let mem_row = self.memtable.entries_with_timestamps();
        rows.push(mem_row);
        proof {
            assert forall|t: int|
                0 <= t < rows@.len() implies sorted_by_key((#[trigger] rows@[t])@) by {}
            assert forall|t: int|
                0 <= t < self.all_rows().len() implies kv_models(rows@[t]@) == kv_models(
                (#[trigger] self.all_rows()[t])@,
            ) && sorted_by_key(self.all_rows()[t]@) by {
                if t < n {
                    assert(self.all_rows()[t] == self.sstables@[t].entries);
                } else {
                    assert(self.all_rows()[t] == self.memtable.entries);
                }
            }
        }
        let merged = crate::compaction::merge_entry_rows(&rows);
        proof {
            assert forall|k: Seq<u8>| #[trigger]
                lookup(merged@, k) == old(self).spec_get_model(k) by {
                crate::compaction::lemma_merge_get_congruent(rows@, self.all_rows(), k);
            }
        }
        let out = crate::memtable::scan_range(&merged, start, end);
        proof {
            let ghost pred = |e: (Seq<u8>, Seq<u8>, u64)| lex_leq(start@, e.0) && lex_less(
                e.0,
                end@,
            );
            let models = kv_models(merged@);
            let picked = models.filter(pred);
            models.filter_lemma(pred);
            crate::memtable::lemma_filter_elements(models, pred);
            crate::memtable::lemma_sorted_unique(merged@);
            assert forall|i: int|
                0 <= i < out@.len() implies lex_leq(start@, (#[trigger] out@[i]).0@) && lex_less(
                out@[i].0@,
                end@,
            ) && old(self).spec_get_model(out@[i].0@) == Some((out@[i].1@, out@[i].2)) by {
                assert(kv_models(out@)[i] == picked[i]);
                assert(pred(picked[i]));
                let w = choose|w: int| 0 <= w < models.len() && models[w] == picked[i];
                assert(merged@[w].0@ == out@[i].0@);
                assert(lookup(merged@, out@[i].0@) == Some((merged@[w].1@, merged@[w].2)));
            }
            assert forall|k: Seq<u8>|
                lex_leq(start@, k) && lex_less(k, end@) && (#[trigger] old(self).spec_get_model(k)) is Some implies exists|i: int|
                0 <= i < out@.len() && (#[trigger] out@[i]).0@ == k by {
                assert(lookup(merged@, k) is Some);
                let w = choose|w: int|
                    0 <= w < merged@.len() && (#[trigger] merged@[w]).0@ == k;
                assert(pred(models[w]));
                assert(picked.contains(models[w]));
                let j = choose|j: int| 0 <= j < picked.len() && picked[j] == models[w];
                assert(kv_models(out@)[j] == picked[j]);
                assert(out@[j].0@ == k);
            }
            crate::memtable::lemma_filter_sorted(models, pred);
            assert forall|p: int, q: int|
                0 <= p < q < out@.len() implies lex_less(out@[p].0@, out@[q].0@) by {
                assert(kv_models(out@)[p] == picked[p]);
                assert(kv_models(out@)[q] == picked[q]);
            }
        }
        Ok(out)
    }

    /// Enable or disable size-tiered compaction.
    pub fn with_compaction(self, enabled: bool) -> (r: StorageEngine)
        requires
            self.wf(),
        ensures
            r.wf(),
            r == (StorageEngine { compaction_enabled: enabled, ..self }),
    {
        StorageEngine { compaction_enabled: enabled, ..self }
    }

    /// Consider compaction: at most once a second, and only once the
    /// size-tiered heuristic finds a tier of at least four similar-sized
    /// tables.  The whole table set then merges into one, so installation
    /// order matches creation order and reads are unchanged.
    pub fn maybe_compact(&mut self) -> (r: Result<(), StorageError>)
        requires
            old(self).wf(),
        ensures
            final(self).wf(),
            forall|k: Seq<u8>| #[trigger]
                final(self).spec_get_model(k) == old(self).spec_get_model(k),
            final(self).memtable == old(self).memtable,
            final(self).wal == old(self).wal,
            final(self).sstables@.len() == 1 || final(self).sstables@ == old(self).sstables@,
            !old(self).compaction_enabled ==> r is Ok && *final(self) == *old(self),
            old(self).sstables@.len() < 4 ==> r is Ok && final(self).sstables@ == old(self).sstables@,
    {
        if !self.compaction_enabled {
            return Ok(());
        }
        let now = now_secs();
        if now <= self.last_compaction_check {
            return Ok(());
        }
        self.last_compaction_check = now;
        if self.sstables.len() < 4 {
            return Ok(());
        }
        let mut sizes: Vec<(u64, u64)> = Vec::new();
        let n = self.sstables.len();
        let mut i: usize = 0;
        while i < n
            invariant
                self.wf(),
                self.sstables@ == old(self).sstables@,
                self.memtable == old(self).memtable,
                n == self.sstables@.len(),
                i <= n,
            decreases n - i,
        {
            let id = self.sstables[i].id();
            let size = self.sstables[i].size_bytes();
            sizes.push((id, size));
            i = i + 1;
        }
        let selected = crate::compaction::select_sstables_for_compaction(&sizes, 4);
        if selected.len() == 0 {
            return Ok(());
        }
        self.compact_all()
    }

    /// Compact now, regardless of the throttle (tests use this).
    pub fn force_compact(&mut self) -> (r: Result<(), StorageError>)
        requires
            old(self).wf(),
        ensures
            final(self).wf(),
            forall|k: Seq<u8>| #[trigger]
                final(self).spec_get_model(k) == old(self).spec_get_model(k),
            final(self).memtable == old(self).memtable,
            final(self).wal == old(self).wal,
            !old(self).compaction_enabled || old(self).sstables@.len() < 4 ==> r is Ok && *final(self) == *old(self),
            r is Ok && old(self).compaction_enabled && old(self).sstables@.len() >= 4 ==> final(self).sstables@.len() == 1,
            r is Err ==> final(self).sstables@ == old(self).sstables@,
            old(self).compaction_enabled && old(self).sstables@.len() >= 4 && old(self).next_sstable_id < u64::MAX && spec_runs_bytes(
                runs_models(reader_rows(old(self).sstables@)),
            ) + old(self).block_size <= usize::MAX && spec_runs_bytes(
                runs_models(reader_rows(old(self).sstables@)),
            ) <= u64::MAX ==> r is Ok,
    {
        if !self.compaction_enabled || self.sstables.len() < 4 {
            return Ok(());
        }
        self.compact_all()
    }

    /// Drain pending maintenance: in this synchronous engine, a compaction
    /// check.
    pub fn check_and_compact(&mut self) -> (r: Result<(), StorageError>)
        requires
            old(self).wf(),
        ensures
            final(self).wf(),
            forall|k: Seq<u8>| #[trigger]
                final(self).spec_get_model(k) == old(self).spec_get_model(k),
            final(self).memtable == old(self).memtable,
            final(self).wal == old(self).wal,
            final(self).sstables@.len() == 1 || final(self).sstables@ == old(self).sstables@,
            !old(self).compaction_enabled ==> r is Ok && *final(self) == *old(self),
            old(self).sstables@.len() < 4 ==> r is Ok && final(self).sstables@ == old(self).sstables@,
    {
        self.maybe_compact()
    }

    /// Merge every table into a single fresh one.  Reads are unchanged: a
    /// key keeps resolving to the same record.
    fn compact_all(&mut self) -> (r: Result<(), StorageError>)
        requires
            old(self).wf(),
        ensures
            final(self).wf(),
            forall|k: Seq<u8>| #[trigger]
                final(self).spec_get_model(k) == old(self).spec_get_model(k),
            final(self).memtable == old(self).memtable,
            final(self).wal == old(self).wal,
            r is Ok ==> final(self).sstables@.len() == 1,
            r is Err ==> final(self).sstables@ == old(self).sstables@,
            old(self).next_sstable_id < u64::MAX && spec_runs_bytes(
                runs_models(reader_rows(old(self).sstables@)),
            ) + old(self).block_size <= usize::MAX && spec_runs_bytes(
                runs_models(reader_rows(old(self).sstables@)),
            ) <= u64::MAX ==> r is Ok,
    {
        if self.next_sstable_id == u64::MAX {
            return Err(StorageError::Io(String::from_str("SSTable ids exhausted")));
        }
        let id = self.next_sstable_id;
        proof {
            assert forall|t: int|
                0 <= t < runs_models(reader_rows(self.sstables@)).len() implies all_brecords_encodable(
                #[trigger] runs_models(reader_rows(self.sstables@))[t],
            ) by {
                assert(reader_rows(self.sstables@)[t] == self.sstables@[t].entries);
                lemma_file_entries_encodable(self.sstables@[t].file);
                assert(kv_models(self.sstables@[t].entries@) == self.sstables@[t].file.spec_entries());
            }
            assert(runs_all_encodable(runs_models(reader_rows(self.sstables@))));
        }
        let compacted = compact_sstables(&self.sstables, id, self.block_size);
        let (file, stats) = match compacted {
            Ok(p) => p,
            Err(e) => {
                return Err(e);
            },
        };
        let reader = SsTableReader::open(file);
        let ghost pre = *old(self);
        let mut singleton: Vec<SsTableReader> = Vec::new();
        singleton.push(reader);
        self.sstables = singleton;
        self.next_sstable_id = id + 1;
        self.metrics.compactions_total.inc();
        self.metrics.compaction_bytes_in.add(stats.input_bytes);
        self.metrics.compaction_bytes_out.add(stats.output_bytes);
        self.metrics.sstable_count.set(1);
        proof {
            let newrow = self.sstables@[0].entries;
            let ghost file_entries = self.sstables@[0].file.spec_entries();
            assert forall|k: Seq<u8>| #[trigger]
                spec_merge_get(self.tables_rows(), k) == spec_merge_get(
                pre.tables_rows(),
                k,
            ) by {
                assert(self.tables_rows().len() == 1);
                assert(self.tables_rows()[0] == newrow);
                assert(self.tables_rows().drop_last() =~= Seq::<
                    Vec<(Vec<u8>, Vec<u8>, u64)>,
                >::empty());
                assert(spec_merge_get(Seq::<Vec<(Vec<u8>, Vec<u8>, u64)>>::empty(), k) is None);
                assert(self.tables_rows().last() == newrow);
                assert(spec_merge_get(self.tables_rows(), k) == upd_winner(
                    spec_merge_get(Seq::<Vec<(Vec<u8>, Vec<u8>, u64)>>::empty(), k),
                    lookup(newrow@, k),
                ));
                crate::memtable::lemma_lookup_models(newrow@, k);
                assert(kv_models(newrow@) == file_entries);
                assert(lookup(newrow@, k) == lookup_kv(file_entries, k));
                assert(lookup_kv(file_entries, k) == spec_merge_get(
                    reader_rows(pre.sstables@),
                    k,
                ));
                assert(pre.tables_rows() == reader_rows(pre.sstables@));
            }
            assert forall|t: int, i: int|
                0 <= t < self.sstables@.len() && 0 <= i < self.sstables@[t].entries@.len()
                    implies self.sstables@[t].entries@[i].2 <= self.last_ts by {
                let row = newrow@;
                crate::memtable::lemma_sorted_unique(row);
                let key = row[i].0@;
                assert(row[i].0@ == key);
                let w = choose|w: int| 0 <= w < row.len() && (#[trigger] row[w]).0@ == key;
                assert(w == i);
                assert(lookup(row, key) == Some((row[i].1@, row[i].2)));
                assert(spec_merge_get(self.tables_rows(), key) == spec_merge_get(
                    pre.tables_rows(),
                    key,
                ));
                assert(self.tables_rows().drop_last() =~= Seq::<
                    Vec<(Vec<u8>, Vec<u8>, u64)>,
                >::empty());
                assert(spec_merge_get(
                    Seq::<Vec<(Vec<u8>, Vec<u8>, u64)>>::empty(),
                    key,
                ) is None);
                assert(self.tables_rows().last() == newrow);
                assert(spec_merge_get(self.tables_rows(), key) == lookup(row, key));
                assert(spec_merge_get(pre.tables_rows(), key) is Some);
                lemma_merge_get_some(pre.tables_rows(), key);
                let t0 = choose|t0: int|
                    0 <= t0 < pre.tables_rows().len() && lookup(
                        (#[trigger] pre.tables_rows()[t0])@,
                        key,
                    ) == spec_merge_get(pre.tables_rows(), key);
                assert(pre.tables_rows()[t0] == pre.sstables@[t0].entries);
                let src = pre.sstables@[t0].entries@;
                assert(lookup(src, key) == Some((row[i].1@, row[i].2)));
                let w0 = choose|w0: int| 0 <= w0 < src.len() && (#[trigger] src[w0]).0@ == key;
                assert(src[w0].2 <= pre.last_ts);
            }
            assert forall|k: Seq<u8>| #[trigger]
                self.spec_get_model(k) == pre.spec_get_model(k) by {
                assert(spec_merge_get(self.tables_rows(), k) == spec_merge_get(
                    pre.tables_rows(),
                    k,
                ));
                assert(self.all_rows().drop_last() =~= self.tables_rows());
                assert(self.all_rows().last() == self.memtable.entries);
                assert(pre.all_rows().drop_last() =~= pre.tables_rows());
                assert(pre.all_rows().last() == pre.memtable.entries);
            }
        }
        Ok(())
    }

    /// Number of SSTables currently installed.
    pub fn sstable_count(&self) -> (r: usize)
        ensures
            r == self.sstables@.len(),
    {
        self.sstables.len()
    }

    /// Accumulated approximate size of the memtable.
    pub fn memtable_size(&self) -> (r: usize)
        ensures
            r == self.memtable.approx_bytes,
    {
        self.memtable.size_bytes()
    }

    /// A point-in-time summary.
    pub fn stats(&self) -> (r: EngineStats)
        ensures
            r.memtable_entries == self.memtable.entries@.len(),
            r.memtable_bytes == self.memtable.approx_bytes,
            r.num_sstables == self.sstables@.len(),
            r.immutable_memtable_entries == 0,
    {
        EngineStats {
            memtable_entries: self.memtable.len(),
            memtable_bytes: self.memtable.size_bytes(),
            num_sstables: self.sstables.len(),
            immutable_memtable_entries: 0,
        }
    }

    /// Persist the engine: the WAL segment files and the SSTable files, as
    /// they would stand on disk.  Re-opening the result sees every
    /// acknowledged write again.
    pub fn close(self) -> (r: DataDir)
        requires
            self.wf(),
        ensures
            r.wf(),
            r.sstables@.len() == self.sstables@.len(),
            forall|i: int|
                0 <= i < self.sstables@.len() ==> r.sstables@[i] == self.sstables@[i].file,
            r.wal_segments@.len() == self.wal.closed@.len() + 1,
            forall|i: int|
                0 <= i < self.wal.closed@.len() ==> (#[trigger] r.wal_segments@[i]).1@
                    == self.wal.closed@[i].durable@,
            r.wal_segments@[r.wal_segments@.len() - 1].1@ == self.wal.current.durable@,
    {
        let mut engine = self;
        let wal_segments = engine.wal.export_files();
        let mut files: Vec<SsTableFile> = Vec::new();
        let ghost readers0 = engine.sstables@;
        let mut readers = engine.sstables;
        proof {
            assert(readers@ =~= readers0.skip(0));
        }
        while readers.len() > 0
            invariant
                readers@.len() <= readers0.len(),
                readers@ == readers0.skip(readers0.len() - readers@.len()),
                files@.len() == readers0.len() - readers@.len(),
                forall|i: int|
                    0 <= i < files@.len() ==> files@[i] == (#[trigger] readers0[i]).file,
            decreases readers@.len(),
        {
            let ghost k = readers0.len() - readers@.len();
            let reader = readers.remove(0);
            proof {
                assert(reader == readers0[k]);
                assert(readers@ =~= readers0.skip(k + 1));
            }
            let file = reader.into_file();
            files.push(file);
        }
        proof {
            assert forall|i: int| 0 <= i < files@.len() implies (#[trigger] files@[i]).wf()
                && files@[i].id < u64::MAX by {
                assert(files@[i] == self.sstables@[i].file);
                assert(self.sstables@[i].wf());
            }
            assert forall|i: int, j: int|
                0 <= i < j < files@.len() implies files@[i].id < files@[j].id by {
                assert(files@[i] == self.sstables@[i].file);
                assert(files@[j] == self.sstables@[j].file);
            }
            assert forall|i: int|
                0 <= i < wal_segments@.len() implies 1 <= (#[trigger] wal_segments@[i]).0
                    < u64::MAX by {
                if i < self.wal.closed@.len() {
                    assert(wal_segments@[i].0 == self.wal.closed@[i].number);
                } else {
                    assert(wal_segments@[i].0 == self.wal.current.number);
                }
            }
        }
        DataDir { wal_segments, sstables: files }
    }

    /// Adopt a WAL write-buffer budget: how many bytes may sit unflushed
    /// between appends.
    pub fn set_wal_buffer_capacity(&mut self, capacity: usize)
        requires
            old(self).wf(),
        ensures
            final(self).wf(),
            *final(self) == (StorageEngine { wal: final(self).wal, ..*old(self) }),
            final(self).wal == (Wal { buffer_capacity: capacity, ..old(self).wal }),
    {
        self.wal.set_buffer_capacity(capacity);
    }

    /// Lower the replica floor for WAL retention (`u64::MAX` when no
    /// replica is connected).
    pub fn set_min_replica_segment(&mut self, floor: u64)
        requires
            old(self).wf(),
        ensures
            final(self).wf(),
            *final(self) == (StorageEngine { min_replica_segment: floor, ..*old(self) }),
    {
        self.min_replica_segment = floor;
    }
}

/// The mathematical image of a resolved candidate.
pub open spec fn opt_kv_model(o: Option<(Vec<u8>, u64)>) -> Option<(Seq<u8>, u64)> {
    match o {
        None => None,
        Some(p) => Some((p.0@, p.1)),
    }
}

/// What replaying a row of recovered entries leaves for a key: the last
/// record wins.
pub open spec fn spec_replay_get(entries: Seq<EntryModel>, k: Seq<u8>) -> Option<(Seq<u8>, u64)>
    decreases entries.len(),
{
    if entries.len() == 0 {
        None
    } else if entries.last().key == k {
        Some((entries.last().value, entries.last().timestamp))
    } else {
        spec_replay_get(entries.drop_last(), k)
    }
}

/// Law: a write that reached the durable log is read back after a
/// restart.  Replay resolves a key to its last durable record, so an
/// acknowledged put whose record no later write superseded comes back
/// with its value; together with the log's own round trip (recovery of
/// the exported files yields exactly the durable records, in order) this
/// carries a write across a stop and a reopen.
pub proof fn lemma_replay_reads_last_write(entries: Seq<EntryModel>, k: Seq<u8>, i: int)
    requires
        0 <= i < entries.len(),
        entries[i].key == k,
        forall|j: int| i < j < entries.len() ==> (#[trigger] entries[j]).key != k,
    ensures
        spec_replay_get(entries, k) == Some((entries[i].value, entries[i].timestamp)),
    decreases entries.len(),
{
    if i == entries.len() - 1 {
    } else {
        assert(entries.last().key != k);
        assert forall|j: int|
            i < j < entries.drop_last().len() implies (#[trigger] entries.drop_last()[j]).key
                != k by {
            assert(entries.drop_last()[j] == entries[j]);
        }
        assert(entries.drop_last()[i] == entries[i]);
        lemma_replay_reads_last_write(entries.drop_last(), k, i);
    }
}

/// What the memtable's size estimate charges for replaying a row of
/// records, in order.
pub open spec fn spec_replay_cost(es: Seq<EntryModel>) -> int
    decreases es.len(),
{
    if es.len() == 0 {
        0
    } else {
        spec_replay_cost(es.drop_last()) + 16 + es.last().key.len() + es.last().value.len()
    }
}

proof fn lemma_replay_cost_nonneg(es: Seq<EntryModel>)
    ensures
        spec_replay_cost(es) >= 0,
    decreases es.len(),
{
    if es.len() > 0 {
        lemma_replay_cost_nonneg(es.drop_last());
    }
}

proof fn lemma_replay_cost_prefix(es: Seq<EntryModel>, i: int)
    requires
        0 <= i <= es.len(),
    ensures
        spec_replay_cost(es.take(i)) <= spec_replay_cost(es),
    decreases es.len(),
{
    if i == es.len() {
        assert(es.take(i) =~= es);
    } else {
        assert(es.drop_last().take(i) =~= es.take(i));
        lemma_replay_cost_prefix(es.drop_last(), i);
    }
}

/// Clone the parts of the recovered entry at `idx`.
fn clone_entry_parts(entries: &Vec<Entry>, idx: usize) -> (e: (Vec<u8>, Vec<u8>, u64))
    requires
        idx < entries@.len(),
    ensures
        e.0@ == entries@[idx as int]@.key,
        e.1@ == entries@[idx as int]@.value,
        e.2 == entries@[idx as int]@.timestamp,
{
    let key = entries[idx].key.clone();
    let value = entries[idx].value.clone();
    let ts = entries[idx].timestamp;
    proof {
        assert(key@ =~= entries@[idx as int].key@);
        assert(value@ =~= entries@[idx as int].value@);
    }
    (key, value, ts)
}

/// The largest timestamp of a row (0 when empty).
fn max_row_ts(entries: &Vec<(Vec<u8>, Vec<u8>, u64)>) -> (r: u64)
    ensures
        forall|i: int| 0 <= i < entries@.len() ==> (#[trigger] entries@[i]).2 <= r,
{
    let mut best: u64 = 0;
    let n = entries.len();
    let mut i: usize = 0;
    while i < n
        invariant
            n == entries@.len(),
            i <= n,
            forall|j: int| 0 <= j < i ==> (#[trigger] entries@[j]).2 <= best,
        decreases n - i,
    {
        if entries[i].2 > best {
            best = entries[i].2;
        }
        i = i + 1;
    }
    best
}

} // verus!
