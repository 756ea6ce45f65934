//! The segmented write-ahead log.
//!
//! The log is a sequence of numbered segments.  All segments but the one
//! with the largest number are *closed*: immutable and readable.  Appends go
//! to the current segment through a bounded buffer; `flush` makes the
//! buffered records durable.  Rotation closes the current segment once its
//! size reaches the configured limit; retention deletes closed segments
//! below both the flush floor and the replica floor.
//!
//! Segment contents are held as encoded record bytes; the ghost fields tie
//! them to the sequences of entries they encode.

use vstd::prelude::*;
use vstd::string::StringExecFns;
use crate::{Entry, EntryModel, OpType};
use crate::error::StorageError;
use crate::record::{
    abs_records, all_encodable, encode_record, lemma_parse_segment_bytes,
    lemma_segment_bytes_concat, parse_segment, parse_segment_prefix, record_encodable,
    spec_parse_clean, spec_parse_segment, spec_record_bytes, spec_segment_bytes,
};

verus! {

/// Default segment size limit: 100 MiB.
pub const DEFAULT_SEGMENT_SIZE: usize = 100 * 1024 * 1024;

/// The projection of decoded records to their entries.
pub open spec fn entry_models(es: Seq<(OpType, EntryModel)>) -> Seq<EntryModel> {
    es.map_values(|oe: (OpType, EntryModel)| oe.1)
}

/// One segment of the log: its number, the bytes already durable, and the
/// bytes still sitting in the append buffer.
pub struct WalSegment {
    pub number: u64,
    pub durable: Vec<u8>,
    pub buffer: Vec<u8>,
    /// The entries the durable bytes encode.
    pub dents: Ghost<Seq<(OpType, EntryModel)>>,
    /// The entries the buffered bytes encode.
    pub bents: Ghost<Seq<(OpType, EntryModel)>>,
}

impl WalSegment {
    /// The bytes of the segment are exactly the records of its entries.
    pub open spec fn wf(self) -> bool {
        &&& self.durable@ == spec_segment_bytes(self.dents@)
        &&& self.buffer@ == spec_segment_bytes(self.bents@)
        &&& all_encodable(self.dents@)
        &&& all_encodable(self.bents@)
    }

    /// All records of the segment, durable ones first.
    pub open spec fn entries(self) -> Seq<(OpType, EntryModel)> {
        self.dents@ + self.bents@
    }

    /// Size of the segment in bytes, durable and buffered together.
    pub open spec fn size(self) -> int {
        self.durable@.len() as int + self.buffer@.len() as int
    }

    fn empty(number: u64) -> (s: WalSegment)
        ensures
            s.wf(),
            s.number == number,
            s.entries() =~= Seq::<(OpType, EntryModel)>::empty(),
            s.size() == 0,
    {
        WalSegment {
            number,
            durable: Vec::new(),
            buffer: Vec::new(),
            dents: Ghost(Seq::empty()),
            bents: Ghost(Seq::empty()),
        }
    }

    /// Move every buffered byte to the durable part.
    fn flush(&mut self)
        requires
            old(self).wf(),
        ensures
            final(self).wf(),
            final(self).number == old(self).number,
            final(self).entries() == old(self).entries(),
            final(self).dents@ == old(self).entries(),
            final(self).bents@.len() == 0,
            final(self).size() == old(self).size(),
    {
        proof {
            lemma_segment_bytes_concat(self.dents@, self.bents@);
        }
        let mut moved: Vec<u8> = Vec::new();
        core::mem::swap(&mut moved, &mut self.buffer);
        self.durable.append(&mut moved);
        proof {
            self.dents@ = self.dents@ + self.bents@;
            self.bents@ = Seq::empty();
            assert(self.buffer@ =~= spec_segment_bytes(self.bents@));
        }
    }
}

/// Totals `a + b`, capped at `u64::MAX`.
fn saturating_add_u64(a: u64, b: u64) -> (r: u64)
    ensures
        a + b <= u64::MAX ==> r == a + b,
        a + b > u64::MAX ==> r == u64::MAX,
{
    if a > u64::MAX - b {
        u64::MAX
    } else {
        a + b
    }
}

/// The segmented write-ahead log.
pub struct Wal {
    /// Closed segments, ascending by number, all below the current one.
    pub closed: Vec<WalSegment>,
    /// The active segment: the only one that accepts appends.
    pub current: WalSegment,
    /// Rotation threshold in bytes.
    pub segment_size_limit: usize,
    /// Buffered bytes are written out once the buffer reaches this size.
    pub buffer_capacity: usize,
    /// Largest segment number whose contents are persisted in an SSTable.
    pub last_flushed_segment: u64,
}

impl Wal {
    /// Well-formedness: every segment holds exactly the records of its
    /// entries, closed segments are fully durable and strictly ascending,
    /// and the current segment is above them all.
    pub open spec fn wf(self) -> bool {
        &&& forall|i: int|
            0 <= i < self.closed@.len() ==> (#[trigger] self.closed@[i]).wf()
        &&& forall|i: int|
            0 <= i < self.closed@.len() ==> (#[trigger] self.closed@[i]).bents@.len() == 0
        &&& forall|i: int, j: int|
            0 <= i < j < self.closed@.len() ==> self.closed@[i].number < self.closed@[j].number
        &&& forall|i: int|
            0 <= i < self.closed@.len() ==> (#[trigger] self.closed@[i]).number
                < self.current.number
        &&& forall|i: int| 0 <= i < self.closed@.len() ==> (#[trigger] self.closed@[i]).number >= 1
        &&& self.current.wf()
        &&& self.current.number >= 1
    }

    /// The numbers of the closed segments, ascending.
    pub open spec fn closed_numbers(self) -> Seq<u64> {
        self.closed@.map_values(|s: WalSegment| s.number)
    }

    /// Whether segment `n` is closed and still present.
    pub open spec fn has_closed(self, n: u64) -> bool {
        exists|i: int| 0 <= i < self.closed@.len() && (#[trigger] self.closed@[i]).number == n
    }

    /// The records of closed segment `n`.
    pub open spec fn closed_entries(self, n: u64) -> Seq<(OpType, EntryModel)> {
        let i = choose|i: int|
            0 <= i < self.closed@.len() && (#[trigger] self.closed@[i]).number == n;
        self.closed@[i].entries()
    }

    /// Total size of the log in bytes, all segments together.
    pub open spec fn total_size(self) -> int {
        self.current.size() + spec_sum_sizes(self.closed@)
    }

    /// Whether the next append will first rotate to a new segment.
    pub open spec fn rotation_pending(self) -> bool {
        self.current.size() >= self.segment_size_limit
    }

    /// A fresh log: one empty active segment, numbered 1.
    pub fn new(buffer_capacity: usize) -> (w: Wal)
        ensures
            w.wf(),
            w.closed@.len() == 0,
            w.current.number == 1,
            w.current.entries() =~= Seq::<(OpType, EntryModel)>::empty(),
            w.segment_size_limit == DEFAULT_SEGMENT_SIZE,
            w.buffer_capacity == buffer_capacity,
            w.last_flushed_segment == 0,
    {
        Wal {
            closed: Vec::new(),
            current: WalSegment::empty(1),
            segment_size_limit: DEFAULT_SEGMENT_SIZE,
            buffer_capacity,
            last_flushed_segment: 0,
        }
    }

    /// Lower the rotation threshold (tests use small segments).
    pub fn set_segment_size_limit(&mut self, limit: usize)
        requires
            old(self).wf(),
        ensures
            final(self).wf(),
            *final(self) == (Wal { segment_size_limit: limit, ..*old(self) }),
    {
        self.segment_size_limit = limit;
    }

    /// Change how many bytes may sit in the write buffer before an append
    /// flushes them.
    pub fn set_buffer_capacity(&mut self, capacity: usize)
        requires
            old(self).wf(),
        ensures
            final(self).wf(),
            *final(self) == (Wal { buffer_capacity: capacity, ..*old(self) }),
    {
        self.buffer_capacity = capacity;
    }

    /// Number of the active segment.
    pub fn current_segment_number(&self) -> (n: u64)
        ensures
            n == self.current.number,
    {
        self.current.number
    }

    /// Append a PUT record for `entry`.
    pub fn append(&mut self, entry: &Entry) -> (r: Result<(), StorageError>)
        requires
            old(self).wf(),
        ensures
            final(self).wf(),
            r is Ok <==> record_encodable(entry@) && !(old(self).rotation_pending() && old(
                self,
            ).current.number == u64::MAX),
            r is Err ==> *final(self) == *old(self),
            r is Ok ==> final(self).appended_from(*old(self), OpType::Put, entry@),
    {
        self.append_operation(OpType::Put, entry)
    }

    /// Append a DELETE record: a tombstone entry with an empty value.
    pub fn append_delete(&mut self, key: &Vec<u8>, timestamp: u64) -> (r: Result<
        (),
        StorageError,
    >)
        requires
            old(self).wf(),
        ensures
            final(self).wf(),
            r is Ok <==> key@.len() + 14 <= 0xFFFF && !(old(self).rotation_pending() && old(
                self,
            ).current.number == u64::MAX),
            r is Err ==> *final(self) == *old(self),
            r is Ok ==> final(self).appended_from(
                *old(self),
                OpType::Delete,
                EntryModel { key: key@, value: Seq::empty(), timestamp },
            ),
    {
        let entry = Entry { key: key.clone(), value: Vec::new(), timestamp };
        self.append_operation(OpType::Delete, &entry)
    }

    /// How an append changes the log: either the record lands in the current
    /// segment, or — when the size limit was reached — the current segment
    /// is flushed and closed first and the record opens segment `number+1`.
    /// The record that first pushes a segment past the limit therefore stays
    /// in the old segment; rotation happens on the next append.
    pub open spec fn appended_from(self, pre: Wal, op: OpType, e: EntryModel) -> bool {
        &&& if pre.rotation_pending() {
            &&& self.closed@.len() == pre.closed@.len() + 1
            &&& self.closed@[pre.closed@.len() as int].number == pre.current.number
            &&& self.closed@[pre.closed@.len() as int].entries() == pre.current.entries()
            &&& forall|i: int|
                0 <= i < pre.closed@.len() ==> (#[trigger] self.closed@[i]).entries()
                    == pre.closed@[i].entries() && self.closed@[i].number == pre.closed@[i].number
            &&& self.current.number == pre.current.number + 1
            &&& self.current.entries() == seq![(op, e)]
        } else {
            &&& self.closed@ == pre.closed@
            &&& self.current.number == pre.current.number
            &&& self.current.entries() == pre.current.entries().push((op, e))
        }
        &&& self.segment_size_limit == pre.segment_size_limit
        &&& self.buffer_capacity == pre.buffer_capacity
        &&& self.last_flushed_segment == pre.last_flushed_segment
    }

    fn append_operation(&mut self, op: OpType, entry: &Entry) -> (r: Result<(), StorageError>)
        requires
            old(self).wf(),
        ensures
            final(self).wf(),
            r is Ok <==> record_encodable(entry@) && !(old(self).rotation_pending() && old(
                self,
            ).current.number == u64::MAX),
            r is Err ==> *final(self) == *old(self),
            r is Ok ==> final(self).appended_from(*old(self), op, entry@),
    {
        let record = match encode_record(op, entry) {
            Ok(record) => record,
            Err(e) => {
                return Err(e);
            },
        };
        let rotate = self.current.durable.len() >= self.segment_size_limit
            || self.current.buffer.len() >= self.segment_size_limit - self.current.durable.len();
        if rotate {
            if self.current.number == u64::MAX {
                return Err(
                    StorageError::Io(String::from_str("WAL segment numbers exhausted")),
                );
            }
            self.current.flush();
            let next_number = self.current.number + 1;
            let mut closed_segment = WalSegment::empty(next_number);
            core::mem::swap(&mut closed_segment, &mut self.current);
            self.closed.push(closed_segment);
        }
        // The record goes into the buffer of the (possibly fresh) current
        // segment; a full buffer is written out at once.
        let ghost prior = self.current.bents@;
        self.current.buffer.extend_from_slice(record.as_slice());
        proof {
            lemma_segment_bytes_concat(prior, seq![(op, entry@)]);
            assert(spec_segment_bytes(seq![(op, entry@)].skip(1)) =~= Seq::<u8>::empty());
            assert(spec_segment_bytes(seq![(op, entry@)]) =~= spec_record_bytes(op, entry@));
            assert(prior + seq![(op, entry@)] =~= prior.push((op, entry@)));
            self.current.bents@ = prior.push((op, entry@));
            assert(self.current.buffer@ =~= spec_segment_bytes(self.current.bents@));
            assert(self.current.entries() =~= if old(self).rotation_pending() {
                seq![(op, entry@)]
            } else {
                old(self).current.entries().push((op, entry@))
            });
        }
        if self.current.buffer.len() >= self.buffer_capacity {
            self.current.flush();
        }
        Ok(())
    }

    /// Force every buffered record of the active segment to be durable.
    pub fn flush(&mut self) -> (r: Result<(), StorageError>)
        requires
            old(self).wf(),
        ensures
            final(self).wf(),
            r is Ok,
            final(self).closed@ == old(self).closed@,
            final(self).current.number == old(self).current.number,
            final(self).current.entries() == old(self).current.entries(),
            final(self).current.dents@ == old(self).current.entries(),
            final(self).current.bents@.len() == 0,
            final(self).segment_size_limit == old(self).segment_size_limit,
            final(self).buffer_capacity == old(self).buffer_capacity,
            final(self).last_flushed_segment == old(self).last_flushed_segment,
    {
        self.current.flush();
        Ok(())
    }

    /// Mark everything up to the active segment as persisted in SSTables.
    pub fn mark_flushed(&mut self) -> (r: Result<(), StorageError>)
        requires
            old(self).wf(),
        ensures
            final(self).wf(),
            r is Ok,
            *final(self) == (Wal { last_flushed_segment: old(self).current.number, ..*old(self) }),
    {
        self.last_flushed_segment = self.current.number;
        Ok(())
    }

    /// Delete closed segments no consumer needs any more.
    ///
    /// A segment is deleted exactly when its number is strictly below both
    /// floors: `last_flushed_segment` (its contents live in an SSTable) and
    /// `min_replica_segment` (no live replica still wants it; a caller
    /// without replicas passes `u64::MAX`).  So a deleted segment number `n`
    /// always has `n < last_flushed_segment` and `n < min_replica_segment`.
    pub fn cleanup_old_segments(&mut self, min_replica_segment: u64) -> (r: Result<
        (),
        StorageError,
    >)
        requires
            old(self).wf(),
        ensures
            final(self).wf(),
            r is Ok,
            final(self).closed@ == old(self).closed@.filter(
                |s: WalSegment|
                    !(s.number < old(self).last_flushed_segment && s.number
                        < min_replica_segment),
            ),
            final(self).current == old(self).current,
            final(self).segment_size_limit == old(self).segment_size_limit,
            final(self).buffer_capacity == old(self).buffer_capacity,
            final(self).last_flushed_segment == old(self).last_flushed_segment,
    {
        let ghost pred = |s: WalSegment|
            !(s.number < old(self).last_flushed_segment && s.number < min_replica_segment);
        let ghost total = old(self).closed@.len() as int;
        let mut kept: Vec<WalSegment> = Vec::new();
        let mut rest: Vec<WalSegment> = Vec::new();
        core::mem::swap(&mut rest, &mut self.closed);
        proof {
            assert(rest@ =~= old(self).closed@.skip(0));
            assert(old(self).closed@.take(0).filter(pred) =~= Seq::<WalSegment>::empty());
        }
        while rest.len() > 0
            invariant
                old(self).wf(),
                rest@.len() <= total,
                total == old(self).closed@.len(),
                rest@ == old(self).closed@.skip(total - rest@.len()),
                kept@ == old(self).closed@.take(total - rest@.len()).filter(pred),
                self.last_flushed_segment == old(self).last_flushed_segment,
                forall|s: WalSegment| #[trigger]
                    pred(s) == !(s.number < old(self).last_flushed_segment && s.number
                        < min_replica_segment),
                forall|i: int, j: int|
                    0 <= i < j < kept@.len() ==> kept@[i].number < kept@[j].number,
                forall|i: int|
                    0 <= i < kept@.len() ==> (#[trigger] kept@[i]).wf() && kept@[i].bents@.len()
                        == 0 && kept@[i].number < old(self).current.number && kept@[i].number
                        >= 1,
                forall|i: int|
                    0 <= i < kept@.len() && rest@.len() > 0 ==> (#[trigger] kept@[i]).number
                        < rest@[0].number,
            decreases rest@.len(),
        {
            let ghost k = total - rest@.len();
            let seg = rest.remove(0);
            let keep = !(seg.number < self.last_flushed_segment && seg.number
                < min_replica_segment);
            proof {
                assert(seg == old(self).closed@[k]);
                assert(rest@ =~= old(self).closed@.skip(k + 1));
                assert(old(self).closed@.take(k + 1) =~= old(self).closed@.take(k).push(
                    old(self).closed@[k],
                ));
                reveal_filter_push(old(self).closed@.take(k), old(self).closed@[k], pred);
                assert(pred(seg) == !(seg.number < old(self).last_flushed_segment && seg.number
                    < min_replica_segment));
                assert(keep == pred(seg));
            }
            if keep {
                kept.push(seg);
            }
        }
        proof {
            assert(old(self).closed@.take(total) =~= old(self).closed@);
        }
        self.closed = kept;
        Ok(())
    }

    /// Whether segment `n` is closed and present: only those segments can be
    /// served to replicas.
    pub fn is_segment_available(&self, n: u64) -> (r: bool)
        requires
            self.wf(),
        ensures
            r == self.has_closed(n),
    {
        let mut i: usize = 0;
        while i < self.closed.len()
            invariant
                i <= self.closed@.len(),
                forall|j: int| 0 <= j < i ==> (#[trigger] self.closed@[j]).number != n,
            decreases self.closed@.len() - i,
        {
            if self.closed[i].number == n {
                return true;
            }
            i = i + 1;
        }
        false
    }

    /// The numbers of the closed segments, ascending.
    pub fn list_closed_segments(&self) -> (r: Result<Vec<u64>, StorageError>)
        requires
            self.wf(),
        ensures
            r matches Ok(v) && v@ == self.closed_numbers(),
    {
        let mut out: Vec<u64> = Vec::new();
        let mut i: usize = 0;
        while i < self.closed.len()
            invariant
                i <= self.closed@.len(),
                out@ == self.closed@.take(i as int).map_values(|s: WalSegment| s.number),
            decreases self.closed@.len() - i,
        {
            out.push(self.closed[i].number);
            proof {
                assert(self.closed@.take(i as int + 1) =~= self.closed@.take(i as int).push(
                    self.closed@[i as int],
                ));
                assert(self.closed@.take(i as int + 1).map_values(|s: WalSegment| s.number)
                    =~= self.closed@.take(i as int).map_values(|s: WalSegment| s.number).push(
                    self.closed@[i as int].number,
                ));
            }
            i = i + 1;
        }
        proof {
            assert(self.closed@.take(self.closed@.len() as int) =~= self.closed@);
        }
        Ok(out)
    }

    /// Read every record of closed segment `n`, in file order.  The active
    /// segment and deleted or never-written segments are `NotFound`.
    pub fn read_segment(&self, n: u64) -> (r: Result<Vec<Entry>, StorageError>)
        requires
            self.wf(),
        ensures
            r is Ok <==> self.has_closed(n),
            r matches Ok(v) ==> v@.map_values(|e: Entry| e@) == entry_models(
                self.closed_entries(n),
            ),
    {
        let mut i: usize = 0;
        while i < self.closed.len()
            invariant
                self.wf(),
                i <= self.closed@.len(),
                forall|j: int| 0 <= j < i ==> (#[trigger] self.closed@[j]).number != n,
            decreases self.closed@.len() - i,
        {
            if self.closed[i].number == n {
                let (records, _clean) = parse_segment(&self.closed[i].durable);
                proof {
                    lemma_parse_segment_bytes(self.closed@[i as int].dents@);
                    assert(self.closed@[i as int].entries() =~= self.closed@[i as int].dents@);
                }
                let mut out: Vec<Entry> = Vec::new();
                let m = records.len();
                let mut j: usize = 0;
                while j < m
                    invariant
                        j <= m,
                        m == records@.len(),
                        out@.map_values(|e: Entry| e@) =~= entry_models(
                            abs_records(records@.take(j as int)),
                        ),
                    decreases m - j,
                {
                    let entry = clone_entry(&records, j);
                    out.push(entry);
                    proof {
                        assert(records@.take(j as int + 1) =~= records@.take(j as int).push(
                            records@[j as int],
                        ));
                        assert(out@.map_values(|e: Entry| e@) =~= entry_models(
                            abs_records(records@.take(j as int)),
                        ).push(records@[j as int].1@));
                        assert(entry_models(abs_records(records@.take(j as int + 1)))
                            =~= entry_models(abs_records(records@.take(j as int))).push(
                            records@[j as int].1@,
                        ));
                    }
                    j = j + 1;
                }
                proof {
                    assert(records@.take(m as int) =~= records@);
                    assert(entry_models(abs_records(records@)) =~= entry_models(
                        self.closed_entries(n),
                    ));
                }
                return Ok(out);
            }
            i = i + 1;
        }
        Err(StorageError::NotFound(String::from_str("segment is active or was deleted")))
    }

    /// Total bytes held by the log, capped at `u64::MAX`.
    pub fn size(&self) -> (r: Result<u64, StorageError>)
        requires
            self.wf(),
        ensures
            r matches Ok(v) && (v == if self.total_size() <= u64::MAX {
                self.total_size()
            } else {
                u64::MAX as int
            }),
    {
        Ok(self.file_size())
    }

    /// Total bytes held by the log, capped at `u64::MAX`.
    pub fn file_size(&self) -> (r: u64)
        requires
            self.wf(),
        ensures
            r == if self.total_size() <= u64::MAX {
                self.total_size()
            } else {
                u64::MAX as int
            },
    {
        let mut total: u64 = saturating_add_u64(
            self.current.durable.len() as u64,
            self.current.buffer.len() as u64,
        );
        let mut i: usize = 0;
        while i < self.closed.len()
            invariant
                i <= self.closed@.len(),
                total == if self.current.size() + spec_sum_sizes(self.closed@.take(i as int))
                    <= u64::MAX {
                    self.current.size() + spec_sum_sizes(self.closed@.take(i as int))
                } else {
                    u64::MAX as int
                },
            decreases self.closed@.len() - i,
        {
            let seg_size = saturating_add_u64(
                self.closed[i].durable.len() as u64,
                self.closed[i].buffer.len() as u64,
            );
            total = saturating_add_u64(total, seg_size);
            proof {
                lemma_sum_sizes_take(self.closed@, i as int);
            }
            i = i + 1;
        }
        proof {
            assert(self.closed@.take(self.closed@.len() as int) =~= self.closed@);
        }
        total
    }
}

/// Sum of the sizes of a sequence of segments.
pub open spec fn spec_sum_sizes(segs: Seq<WalSegment>) -> int
    decreases segs.len(),
{
    if segs.len() == 0 {
        0
    } else {
        spec_sum_sizes(segs.drop_last()) + segs.last().size()
    }
}

proof fn lemma_sum_sizes_take(segs: Seq<WalSegment>, i: int)
    requires
        0 <= i < segs.len(),
    ensures
        spec_sum_sizes(segs.take(i + 1)) == spec_sum_sizes(segs.take(i)) + segs[i].size(),
{
    assert(segs.take(i + 1).drop_last() =~= segs.take(i));
    assert(segs.take(i + 1).last() == segs[i]);
}

proof fn reveal_filter_push(s: Seq<WalSegment>, x: WalSegment, pred: spec_fn(WalSegment) -> bool)
    ensures
        s.push(x).filter(pred) == if pred(x) {
            s.filter(pred).push(x)
        } else {
            s.filter(pred)
        },
{
    reveal(Seq::filter);
    assert(s.push(x).drop_last() =~= s);
}

/// The durable records of a row of segments, concatenated in order.
pub open spec fn spec_segments_dents(segs: Seq<WalSegment>) -> Seq<(OpType, EntryModel)>
    decreases segs.len(),
{
    if segs.len() == 0 {
        Seq::empty()
    } else {
        segs[0].dents@ + spec_segments_dents(segs.skip(1))
    }
}

/// What replaying a row of segment files yields: the records of each file
/// in turn; a file that does not parse cleanly is the torn tail, and
/// nothing after it is replayed.
pub open spec fn spec_recover(files: Seq<(u64, Vec<u8>)>) -> Seq<EntryModel>
    decreases files.len(),
{
    if files.len() == 0 {
        Seq::empty()
    } else {
        let first = entry_models(spec_parse_segment(files[0].1@));
        if spec_parse_clean(files[0].1@) {
            first + spec_recover(files.skip(1))
        } else {
            first
        }
    }
}

impl Wal {
    /// Every record of the log that would survive a crash: the records of
    /// the closed segments followed by the durable records of the active one.
    pub open spec fn durable_records(self) -> Seq<(OpType, EntryModel)> {
        spec_segments_dents(self.closed@) + self.current.dents@
    }

    /// Reopen a log from the segment files found on disk, given ascending by
    /// segment number.  The old segments all become closed — immutable and
    /// readable up to their last whole record — and a fresh segment one past
    /// the largest number becomes the active one.
    pub fn open(files: &Vec<(u64, Vec<u8>)>, buffer_capacity: usize) -> (w: Wal)
        requires
            forall|i: int, j: int|
                0 <= i < j < files@.len() ==> files@[i].0 < files@[j].0,
            forall|i: int| 0 <= i < files@.len() ==> 1 <= #[trigger] files@[i].0 < u64::MAX,
        ensures
            w.wf(),
            w.closed@.len() == files@.len(),
            forall|i: int|
                0 <= i < files@.len() ==> (#[trigger] w.closed@[i]).number == files@[i].0
                    && w.closed@[i].dents@ == spec_parse_segment(files@[i].1@),
            w.current.number == if files@.len() == 0 {
                1u64
            } else {
                (files@[files@.len() - 1].0 + 1) as u64
            },
            w.current.entries() == Seq::<(OpType, EntryModel)>::empty(),
            w.segment_size_limit == DEFAULT_SEGMENT_SIZE,
            w.buffer_capacity == buffer_capacity,
            w.last_flushed_segment == 0,
    {
        let mut closed: Vec<WalSegment> = Vec::new();
        let mut next_number: u64 = 1;
        let n = files.len();
        let mut i: usize = 0;
        while i < n
            invariant
                n == files@.len(),
                i <= n,
                forall|k: int, j: int|
                    0 <= k < j < files@.len() ==> files@[k].0 < files@[j].0,
                forall|k: int| 0 <= k < files@.len() ==> 1 <= #[trigger] files@[k].0 < u64::MAX,
                closed@.len() == i,
                forall|k: int|
                    0 <= k < i ==> (#[trigger] closed@[k]).number == files@[k].0
                        && closed@[k].dents@ == spec_parse_segment(files@[k].1@),
                forall|k: int|
                    0 <= k < i ==> (#[trigger] closed@[k]).wf() && closed@[k].bents@.len() == 0,
                next_number == if i == 0 {
                    1u64
                } else {
                    (files@[i - 1].0 + 1) as u64
                },
                forall|k: int| 0 <= k < i ==> (#[trigger] closed@[k]).number < next_number,
            decreases n - i,
        {
            let (_records, consumed, _clean) = parse_segment_prefix(&files[i].1);
            let mut durable = files[i].1.clone();
            durable.truncate(consumed);
            proof {
                assert(durable@ =~= files@[i as int].1@.take(consumed as int));
            }
            let seg = WalSegment {
                number: files[i].0,
                durable,
                buffer: Vec::new(),
                dents: Ghost(spec_parse_segment(files@[i as int].1@)),
                bents: Ghost(Seq::empty()),
            };
            proof {
                assert(seg.buffer@ =~= spec_segment_bytes(seg.bents@));
            }
            next_number = files[i].0 + 1;
            closed.push(seg);
            i = i + 1;
        }
        Wal {
            closed,
            current: WalSegment::empty(next_number),
            segment_size_limit: DEFAULT_SEGMENT_SIZE,
            buffer_capacity,
            last_flushed_segment: 0,
        }
    }

    /// The image of the log on disk: one file per segment, the active one
    /// last, each holding the segment's durable bytes.  Buffered records
    /// that were never flushed are not part of it.
    pub fn export_files(&self) -> (r: Vec<(u64, Vec<u8>)>)
        requires
            self.wf(),
        ensures
            r@.len() == self.closed@.len() + 1,
            forall|i: int|
                0 <= i < self.closed@.len() ==> (#[trigger] r@[i]).0 == self.closed@[i].number
                    && r@[i].1@ == self.closed@[i].durable@,
            r@[r@.len() - 1].0 == self.current.number,
            r@[r@.len() - 1].1@ == self.current.durable@,
            forall|i: int, j: int| 0 <= i < j < r@.len() ==> r@[i].0 < r@[j].0,
    {
        let mut out: Vec<(u64, Vec<u8>)> = Vec::new();
        let mut i: usize = 0;
        while i < self.closed.len()
            invariant
                self.wf(),
                i <= self.closed@.len(),
                out@.len() == i,
                forall|k: int|
                    0 <= k < i ==> (#[trigger] out@[k]).0 == self.closed@[k].number
                        && out@[k].1@ == self.closed@[k].durable@,
            decreases self.closed@.len() - i,
        {
            let bytes = self.closed[i].durable.clone();
            let number = self.closed[i].number;
            proof {
                assert(bytes@ =~= self.closed@[i as int].durable@);
            }
            out.push((number, bytes));
            i = i + 1;
        }
        let current_bytes = self.current.durable.clone();
        proof {
            assert(current_bytes@ =~= self.current.durable@);
        }
        out.push((self.current.number, current_bytes));
        out
    }

    /// Replay a row of segment files, ascending by number: every whole
    /// record of every file, in order, stopping altogether at the first file
    /// with a torn or corrupt tail.
    pub fn recover(files: &Vec<(u64, Vec<u8>)>) -> (r: Vec<Entry>)
        requires
            forall|i: int, j: int|
                0 <= i < j < files@.len() ==> files@[i].0 < files@[j].0,
        ensures
            r@.map_values(|e: Entry| e@) == spec_recover(files@),
            forall|i: int| 0 <= i < r@.len() ==> record_encodable((#[trigger] r@[i])@),
    {
        let mut out: Vec<Entry> = Vec::new();
        let n = files.len();
        let mut i: usize = 0;
        let mut stopped = false;
        proof {
            assert(files@.skip(0) =~= files@);
            assert(out@.map_values(|e: Entry| e@) + spec_recover(files@) =~= spec_recover(
                files@,
            ));
        }
        while i < n && !stopped
            invariant
                n == files@.len(),
                i <= n,
                !stopped ==> spec_recover(files@) == out@.map_values(|e: Entry| e@)
                    + spec_recover(files@.skip(i as int)),
                stopped ==> spec_recover(files@) == out@.map_values(|e: Entry| e@),
                forall|k: int| 0 <= k < out@.len() ==> record_encodable((#[trigger] out@[k])@),
            decreases n - i,
        {
            let (records, clean) = parse_segment(&files[i].1);
            let ghost seg_entries = entry_models(abs_records(records@));
            let ghost tail = if clean {
                spec_recover(files@.skip(i as int + 1))
            } else {
                Seq::<EntryModel>::empty()
            };
            proof {
                assert(files@.skip(i as int)[0] == files@[i as int]);
                assert(files@.skip(i as int).skip(1) =~= files@.skip(i as int + 1));
                assert(entry_models(spec_parse_segment(files@[i as int].1@)) =~= seg_entries);
                assert(spec_recover(files@.skip(i as int)) == seg_entries + tail);
                assert(out@.map_values(|e: Entry| e@) + (seg_entries + tail) =~= out@.map_values(
                    |e: Entry| e@,
                ) + seg_entries.skip(0) + tail);
            }
            let m = records.len();
            let mut j: usize = 0;
            while j < m
                invariant
                    j <= m,
                    m == records@.len(),
                    all_encodable(abs_records(records@)),
                    seg_entries == entry_models(abs_records(records@)),
                    spec_recover(files@) == out@.map_values(|e: Entry| e@) + seg_entries.skip(
                        j as int,
                    ) + tail,
                    forall|k: int| 0 <= k < out@.len() ==> record_encodable((#[trigger] out@[k])@),
                decreases m - j,
            {
                let entry = clone_entry(&records, j);
                proof {
                    assert(abs_records(records@)[j as int].1 == records@[j as int].1@);
                    assert(record_encodable(entry@));
                    assert(seg_entries.skip(j as int) =~= seq![seg_entries[j as int]]
                        + seg_entries.skip(j as int + 1));
                    assert(entry@ == seg_entries[j as int]);
                    assert(out@.push(entry).map_values(|e: Entry| e@) =~= out@.map_values(
                        |e: Entry| e@,
                    ).push(entry@));
                    assert(out@.map_values(|e: Entry| e@).push(entry@) + seg_entries.skip(
                        j as int + 1,
                    ) =~= out@.map_values(|e: Entry| e@) + seg_entries.skip(j as int));
                }
                out.push(entry);
                j = j + 1;
            }
            proof {
                assert(seg_entries.skip(m as int) =~= Seq::<EntryModel>::empty());
                assert(out@.map_values(|e: Entry| e@) + Seq::<EntryModel>::empty() + tail
                    =~= out@.map_values(|e: Entry| e@) + tail);
                if !clean {
                    assert(out@.map_values(|e: Entry| e@) + tail =~= out@.map_values(
                        |e: Entry| e@,
                    ));
                }
            }
            i = i + 1;
            if !clean {
                stopped = true;
            }
        }
        proof {
            if !stopped {
                assert(files@.skip(n as int) =~= Seq::<(u64, Vec<u8>)>::empty());
                assert(out@.map_values(|e: Entry| e@) + spec_recover(files@.skip(n as int))
                    =~= out@.map_values(|e: Entry| e@));
            }
        }
        out
    }
}

/// Every record of a row of segments, durable or buffered, in order.
pub open spec fn spec_segments_records(segs: Seq<WalSegment>) -> Seq<(OpType, EntryModel)>
    decreases segs.len(),
{
    if segs.len() == 0 {
        Seq::empty()
    } else {
        segs[0].entries() + spec_segments_records(segs.skip(1))
    }
}

impl Wal {
    /// Every record the log holds: the closed segments' records followed
    /// by the active segment's, buffered ones included.
    pub open spec fn all_records(self) -> Seq<(OpType, EntryModel)> {
        spec_segments_records(self.closed@) + self.current.entries()
    }
}

/// Rows whose segments hold the same records hold the same records.
proof fn lemma_segments_records_congruent(a: Seq<WalSegment>, b: Seq<WalSegment>)
    requires
        a.len() == b.len(),
        forall|i: int| 0 <= i < a.len() ==> (#[trigger] a[i]).entries() == b[i].entries(),
    ensures
        spec_segments_records(a) == spec_segments_records(b),
    decreases a.len(),
{
    if a.len() > 0 {
        assert(a[0].entries() == b[0].entries());
        assert forall|i: int|
            0 <= i < a.skip(1).len() implies (#[trigger] a.skip(1)[i]).entries() == b.skip(
            1,
        )[i].entries() by {
            assert(a.skip(1)[i] == a[i + 1]);
            assert(b.skip(1)[i] == b[i + 1]);
        }
        lemma_segments_records_congruent(a.skip(1), b.skip(1));
    }
}

/// Appending a segment to a row appends its records.
proof fn lemma_segments_records_push(segs: Seq<WalSegment>, x: WalSegment)
    ensures
        spec_segments_records(segs.push(x)) == spec_segments_records(segs) + x.entries(),
    decreases segs.len(),
{
    if segs.len() == 0 {
        assert(segs.push(x)[0] == x);
        assert(segs.push(x).skip(1) =~= Seq::<WalSegment>::empty());
        assert(spec_segments_records(Seq::<WalSegment>::empty()) == Seq::<
            (OpType, EntryModel),
        >::empty());
        assert(spec_segments_records(segs.push(x)) == x.entries() + Seq::<
            (OpType, EntryModel),
        >::empty());
        assert(x.entries() + Seq::<(OpType, EntryModel)>::empty() =~= spec_segments_records(segs)
            + x.entries());
    } else {
        assert(segs.push(x)[0] == segs[0]);
        assert(segs.push(x).skip(1) =~= segs.skip(1).push(x));
        lemma_segments_records_push(segs.skip(1), x);
        assert(spec_segments_records(segs.push(x)) == segs[0].entries() + (spec_segments_records(
            segs.skip(1),
        ) + x.entries()));
        assert(segs[0].entries() + (spec_segments_records(segs.skip(1)) + x.entries())
            =~= spec_segments_records(segs) + x.entries());
    }
}

/// In a row of fully flushed segments the durable records are all the
/// records.
proof fn lemma_segments_dents_eq_records(segs: Seq<WalSegment>)
    requires
        forall|i: int| 0 <= i < segs.len() ==> (#[trigger] segs[i]).bents@.len() == 0,
    ensures
        spec_segments_dents(segs) == spec_segments_records(segs),
    decreases segs.len(),
{
    if segs.len() > 0 {
        assert(segs[0].entries() =~= segs[0].dents@);
        assert forall|i: int|
            0 <= i < segs.skip(1).len() implies (#[trigger] segs.skip(1)[i]).bents@.len()
                == 0 by {
            assert(segs.skip(1)[i] == segs[i + 1]);
        }
        lemma_segments_dents_eq_records(segs.skip(1));
    }
}

/// Law: a fully flushed log is durable through and through — what a crash
/// would keep is everything the log holds.
pub proof fn lemma_wal_durable_after_flush(w: Wal)
    requires
        w.wf(),
        w.current.bents@.len() == 0,
    ensures
        w.durable_records() == w.all_records(),
{
    lemma_segments_dents_eq_records(w.closed@);
    assert(w.current.entries() =~= w.current.dents@);
}

/// One append adds exactly one record to the log, whether or not it
/// rotated to a new segment first.
pub proof fn lemma_append_extends_records(pre: Wal, post: Wal, op: OpType, e: EntryModel)
    requires
        post.appended_from(pre, op, e),
    ensures
        post.all_records() == pre.all_records().push((op, e)),
{
    if pre.rotation_pending() {
        let stand_in = pre.closed@.push(pre.current);
        assert forall|i: int|
            0 <= i < post.closed@.len() implies (#[trigger] post.closed@[i]).entries()
                == stand_in[i].entries() by {
            if i < pre.closed@.len() {
                assert(stand_in[i] == pre.closed@[i]);
            } else {
                assert(stand_in[i] == pre.current);
            }
        }
        lemma_segments_records_congruent(post.closed@, stand_in);
        lemma_segments_records_push(pre.closed@, pre.current);
        assert(post.all_records() =~= pre.all_records().push((op, e)));
    } else {
        lemma_segments_records_congruent(post.closed@, pre.closed@);
        assert(post.all_records() =~= pre.all_records().push((op, e)));
    }
}

/// Appending a segment to a row appends its durable records.
proof fn lemma_segments_dents_push(segs: Seq<WalSegment>, x: WalSegment)
    ensures
        spec_segments_dents(segs.push(x)) == spec_segments_dents(segs) + x.dents@,
    decreases segs.len(),
{
    if segs.len() == 0 {
        assert(segs.push(x)[0] == x);
        assert(segs.push(x).skip(1) =~= Seq::<WalSegment>::empty());
        assert(spec_segments_dents(Seq::<WalSegment>::empty()) == Seq::<
            (OpType, EntryModel),
        >::empty());
        assert(spec_segments_dents(segs.push(x)) == x.dents@ + Seq::<
            (OpType, EntryModel),
        >::empty());
        assert(x.dents@ + Seq::<(OpType, EntryModel)>::empty() =~= spec_segments_dents(segs)
            + x.dents@);
    } else {
        assert(segs.push(x)[0] == segs[0]);
        assert(segs.push(x).skip(1) =~= segs.skip(1).push(x));
        lemma_segments_dents_push(segs.skip(1), x);
        assert(spec_segments_dents(segs.push(x)) == segs[0].dents@ + (spec_segments_dents(
            segs.skip(1),
        ) + x.dents@));
        assert(segs[0].dents@ + (spec_segments_dents(segs.skip(1)) + x.dents@) =~= (segs[0].dents@
            + spec_segments_dents(segs.skip(1))) + x.dents@);
    }
}

/// Replaying files that each hold exactly the records of a well-formed
/// segment yields all those records: every file parses cleanly, so
/// recovery walks the whole row.
proof fn lemma_recover_segment_files(segs: Seq<WalSegment>, files: Seq<(u64, Vec<u8>)>)
    requires
        files.len() == segs.len(),
        forall|i: int| 0 <= i < segs.len() ==> (#[trigger] segs[i]).wf(),
        forall|i: int| 0 <= i < segs.len() ==> (#[trigger] files[i]).1@ == segs[i].durable@,
    ensures
        spec_recover(files) == entry_models(spec_segments_dents(segs)),
    decreases segs.len(),
{
    if segs.len() == 0 {
        assert(spec_recover(files) =~= entry_models(spec_segments_dents(segs)));
    } else {
        lemma_parse_segment_bytes(segs[0].dents@);
        assert(files[0].1@ == spec_segment_bytes(segs[0].dents@));
        lemma_recover_segment_files(segs.skip(1), files.skip(1));
        assert(spec_recover(files) == entry_models(segs[0].dents@) + spec_recover(files.skip(1)));
        assert(entry_models(segs[0].dents@ + spec_segments_dents(segs.skip(1))) =~= entry_models(
            segs[0].dents@,
        ) + entry_models(spec_segments_dents(segs.skip(1))));
    }
}

/// Law: re-opening the log replays exactly its durable records.  Recovering
/// from the files the log exports yields the records of every closed
/// segment followed by the flushed records of the active one, in append
/// order — what was appended and flushed comes back after a restart.
pub proof fn lemma_export_recover_roundtrip(w: Wal, files: Seq<(u64, Vec<u8>)>)
    requires
        w.wf(),
        files.len() == w.closed@.len() + 1,
        forall|i: int|
            0 <= i < w.closed@.len() ==> (#[trigger] files[i]).1@ == w.closed@[i].durable@,
        files[files.len() - 1].1@ == w.current.durable@,
    ensures
        spec_recover(files) == entry_models(w.durable_records()),
{
    let segs = w.closed@.push(w.current);
    assert(forall|i: int| 0 <= i < segs.len() ==> (#[trigger] segs[i]).wf());
    assert(forall|i: int|
        0 <= i < segs.len() ==> (#[trigger] files[i]).1@ == segs[i].durable@);
    lemma_recover_segment_files(segs, files);
    lemma_segments_dents_push(w.closed@, w.current);
}

/// Clone the entry at `idx` out of a vector of decoded records.
fn clone_entry(records: &Vec<(OpType, Entry)>, idx: usize) -> (e: Entry)
    requires
        idx < records@.len(),
    ensures
        e@ == records@[idx as int].1@,
{
    let key = records[idx].1.key.clone();
    let value = records[idx].1.value.clone();
    let timestamp = records[idx].1.timestamp;
    Entry { key, value, timestamp }
}

} // verus!
