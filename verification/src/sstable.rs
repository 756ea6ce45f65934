//! SSTables: persistent, immutable, sorted runs of keyed records.
//!
//! A table is a row of data blocks (see [`crate::block`]), an index mapping
//! each block's first key to its byte offset in the data region, a bloom
//! filter over every stored key, and the entry count.  The writer takes
//! records in strictly increasing key order and closes a block as soon as
//! it reaches the target size, *after* the record that crossed it, so
//! records never straddle blocks.  The reader loads the table and answers
//! point and range queries; the bloom filter short-circuits misses.

use vstd::prelude::*;
use vstd::string::StringExecFns;
use crate::block::{
    all_brecords_encodable, append_brecord, brecord_encodable, lemma_block_bytes_concat,
    lemma_block_parse_bytes, parse_block, spec_block_bytes,
};
use crate::bloom::BloomFilter;
use crate::error::StorageError;
use crate::keyorder::{lemma_lex_total, lemma_lex_trans, lex_less};
use crate::memtable::{
    clone_record, find_slot, kv_models, lemma_kv_bytes_concat, lemma_kv_bytes_nonneg, lookup,
    scan_range, sorted_by_key, sorted_kv_models, spec_kv_bytes,
};
use crate::keyorder::lex_leq;

verus! {

/// The default data-block target size: 16 KiB.
pub const DEFAULT_BLOCK_SIZE: usize = 16 * 1024;

/// The records of a row of blocks, concatenated in order.
pub open spec fn concat_chunks(chunks: Seq<Seq<(Seq<u8>, Seq<u8>, u64)>>) -> Seq<
    (Seq<u8>, Seq<u8>, u64),
>
    decreases chunks.len(),
{
    if chunks.len() == 0 {
        Seq::empty()
    } else {
        chunks[0] + concat_chunks(chunks.skip(1))
    }
}

/// Appending a chunk appends its records.
pub proof fn lemma_concat_chunks_push(
    chunks: Seq<Seq<(Seq<u8>, Seq<u8>, u64)>>,
    x: Seq<(Seq<u8>, Seq<u8>, u64)>,
)
    ensures
        concat_chunks(chunks.push(x)) == concat_chunks(chunks) + x,
    decreases chunks.len(),
{
    if chunks.len() == 0 {
        assert(chunks.push(x)[0] == x);
        assert(chunks.push(x).skip(1) =~= Seq::<Seq<(Seq<u8>, Seq<u8>, u64)>>::empty());
        assert(concat_chunks(Seq::<Seq<(Seq<u8>, Seq<u8>, u64)>>::empty()) == Seq::<
            (Seq<u8>, Seq<u8>, u64),
        >::empty());
        assert(concat_chunks(chunks.push(x)) == x + Seq::<(Seq<u8>, Seq<u8>, u64)>::empty());
        assert(x + Seq::<(Seq<u8>, Seq<u8>, u64)>::empty() =~= concat_chunks(chunks) + x);
    } else {
        assert(chunks.push(x)[0] == chunks[0]);
        assert(chunks.push(x).skip(1) =~= chunks.skip(1).push(x));
        lemma_concat_chunks_push(chunks.skip(1), x);
        assert(concat_chunks(chunks.push(x)) == chunks[0] + (concat_chunks(chunks.skip(1)) + x));
        assert(chunks[0] + (concat_chunks(chunks.skip(1)) + x) =~= (chunks[0] + concat_chunks(
            chunks.skip(1),
        )) + x);
    }
}

/// An immutable sorted table, as it stands on disk: data blocks, the index
/// of first keys, the bloom filter, and the entry count.
pub struct SsTableFile {
    /// The file id; files are installed and consulted in id order.
    pub id: u64,
    /// The encoded data blocks.
    pub blocks: Vec<Vec<u8>>,
    /// First key of each block and the block's byte offset in the data
    /// region.
    pub index: Vec<(Vec<u8>, u64)>,
    /// Membership filter over every stored key.
    pub bloom: BloomFilter,
    /// Number of records in the table.
    pub entry_count: u64,
    /// The records each block encodes.
    pub chunks: Ghost<Seq<Seq<(Seq<u8>, Seq<u8>, u64)>>>,
}

/// Total bytes of a row of blocks.
pub open spec fn spec_blocks_size(blocks: Seq<Vec<u8>>) -> int
    decreases blocks.len(),
{
    if blocks.len() == 0 {
        0
    } else {
        spec_blocks_size(blocks.drop_last()) + blocks.last()@.len()
    }
}

impl SsTableFile {
    /// All records of the table, in key order.
    pub open spec fn spec_entries(self) -> Seq<(Seq<u8>, Seq<u8>, u64)> {
        concat_chunks(self.chunks@)
    }

    /// Size of the data region in bytes, capped at `u64::MAX`.
    pub fn size_bytes(&self) -> (r: u64)
        ensures
            r == if spec_blocks_size(self.blocks@) <= u64::MAX {
                spec_blocks_size(self.blocks@)
            } else {
                u64::MAX as int
            },
    {
        let mut total: u64 = 0;
        let n = self.blocks.len();
        let mut i: usize = 0;
        while i < n
            invariant
                n == self.blocks@.len(),
                i <= n,
                total == if spec_blocks_size(self.blocks@.take(i as int)) <= u64::MAX {
                    spec_blocks_size(self.blocks@.take(i as int))
                } else {
                    u64::MAX as int
                },
            decreases n - i,
        {
            let len = self.blocks[i].len() as u64;
            total = if total > u64::MAX - len {
                u64::MAX
            } else {
                total + len
            };
            proof {
                assert(self.blocks@.take(i as int + 1).drop_last() =~= self.blocks@.take(
                    i as int,
                ));
                assert(self.blocks@.take(i as int + 1).last() == self.blocks@[i as int]);
            }
            i = i + 1;
        }
        proof {
            assert(self.blocks@.take(n as int) =~= self.blocks@);
        }
        total
    }

    /// The blocks encode the chunks; no block is empty; the index carries
    /// each block's first key; keys are strictly sorted across the whole
    /// table; the bloom filter holds every key.
    pub open spec fn wf(self) -> bool {
        &&& self.blocks@.len() == self.chunks@.len()
        &&& self.index@.len() == self.chunks@.len()
        &&& forall|b: int|
            0 <= b < self.blocks@.len() ==> (#[trigger] self.blocks@[b])@ == spec_block_bytes(
                self.chunks@[b],
            )
        &&& forall|b: int|
            0 <= b < self.chunks@.len() ==> all_brecords_encodable(#[trigger] self.chunks@[b])
        &&& forall|b: int| 0 <= b < self.chunks@.len() ==> (#[trigger] self.chunks@[b]).len() > 0
        &&& forall|b: int|
            0 <= b < self.index@.len() ==> (#[trigger] self.index@[b]).0@ == self.chunks@[b][0].0
        &&& sorted_kv_models(self.spec_entries())
        &&& self.bloom.wf()
        &&& forall|i: int|
            0 <= i < self.spec_entries().len() ==> self.bloom.keys@.contains(
                (#[trigger] self.spec_entries()[i]).0,
            )
        &&& self.entry_count == self.spec_entries().len()
    }
}

/// Law: a well-formed table is strictly sorted by key and its bloom
/// filter holds every stored key — a membership probe never reports a
/// stored key as absent.
/// Concatenating runs of block-encodable records yields block-encodable
/// records.
proof fn lemma_concat_chunks_encodable(chunks: Seq<Seq<(Seq<u8>, Seq<u8>, u64)>>)
    requires
        forall|b: int| 0 <= b < chunks.len() ==> all_brecords_encodable(#[trigger] chunks[b]),
    ensures
        all_brecords_encodable(concat_chunks(chunks)),
    decreases chunks.len(),
{
    if chunks.len() > 0 {
        assert forall|b: int|
            0 <= b < chunks.skip(1).len() implies all_brecords_encodable(
            #[trigger] chunks.skip(1)[b],
        ) by {
            assert(chunks.skip(1)[b] == chunks[b + 1]);
        }
        lemma_concat_chunks_encodable(chunks.skip(1));
        assert(all_brecords_encodable(chunks[0]));
        assert forall|i: int|
            0 <= i < concat_chunks(chunks).len() implies brecord_encodable(
            #[trigger] concat_chunks(chunks)[i],
        ) by {
            if i < chunks[0].len() {
                assert(concat_chunks(chunks)[i] == chunks[0][i]);
            } else {
                assert(concat_chunks(chunks)[i] == concat_chunks(chunks.skip(1))[i
                    - chunks[0].len()]);
            }
        }
    }
}

/// Every record of a well-formed table fits the block format.
pub proof fn lemma_file_entries_encodable(file: SsTableFile)
    requires
        file.wf(),
    ensures
        all_brecords_encodable(file.spec_entries()),
{
    lemma_concat_chunks_encodable(file.chunks@);
}

pub proof fn lemma_table_sorted_and_bloom_covered(file: SsTableFile)
    requires
        file.wf(),
    ensures
        sorted_kv_models(file.spec_entries()),
        forall|i: int|
            0 <= i < file.spec_entries().len() ==> file.bloom.keys@.contains(
                (#[trigger] file.spec_entries()[i]).0,
            ),
{
}

/// Builds one SSTable from records added in strictly increasing key order.
pub struct SsTableWriter {
    /// Id of the table being built.
    pub id: u64,
    /// Target size of a data block in bytes.
    pub block_size: usize,
    /// Closed blocks.
    pub blocks: Vec<Vec<u8>>,
    /// First key and byte offset of each closed block.
    pub index: Vec<(Vec<u8>, u64)>,
    /// The block being filled.
    pub current_block: Vec<u8>,
    /// First key of the block being filled.
    pub current_first: Option<Vec<u8>>,
    /// Total bytes in the closed blocks.
    pub offset: u64,
    /// Every key added, for the bloom filter.
    pub keys: Vec<Vec<u8>>,
    /// The last key added: new keys must come strictly after it.
    pub last_key: Option<Vec<u8>>,
    /// The records of each closed block.
    pub chunks: Ghost<Seq<Seq<(Seq<u8>, Seq<u8>, u64)>>>,
    /// The records of the block being filled.
    pub cchunk: Ghost<Seq<(Seq<u8>, Seq<u8>, u64)>>,
}

impl SsTableWriter {
    /// All records added so far, in order.
    pub open spec fn spec_entries(self) -> Seq<(Seq<u8>, Seq<u8>, u64)> {
        concat_chunks(self.chunks@) + self.cchunk@
    }

    /// The view of the key sequence fed to the bloom filter.
    pub open spec fn spec_keys(self) -> Seq<Seq<u8>> {
        self.keys@.map_values(|k: Vec<u8>| k@)
    }

    /// Everything but the block-size bound, which a crossing record may
    /// break for the one moment before its block is closed.
    pub open spec fn wf_core(self) -> bool {
        &&& self.blocks@.len() == self.chunks@.len()
        &&& self.index@.len() == self.chunks@.len()
        &&& forall|b: int|
            0 <= b < self.blocks@.len() ==> (#[trigger] self.blocks@[b])@ == spec_block_bytes(
                self.chunks@[b],
            )
        &&& forall|b: int|
            0 <= b < self.chunks@.len() ==> all_brecords_encodable(#[trigger] self.chunks@[b])
        &&& forall|b: int| 0 <= b < self.chunks@.len() ==> (#[trigger] self.chunks@[b]).len() > 0
        &&& forall|b: int|
            0 <= b < self.index@.len() ==> (#[trigger] self.index@[b]).0@ == self.chunks@[b][0].0
        &&& self.current_block@ == spec_block_bytes(self.cchunk@)
        &&& all_brecords_encodable(self.cchunk@)
        &&& (self.current_first is None <==> self.cchunk@.len() == 0)
        &&& (self.current_first matches Some(k) ==> self.cchunk@.len() > 0 && k@
            == self.cchunk@[0].0)
        &&& sorted_kv_models(self.spec_entries())
        &&& (self.last_key is None <==> self.spec_entries().len() == 0)
        &&& (self.last_key matches Some(k) ==> self.spec_entries().len() > 0 && k@
            == self.spec_entries().last().0)
        &&& self.spec_keys() == self.spec_entries().map_values(
            |e: (Seq<u8>, Seq<u8>, u64)| e.0,
        )
        &&& self.offset + self.current_block@.len() <= u64::MAX
        &&& self.offset + self.current_block@.len() == spec_kv_bytes(self.spec_entries())
    }

    pub open spec fn wf(self) -> bool {
        &&& self.wf_core()
        &&& (self.current_block@.len() == 0 || self.current_block@.len() < self.block_size)
    }

    /// A fresh writer for table `id` with the given block target.
    pub fn new(id: u64, block_size: usize) -> (w: SsTableWriter)
        ensures
            w.wf(),
            w.id == id,
            w.block_size == block_size,
            w.spec_entries() == Seq::<(Seq<u8>, Seq<u8>, u64)>::empty(),
    {
        let w = SsTableWriter {
            id,
            block_size,
            blocks: Vec::new(),
            index: Vec::new(),
            current_block: Vec::new(),
            current_first: None,
            offset: 0,
            keys: Vec::new(),
            last_key: None,
            chunks: Ghost(Seq::empty()),
            cchunk: Ghost(Seq::empty()),
        };
        proof {
            assert(w.spec_entries() =~= Seq::<(Seq<u8>, Seq<u8>, u64)>::empty());
            assert(w.spec_keys() =~= w.spec_entries().map_values(
                |e: (Seq<u8>, Seq<u8>, u64)| e.0,
            ));
        }
        w
    }

    /// Close the block being filled: record its first key and offset in the
    /// index and start a fresh block.
    fn close_block(&mut self)
        requires
            old(self).wf_core(),
            old(self).cchunk@.len() > 0,
        ensures
            final(self).wf(),
            final(self).spec_entries() == old(self).spec_entries(),
            final(self).cchunk@.len() == 0,
            final(self).id == old(self).id,
            final(self).block_size == old(self).block_size,
            final(self).last_key == old(self).last_key,
            final(self).spec_keys() == old(self).spec_keys(),
    {
        let mut first_slot: Option<Vec<u8>> = None;
        core::mem::swap(&mut first_slot, &mut self.current_first);
        let first = match first_slot {
            Some(k) => k,
            None => {
                proof {
                    assert(false);
                }
                Vec::new()
            },
        };
        self.index.push((first, self.offset));
        let block_len = self.current_block.len() as u64;
        self.offset = self.offset + block_len;
        let mut closed: Vec<u8> = Vec::new();
        core::mem::swap(&mut closed, &mut self.current_block);
        self.blocks.push(closed);
        proof {
            lemma_concat_chunks_push(self.chunks@, self.cchunk@);
            self.chunks@ = self.chunks@.push(self.cchunk@);
            self.cchunk@ = Seq::empty();
            assert(self.current_block@ =~= spec_block_bytes(self.cchunk@));
            assert(final(self).spec_entries() =~= old(self).spec_entries());
        }
    }

    /// Add one record.  The key must come strictly after the last added
    /// key; the record must fit the block format and the table must stay
    /// addressable.
    pub fn add(&mut self, key: &Vec<u8>, value: &Vec<u8>, timestamp: u64) -> (r: Result<
        (),
        StorageError,
    >)
        requires
            old(self).wf(),
            old(self).last_key matches Some(k) ==> lex_less(k@, key@),
        ensures
            final(self).wf(),
            final(self).id == old(self).id,
            final(self).block_size == old(self).block_size,
            r matches Ok(_) ==> final(self).spec_entries() == old(self).spec_entries().push(
                (key@, value@, timestamp),
            ),
            r is Err ==> final(self).spec_entries() == old(self).spec_entries(),
            r is Ok <==> key@.len() <= 0xFFFF && value@.len() <= 0xFFFF_FFFF && old(
                self,
            ).current_block@.len() + 14 + key@.len() + value@.len() <= usize::MAX && old(
                self,
            ).offset + old(self).current_block@.len() + 14 + key@.len() + value@.len()
                <= u64::MAX,
    {
        if key.len() > usize::MAX - 14 || value.len() > usize::MAX - 14 - key.len()
            || self.current_block.len() > usize::MAX - 14 - key.len() - value.len() {
            return Err(StorageError::InvalidFormat(String::from_str("Record too large")));
        }
        let added = 14 + key.len() + value.len();
        let room = u64::MAX - self.offset;
        if self.current_block.len() as u64 > room || added as u64 > room - (self.current_block.len()
            as u64) {
            return Err(StorageError::InvalidFormat(String::from_str("Table too large")));
        }
        let ghost pre = *old(self);
        match append_brecord(&mut self.current_block, key, value, timestamp) {
            Ok(_) => {},
            Err(e) => {
                return Err(e);
            },
        }
        if self.current_first.is_none() {
            self.current_first = Some(key.clone());
        }
        self.keys.push(key.clone());
        proof {
            vstd::bytes::lemma_auto_spec_u16_to_from_le_bytes();
            vstd::bytes::lemma_auto_spec_u32_to_from_le_bytes();
            vstd::bytes::lemma_auto_spec_u64_to_from_le_bytes();
            let e = (key@, value@, timestamp);
            lemma_block_bytes_concat(pre.cchunk@, seq![e]);
            assert(spec_block_bytes(seq![e].skip(1)) =~= Seq::<u8>::empty());
            assert(spec_block_bytes(seq![e]) =~= crate::block::spec_brecord_bytes(e));
            assert(pre.cchunk@ + seq![e] =~= pre.cchunk@.push(e));
            self.cchunk@ = pre.cchunk@.push(e);
            assert(self.current_block@ =~= spec_block_bytes(self.cchunk@));
            lemma_concat_chunks_push(self.chunks@, self.cchunk@);
            assert(self.spec_entries() =~= pre.spec_entries().push(e));
            let post_entries = self.spec_entries();
            let pre_entries = pre.spec_entries();
            assert forall|p: int, q: int|
                0 <= p < q < post_entries.len() implies lex_less(
                post_entries[p].0,
                post_entries[q].0,
            ) by {
                if q < post_entries.len() - 1 {
                    assert(lex_less(pre_entries[p].0, pre_entries[q].0));
                } else {
                    if pre_entries.len() > 0 {
                        if p == pre_entries.len() - 1 {
                            assert(lex_less(pre_entries.last().0, key@));
                        } else {
                            assert(lex_less(pre_entries[p].0, pre_entries.last().0));
                            lemma_lex_trans(pre_entries[p].0, pre_entries.last().0, key@);
                        }
                    }
                }
            }
            assert(self.spec_keys() =~= pre.spec_keys().push(key@));
            assert(self.spec_entries().map_values(|x: (Seq<u8>, Seq<u8>, u64)| x.0)
                =~= pre.spec_entries().map_values(|x: (Seq<u8>, Seq<u8>, u64)| x.0).push(key@));
            assert(self.spec_entries().last() == e);
            assert(self.cchunk@[0] == if pre.cchunk@.len() == 0 {
                e
            } else {
                pre.cchunk@[0]
            });
            assert(self.spec_entries().drop_last() =~= pre.spec_entries());
            assert(spec_kv_bytes(self.spec_entries()) == spec_kv_bytes(pre.spec_entries()) + 14
                + key@.len() + value@.len());
        }
        self.last_key = Some(key.clone());
        if self.current_block.len() >= self.block_size {
            proof {
                assert(self.cchunk@.len() > 0);
            }
            self.close_block();
        }
        Ok(())
    }

    /// Seal the table: close the pending block, build the bloom filter over
    /// every added key, and hand the finished file back.
    pub fn finish(self) -> (r: SsTableFile)
        requires
            self.wf(),
        ensures
            r.wf(),
            r.id == self.id,
            r.spec_entries() == self.spec_entries(),
    {
        let mut w = self;
        if !w.current_block.is_empty() {
            proof {
                if w.cchunk@.len() == 0 {
                    assert(w.current_block@ =~= Seq::<u8>::empty());
                }
            }
            w.close_block();
        } else {
            proof {
                if w.cchunk@.len() > 0 {
                    vstd::bytes::lemma_auto_spec_u16_to_from_le_bytes();
                    vstd::bytes::lemma_auto_spec_u32_to_from_le_bytes();
                    vstd::bytes::lemma_auto_spec_u64_to_from_le_bytes();
                    assert(w.current_block@ == crate::block::spec_brecord_bytes(w.cchunk@[0])
                        + spec_block_bytes(w.cchunk@.skip(1)));
                    assert(w.current_block@.len() >= 14);
                    assert(false);
                }
                assert(w.cchunk@ =~= Seq::<(Seq<u8>, Seq<u8>, u64)>::empty());
            }
        }
        let ghost wsnap = w;
        let entry_total = w.keys.len();
        let mut bloom = BloomFilter::new(entry_total, 10);
        let mut i: usize = 0;
        while i < entry_total
            invariant
                entry_total == w.keys@.len(),
                i <= entry_total,
                bloom.wf(),
                forall|j: int|
                    0 <= j < i ==> bloom.keys@.contains((#[trigger] w.keys@[j])@),
            decreases entry_total - i,
        {
            bloom.insert(&w.keys[i]);
            i = i + 1;
        }
        let file = SsTableFile {
            id: w.id,
            blocks: w.blocks,
            index: w.index,
            bloom,
            entry_count: entry_total as u64,
            chunks: Ghost(w.chunks@),
        };
        proof {
            assert(wsnap.cchunk@ =~= Seq::<(Seq<u8>, Seq<u8>, u64)>::empty());
            assert(concat_chunks(wsnap.chunks@) + wsnap.cchunk@ =~= concat_chunks(wsnap.chunks@));
            assert(file.spec_entries() =~= wsnap.spec_entries());
            assert(wsnap.spec_keys().len() == wsnap.keys@.len());
            assert(wsnap.spec_entries().len() == wsnap.spec_keys().len());
            assert forall|k: int|
                0 <= k < file.spec_entries().len() implies file.bloom.keys@.contains(
                (#[trigger] file.spec_entries()[k]).0,
            ) by {
                assert(wsnap.spec_keys()[k] == wsnap.keys@[k]@);
                assert(wsnap.spec_entries().map_values(|e: (Seq<u8>, Seq<u8>, u64)| e.0)[k]
                    == wsnap.spec_entries()[k].0);
                assert(file.bloom.keys@.contains(wsnap.keys@[k]@));
            }
        }
        file
    }
}

/// Write a whole sorted row of records into a fresh table.  Succeeds
/// whenever every record fits the block format and the row's bytes stay
/// inside the machine's counters.
pub fn write_sorted_run(
    id: u64,
    block_size: usize,
    entries: &Vec<(Vec<u8>, Vec<u8>, u64)>,
) -> (r: Result<SsTableFile, StorageError>)
    requires
        sorted_by_key(entries@),
    ensures
        r matches Ok(f) ==> f.wf() && f.id == id && f.spec_entries() == kv_models(entries@),
        all_brecords_encodable(kv_models(entries@)) && spec_kv_bytes(kv_models(entries@))
            + block_size <= usize::MAX && spec_kv_bytes(kv_models(entries@)) <= u64::MAX ==> r
            is Ok,
{
    let mut writer = SsTableWriter::new(id, block_size);
    let total = entries.len();
    let mut j: usize = 0;
    while j < total
        invariant
            total == entries@.len(),
            j <= total,
            sorted_by_key(entries@),
            writer.wf(),
            writer.id == id,
            writer.block_size == block_size,
            writer.spec_entries() == kv_models(entries@.take(j as int)),
        decreases total - j,
    {
        let entry = clone_record(entries, j);
        proof {
            if writer.last_key is Some {
                assert(writer.spec_entries().len() > 0);
                assert(j > 0);
                assert(kv_models(entries@.take(j as int))[j - 1] == (
                    entries@[j - 1].0@,
                    entries@[j - 1].1@,
                    entries@[j - 1].2,
                ));
                assert(writer.spec_entries().last().0 == entries@[j as int - 1].0@);
                assert(lex_less(entries@[j as int - 1].0@, entries@[j as int].0@));
            }
            assert(kv_models(entries@).take(j as int + 1) =~= kv_models(
                entries@.take(j as int + 1),
            ));
            assert(kv_models(entries@).take(j as int) =~= kv_models(entries@.take(j as int)));
            assert(kv_models(entries@.take(j as int + 1)).drop_last() =~= kv_models(
                entries@.take(j as int),
            ));
            assert(spec_kv_bytes(kv_models(entries@.take(j as int + 1))) == spec_kv_bytes(
                kv_models(entries@.take(j as int)),
            ) + 14 + entries@[j as int].0@.len() + entries@[j as int].1@.len());
            crate::memtable::lemma_kv_bytes_prefix(kv_models(entries@), j as int + 1);
            crate::memtable::lemma_kv_bytes_nonneg(kv_models(entries@.take(j as int)));
            assert(kv_models(entries@)[j as int] == (
                entries@[j as int].0@,
                entries@[j as int].1@,
                entries@[j as int].2,
            ));
        }
        match writer.add(&entry.0, &entry.1, entry.2) {
            Ok(_) => {},
            Err(e) => {
                return Err(e);
            },
        }
        proof {
            assert(entries@.take(j as int + 1) =~= entries@.take(j as int).push(
                entries@[j as int],
            ));
            assert(kv_models(entries@.take(j as int + 1)) =~= kv_models(
                entries@.take(j as int),
            ).push((entries@[j as int].0@, entries@[j as int].1@, entries@[j as int].2)));
        }
        j = j + 1;
    }
    proof {
        assert(entries@.take(total as int) =~= entries@);
    }
    Ok(writer.finish())
}

/// Serves point and range reads over one finished table.
pub struct SsTableReader {
    /// The table, kept whole so the engine can persist it again.
    pub file: SsTableFile,
    /// The decoded records, in key order.
    pub entries: Vec<(Vec<u8>, Vec<u8>, u64)>,
}

impl SsTableReader {
    pub open spec fn wf(self) -> bool {
        &&& self.file.wf()
        &&& kv_models(self.entries@) == self.file.spec_entries()
        &&& sorted_by_key(self.entries@)
    }

    /// The table's id.
    pub fn id(&self) -> (r: u64)
        ensures
            r == self.file.id,
    {
        self.file.id
    }

    /// Number of records in the table.
    pub fn entry_count(&self) -> (r: u64)
        ensures
            r == self.file.entry_count,
    {
        self.file.entry_count
    }

    /// Size of the table's data region in bytes, capped at `u64::MAX`.
    pub fn size_bytes(&self) -> (r: u64)
        ensures
            r == if spec_blocks_size(self.file.blocks@) <= u64::MAX {
                spec_blocks_size(self.file.blocks@)
            } else {
                u64::MAX as int
            },
    {
        self.file.size_bytes()
    }

    /// Load a table: decode every block.  The records come back exactly as
    /// they were written.
    pub fn open(file: SsTableFile) -> (r: SsTableReader)
        requires
            file.wf(),
        ensures
            r.wf(),
            r.file == file,
            kv_models(r.entries@) == file.spec_entries(),
    {
        let mut entries: Vec<(Vec<u8>, Vec<u8>, u64)> = Vec::new();
        let nblocks = file.blocks.len();
        let mut b: usize = 0;
        proof {
            assert(file.chunks@.take(0) =~= Seq::<Seq<(Seq<u8>, Seq<u8>, u64)>>::empty());
            assert(kv_models(entries@) =~= concat_chunks(file.chunks@.take(0)));
        }
        while b < nblocks
            invariant
                file.wf(),
                nblocks == file.blocks@.len(),
                b <= nblocks,
                kv_models(entries@) == concat_chunks(file.chunks@.take(b as int)),
            decreases nblocks - b,
        {
            let (mut records, _clean) = parse_block(&file.blocks[b]);
            proof {
                lemma_block_parse_bytes(file.chunks@[b as int]);
                assert(kv_models(records@) == file.chunks@[b as int]);
                assert(file.chunks@.take(b as int + 1) =~= file.chunks@.take(b as int).push(
                    file.chunks@[b as int],
                ));
                lemma_concat_chunks_push(file.chunks@.take(b as int), file.chunks@[b as int]);
                assert(kv_models(entries@ + records@) =~= kv_models(entries@) + kv_models(
                    records@,
                ));
            }
            entries.append(&mut records);
            b = b + 1;
        }
        proof {
            assert(file.chunks@.take(nblocks as int) =~= file.chunks@);
            assert forall|p: int, q: int|
                0 <= p < q < entries@.len() implies lex_less(
                entries@[p].0@,
                entries@[q].0@,
            ) by {
                assert(kv_models(entries@)[p] == file.spec_entries()[p]);
                assert(kv_models(entries@)[q] == file.spec_entries()[q]);
                assert(lex_less(file.spec_entries()[p].0, file.spec_entries()[q].0));
            }
        }
        SsTableReader { file, entries }
    }

    /// Whether the bloom filter admits the key: a stored key always does.
    pub fn might_contain(&self, key: &Vec<u8>) -> (r: bool)
        requires
            self.wf(),
        ensures
            lookup(self.entries@, key@) is Some ==> r,
    {
        let r = self.file.bloom.contains(key);
        proof {
            if lookup(self.entries@, key@) is Some {
                let i = choose|i: int|
                    0 <= i < self.entries@.len() && (#[trigger] self.entries@[i]).0@ == key@;
                assert(kv_models(self.entries@)[i] == self.file.spec_entries()[i]);
                assert(self.file.bloom.keys@.contains(self.file.spec_entries()[i].0));
            }
        }
        r
    }

    /// Point lookup: the (value, timestamp) stored for the key.  A bloom
    /// miss short-circuits without touching the records.
    pub fn get(&self, key: &Vec<u8>) -> (r: Result<Option<(Vec<u8>, u64)>, StorageError>)
        requires
            self.wf(),
        ensures
            r matches Ok(v) && (match v {
                Some(p) => lookup(self.entries@, key@) == Some((p.0@, p.1)),
                None => lookup(self.entries@, key@) is None,
            }),
    {
        if !self.might_contain(key) {
            return Ok(None);
        }
        let (i, found) = find_slot(&self.entries, key);
        if found {
            let value = self.entries[i].1.clone();
            let ts = self.entries[i].2;
            proof {
                let s = self.entries@;
                crate::memtable::lemma_sorted_unique(s);
                let w = choose|w: int| 0 <= w < s.len() && (#[trigger] s[w]).0@ == key@;
                assert(w == i);
                assert(value@ =~= s[i as int].1@);
            }
            Ok(Some((value, ts)))
        } else {
            proof {
                let s = self.entries@;
                if lookup(s, key@) is Some {
                    let w = choose|w: int| 0 <= w < s.len() && (#[trigger] s[w]).0@ == key@;
                    if w < i {
                        assert(lex_less(s[w].0@, key@));
                        lemma_lex_total(s[w].0@, key@);
                    } else if w == i {
                        assert(lex_less(key@, s[w].0@));
                        lemma_lex_total(key@, s[w].0@);
                    } else {
                        assert(lex_less(s[i as int].0@, s[w].0@));
                        assert(lex_less(key@, s[i as int].0@));
                        lemma_lex_trans(key@, s[i as int].0@, s[w].0@);
                        lemma_lex_total(key@, s[w].0@);
                    }
                }
            }
            Ok(None)
        }
    }

    /// Every record with `start ≤ key < end`, in key order.
    pub fn scan(&self, start: &Vec<u8>, end: &Vec<u8>) -> (r: Result<
        Vec<(Vec<u8>, Vec<u8>, u64)>,
        StorageError,
    >)
        requires
            self.wf(),
        ensures
            r matches Ok(v) && kv_models(v@) == kv_models(self.entries@).filter(
                |e: (Seq<u8>, Seq<u8>, u64)| lex_leq(start@, e.0) && lex_less(e.0, end@),
            ),
    {
        Ok(scan_range(&self.entries, start, end))
    }

    /// Every record of the table, in key order.
    pub fn all_entries(&self) -> (r: Vec<(Vec<u8>, Vec<u8>, u64)>)
        requires
            self.wf(),
        ensures
            kv_models(r@) == kv_models(self.entries@),
            sorted_by_key(r@),
    {
        let n = self.entries.len();
        let mut out: Vec<(Vec<u8>, Vec<u8>, u64)> = Vec::new();
        let mut i: usize = 0;
        while i < n
            invariant
                n == self.entries@.len(),
                i <= n,
                self.wf(),
                kv_models(out@) == kv_models(self.entries@.take(i as int)),
                out@.len() == i,
            decreases n - i,
        {
            let e = clone_record(&self.entries, i);
            out.push(e);
            proof {
                assert(self.entries@.take(i as int + 1) =~= self.entries@.take(i as int).push(
                    self.entries@[i as int],
                ));
                assert(kv_models(out@) =~= kv_models(self.entries@.take(i as int)).push(
                    (
                        self.entries@[i as int].0@,
                        self.entries@[i as int].1@,
                        self.entries@[i as int].2,
                    ),
                ));
                assert(kv_models(self.entries@.take(i as int + 1)) =~= kv_models(
                    self.entries@.take(i as int),
                ).push(
                    (
                        self.entries@[i as int].0@,
                        self.entries@[i as int].1@,
                        self.entries@[i as int].2,
                    ),
                ));
            }
            i = i + 1;
        }
        proof {
            assert(self.entries@.take(n as int) =~= self.entries@);
            assert forall|p: int, q: int|
                0 <= p < q < out@.len() implies lex_less(out@[p].0@, out@[q].0@) by {
                assert(kv_models(out@)[p] == kv_models(self.entries@)[p]);
                assert(kv_models(out@)[q] == kv_models(self.entries@)[q]);
                assert(lex_less(self.entries@[p].0@, self.entries@[q].0@));
            }
        }
        out
    }

    /// Give the table back, for the engine to persist.
    pub fn into_file(self) -> (r: SsTableFile)
        ensures
            r == self.file,
    {
        self.file
    }
}

} // verus!
