//! CityHall: a single-leader, multi-replica key-value store built on a
//! log-structured merge-tree engine.
//!
//! The crate verifies the storage core: the segmented write-ahead log, the
//! memtable, the SSTable format with its bloom filter, size-tiered
//! compaction, the storage engine that ties them together, and the
//! replication protocol with its replica-side state machine.

pub mod block;
pub mod bloom;
pub mod cli;
pub mod clock;
pub mod compaction;
pub mod crc;
pub mod error;
pub mod keyorder;
pub mod memtable;
pub mod metrics;
pub mod numfmt;
pub mod record;
pub mod replication;
pub mod sstable;
pub mod storage_engine;
pub mod wal;

use vstd::prelude::*;

verus! {

/// The unit of mutation and replication: a key, a value and the write
/// timestamp (seconds since the Unix epoch, assigned by the leader).
/// An empty value denotes a tombstone (DELETE).
#[derive(Debug, Clone, PartialEq, Eq)]
pub struct Entry {
    pub key: Vec<u8>,
    pub value: Vec<u8>,
    pub timestamp: u64,
}

/// Mathematical image of an [`Entry`]: byte sequences instead of vectors.
#[verifier::ext_equal]
pub struct EntryModel {
    pub key: Seq<u8>,
    pub value: Seq<u8>,
    pub timestamp: u64,
}

impl View for Entry {
    type V = EntryModel;

    open spec fn view(&self) -> EntryModel {
        EntryModel { key: self.key@, value: self.value@, timestamp: self.timestamp }
    }
}

impl Entry {
    pub fn new(key: Vec<u8>, value: Vec<u8>, timestamp: u64) -> (e: Entry)
        ensures
            e@.key == key@,
            e@.value == value@,
            e@.timestamp == timestamp,
    {
        Entry { key, value, timestamp }
    }
}

/// Operation tag stored in every WAL record.
#[derive(Debug, Clone, Copy, PartialEq, Eq, Structural)]
pub enum OpType {
    Put,
    Delete,
}

/// The byte that encodes an operation tag on disk and on the wire.
pub open spec fn spec_op_code(op: OpType) -> u8 {
    match op {
        OpType::Put => 1,
        OpType::Delete => 2,
    }
}

impl OpType {
    /// Decode an operation tag from its on-disk byte.
    pub fn from_u8(value: u8) -> (r: Option<OpType>)
        ensures
            value == 1 ==> r == Some(OpType::Put),
            value == 2 ==> r == Some(OpType::Delete),
            value != 1 && value != 2 ==> r is None,
            r matches Some(op) ==> spec_op_code(op) == value,
    {
        match value {
            1u8 => Some(OpType::Put),
            2u8 => Some(OpType::Delete),
            _ => None,
        }
    }

    /// Encode this operation tag as its on-disk byte.
    pub fn code(self) -> (r: u8)
        ensures
            r == spec_op_code(self),
    {
        match self {
            OpType::Put => 1,
            OpType::Delete => 2,
        }
    }
}

} // verus!
