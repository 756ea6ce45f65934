//! The replication wire protocol.
//!
//! Every message travels as `length(u32 LE) | payload`, the length capped
//! at 100 MiB; a longer frame is corruption.  The payload is a tagged
//! union in a fixed binary layout: one tag byte, then the fields, integers
//! little-endian, strings length-prefixed ASCII, entry lists in the data
//! block record format.  A decoded payload is byte-for-byte the encoding
//! of the decoded message.

use vstd::prelude::*;
use vstd::bytes::*;
use vstd::slice::*;
use vstd::string::StringExecFns;
use vstd::string::StrSliceExecFns;
use crate::block::{
    lemma_block_clean_is_encoding, lemma_block_parse_bytes, parse_block, spec_block_bytes,
    all_brecords_encodable,
};
use crate::error::StorageError;
use crate::memtable::kv_models;
use crate::numfmt::ascii_bytes_to_string;
use crate::Entry;

verus! {

/// The largest frame either peer accepts: 100 MiB.
pub const MAX_FRAME_BYTES: usize = 100 * 1024 * 1024;

/// Request from replica to leader.
#[derive(Debug, Clone, PartialEq)]
pub enum SyncRequest {
    /// The first message on every connection.
    Handshake { replica_id: String, last_synced_segment: u64 },
    /// Fetch the entries of one closed segment.
    GetSegment { segment_number: u64 },
    /// Ask for the closed segment inventory.
    ListSegments,
}

/// Response from leader to replica.
#[derive(Debug, Clone, PartialEq)]
pub enum SyncResponse {
    /// Issued exactly once, right after the handshake.
    HandshakeAck { leader_id: String, current_segment: u64 },
    /// The entries of one closed segment, in stored order.
    SegmentData { segment_number: u64, entries: Vec<Entry> },
    /// Closed segment numbers ascending, plus the active one.
    SegmentList { segments: Vec<u64>, current_segment: u64 },
    /// The segment is active, was deleted, or never existed.
    SegmentNotFound { segment_number: u64 },
    /// Any other failure.
    Error { message: String },
}

impl SyncResponse {
    /// An error response carrying `message`.
    pub fn error(message: String) -> (r: SyncResponse)
        ensures
            r matches SyncResponse::Error { message: m } && m@ == message@,
    {
        SyncResponse::Error { message }
    }
}

/// The bytes of an ASCII string on the wire.
pub open spec fn ascii_bytes(s: Seq<char>) -> Seq<u8> {
    s.map_values(|c: char| c as u8)
}

/// The block-format triples of a row of entries.
pub open spec fn entry_triples(es: Seq<Entry>) -> Seq<(Seq<u8>, Seq<u8>, u64)> {
    es.map_values(|e: Entry| (e.key@, e.value@, e.timestamp))
}

/// The payload bytes of a request.
pub open spec fn spec_request_bytes(m: SyncRequest) -> Seq<u8> {
    match m {
        SyncRequest::Handshake { replica_id, last_synced_segment } => seq![1u8]
            + spec_u16_to_le_bytes(replica_id@.len() as u16) + ascii_bytes(replica_id@)
            + spec_u64_to_le_bytes(last_synced_segment),
        SyncRequest::GetSegment { segment_number } => seq![2u8] + spec_u64_to_le_bytes(
            segment_number,
        ),
        SyncRequest::ListSegments => seq![3u8],
    }
}

/// Whether a request fits the wire format: ASCII identity below 64 KiB.
pub open spec fn request_encodable(m: SyncRequest) -> bool {
    match m {
        SyncRequest::Handshake { replica_id, last_synced_segment } => replica_id@.len() <= 0xFFFF
            && vstd::utf8::is_ascii_chars(replica_id@),
        _ => true,
    }
}

/// The payload bytes of the segment-number list.
pub open spec fn spec_u64s_bytes(s: Seq<u64>) -> Seq<u8>
    decreases s.len(),
{
    if s.len() == 0 {
        Seq::empty()
    } else {
        spec_u64_to_le_bytes(s[0]) + spec_u64s_bytes(s.skip(1))
    }
}

/// The payload bytes of a response.
pub open spec fn spec_response_bytes(m: SyncResponse) -> Seq<u8> {
    match m {
        SyncResponse::HandshakeAck { leader_id, current_segment } => seq![1u8]
            + spec_u16_to_le_bytes(leader_id@.len() as u16) + ascii_bytes(leader_id@)
            + spec_u64_to_le_bytes(current_segment),
        SyncResponse::SegmentData { segment_number, entries } => seq![2u8]
            + spec_u64_to_le_bytes(segment_number) + spec_block_bytes(entry_triples(entries@)),
        SyncResponse::SegmentList { segments, current_segment } => seq![3u8]
            + spec_u64_to_le_bytes(segments@.len() as u64) + spec_u64s_bytes(segments@)
            + spec_u64_to_le_bytes(current_segment),
        SyncResponse::SegmentNotFound { segment_number } => seq![4u8] + spec_u64_to_le_bytes(
            segment_number,
        ),
        SyncResponse::Error { message } => seq![5u8] + ascii_bytes(message@),
    }
}

/// Whether a response fits the wire format.
pub open spec fn response_encodable(m: SyncResponse) -> bool {
    match m {
        SyncResponse::HandshakeAck { leader_id, current_segment } => leader_id@.len() <= 0xFFFF
            && vstd::utf8::is_ascii_chars(leader_id@),
        SyncResponse::SegmentData { segment_number, entries } => all_brecords_encodable(
            entry_triples(entries@),
        ),
        SyncResponse::SegmentList { segments, current_segment } => segments@.len() <= u64::MAX,
        SyncResponse::SegmentNotFound { .. } => true,
        SyncResponse::Error { message } => vstd::utf8::is_ascii_chars(message@),
    }
}

/// Whether a response's one variable-size region — the entry block of
/// `SegmentData` — fits the machine's addressing.
pub open spec fn response_wire_fits(m: SyncResponse) -> bool {
    match m {
        SyncResponse::SegmentData { segment_number, entries } => spec_block_bytes(
            entry_triples(entries@),
        ).len() + 9 <= usize::MAX,
        _ => true,
    }
}

/// Whether two requests carry the same content.
pub open spec fn req_same_model(a: SyncRequest, b: SyncRequest) -> bool {
    match (a, b) {
        (
            SyncRequest::Handshake { replica_id: i1, last_synced_segment: l1 },
            SyncRequest::Handshake { replica_id: i2, last_synced_segment: l2 },
        ) => i1@ == i2@ && l1 == l2,
        (
            SyncRequest::GetSegment { segment_number: s1 },
            SyncRequest::GetSegment { segment_number: s2 },
        ) => s1 == s2,
        (SyncRequest::ListSegments, SyncRequest::ListSegments) => true,
        _ => false,
    }
}

/// Whether two responses carry the same content.
pub open spec fn resp_same_model(a: SyncResponse, b: SyncResponse) -> bool {
    match (a, b) {
        (
            SyncResponse::HandshakeAck { leader_id: i1, current_segment: c1 },
            SyncResponse::HandshakeAck { leader_id: i2, current_segment: c2 },
        ) => i1@ == i2@ && c1 == c2,
        (
            SyncResponse::SegmentData { segment_number: s1, entries: e1 },
            SyncResponse::SegmentData { segment_number: s2, entries: e2 },
        ) => s1 == s2 && entry_triples(e1@) == entry_triples(e2@),
        (
            SyncResponse::SegmentList { segments: g1, current_segment: c1 },
            SyncResponse::SegmentList { segments: g2, current_segment: c2 },
        ) => g1@ == g2@ && c1 == c2,
        (
            SyncResponse::SegmentNotFound { segment_number: s1 },
            SyncResponse::SegmentNotFound { segment_number: s2 },
        ) => s1 == s2,
        (SyncResponse::Error { message: m1 }, SyncResponse::Error { message: m2 }) => m1@ == m2@,
        _ => false,
    }
}

/// The layout facts of an encodable request: its tag byte, its length and
/// where each field sits.
proof fn lemma_request_bytes_shape(m: SyncRequest)
    requires
        request_encodable(m),
    ensures
        match m {
            SyncRequest::Handshake { replica_id, last_synced_segment } => {
                let b = spec_request_bytes(m);
                let idlen = replica_id@.len() as int;
                &&& b.len() == 11 + idlen
                &&& b[0] == 1
                &&& b.subrange(1, 3) == spec_u16_to_le_bytes(replica_id@.len() as u16)
                &&& b.subrange(3, 3 + idlen) == ascii_bytes(replica_id@)
                &&& b.subrange(3 + idlen, 11 + idlen) == spec_u64_to_le_bytes(
                    last_synced_segment,
                )
                &&& forall|i: int| 3 <= i < 3 + idlen ==> #[trigger] b[i] < 128
            },
            SyncRequest::GetSegment { segment_number } => {
                let b = spec_request_bytes(m);
                &&& b.len() == 9
                &&& b[0] == 2
                &&& b.subrange(1, 9) == spec_u64_to_le_bytes(segment_number)
            },
            SyncRequest::ListSegments => spec_request_bytes(m).len() == 1 && spec_request_bytes(
                m,
            )[0] == 3,
        },
{
    lemma_auto_spec_u16_to_from_le_bytes();
    lemma_auto_spec_u64_to_from_le_bytes();
    match m {
        SyncRequest::Handshake { replica_id, last_synced_segment } => {
            let b = spec_request_bytes(m);
            let idlen = replica_id@.len() as int;
            assert(b.subrange(1, 3) =~= spec_u16_to_le_bytes(replica_id@.len() as u16));
            assert(b.subrange(3, 3 + idlen) =~= ascii_bytes(replica_id@));
            assert(b.subrange(3 + idlen, 11 + idlen) =~= spec_u64_to_le_bytes(
                last_synced_segment,
            ));
            assert forall|i: int| 3 <= i < 3 + idlen implies #[trigger] b[i] < 128 by {
                assert(b[i] == ascii_bytes(replica_id@)[i - 3]);
                assert(replica_id@[i - 3] <= '\u{7f}');
            }
        },
        SyncRequest::GetSegment { segment_number } => {
            let b = spec_request_bytes(m);
            assert(b.subrange(1, 9) =~= spec_u64_to_le_bytes(segment_number));
        },
        SyncRequest::ListSegments => {},
    }
}

/// The layout facts of an encodable response.
proof fn lemma_response_bytes_shape(m: SyncResponse)
    requires
        response_encodable(m),
    ensures
        match m {
            SyncResponse::HandshakeAck { leader_id, current_segment } => {
                let b = spec_response_bytes(m);
                let idlen = leader_id@.len() as int;
                &&& b.len() == 11 + idlen
                &&& b[0] == 1
                &&& b.subrange(1, 3) == spec_u16_to_le_bytes(leader_id@.len() as u16)
                &&& b.subrange(3, 3 + idlen) == ascii_bytes(leader_id@)
                &&& b.subrange(3 + idlen, 11 + idlen) == spec_u64_to_le_bytes(current_segment)
                &&& forall|i: int| 3 <= i < 3 + idlen ==> #[trigger] b[i] < 128
            },
            SyncResponse::SegmentData { segment_number, entries } => {
                let b = spec_response_bytes(m);
                &&& b.len() == 9 + spec_block_bytes(entry_triples(entries@)).len()
                &&& b[0] == 2
                &&& b.subrange(1, 9) == spec_u64_to_le_bytes(segment_number)
                &&& b.subrange(9, b.len() as int) == spec_block_bytes(entry_triples(entries@))
            },
            SyncResponse::SegmentList { segments, current_segment } => {
                let b = spec_response_bytes(m);
                let cnt = segments@.len() as int;
                &&& b.len() == 17 + 8 * cnt
                &&& b[0] == 3
                &&& b.subrange(1, 9) == spec_u64_to_le_bytes(segments@.len() as u64)
                &&& b.subrange(9, 9 + 8 * cnt) == spec_u64s_bytes(segments@)
                &&& b.subrange(9 + 8 * cnt, 17 + 8 * cnt) == spec_u64_to_le_bytes(
                    current_segment,
                )
            },
            SyncResponse::SegmentNotFound { segment_number } => {
                let b = spec_response_bytes(m);
                &&& b.len() == 9
                &&& b[0] == 4
                &&& b.subrange(1, 9) == spec_u64_to_le_bytes(segment_number)
            },
            SyncResponse::Error { message } => {
                let b = spec_response_bytes(m);
                &&& b.len() == 1 + message@.len()
                &&& b[0] == 5
                &&& b.subrange(1, b.len() as int) == ascii_bytes(message@)
                &&& forall|i: int| 1 <= i < b.len() ==> #[trigger] b[i] < 128
            },
        },
{
    lemma_auto_spec_u16_to_from_le_bytes();
    lemma_auto_spec_u64_to_from_le_bytes();
    match m {
        SyncResponse::HandshakeAck { leader_id, current_segment } => {
            let b = spec_response_bytes(m);
            let idlen = leader_id@.len() as int;
            assert(b.subrange(1, 3) =~= spec_u16_to_le_bytes(leader_id@.len() as u16));
            assert(b.subrange(3, 3 + idlen) =~= ascii_bytes(leader_id@));
            assert(b.subrange(3 + idlen, 11 + idlen) =~= spec_u64_to_le_bytes(current_segment));
            assert forall|i: int| 3 <= i < 3 + idlen implies #[trigger] b[i] < 128 by {
                assert(b[i] == ascii_bytes(leader_id@)[i - 3]);
                assert(leader_id@[i - 3] <= '\u{7f}');
            }
        },
        SyncResponse::SegmentData { segment_number, entries } => {
            let b = spec_response_bytes(m);
            assert(b.subrange(1, 9) =~= spec_u64_to_le_bytes(segment_number));
            assert(b.subrange(9, b.len() as int) =~= spec_block_bytes(entry_triples(entries@)));
        },
        SyncResponse::SegmentList { segments, current_segment } => {
            let b = spec_response_bytes(m);
            let cnt = segments@.len() as int;
            lemma_u64s_bytes_len(segments@);
            assert(b.subrange(1, 9) =~= spec_u64_to_le_bytes(segments@.len() as u64));
            assert(b.subrange(9, 9 + 8 * cnt) =~= spec_u64s_bytes(segments@));
            assert(b.subrange(9 + 8 * cnt, 17 + 8 * cnt) =~= spec_u64_to_le_bytes(
                current_segment,
            ));
        },
        SyncResponse::SegmentNotFound { segment_number } => {
            let b = spec_response_bytes(m);
            assert(b.subrange(1, 9) =~= spec_u64_to_le_bytes(segment_number));
        },
        SyncResponse::Error { message } => {
            let b = spec_response_bytes(m);
            assert(b.subrange(1, b.len() as int) =~= ascii_bytes(message@));
            assert forall|i: int| 1 <= i < b.len() implies #[trigger] b[i] < 128 by {
                assert(b[i] == ascii_bytes(message@)[i - 1]);
                assert(message@[i - 1] <= '\u{7f}');
            }
        },
    }
}

/// The number bytes of a list are eight per number.
proof fn lemma_u64s_bytes_len(s: Seq<u64>)
    ensures
        spec_u64s_bytes(s).len() == 8 * s.len(),
    decreases s.len(),
{
    lemma_auto_spec_u64_to_from_le_bytes();
    if s.len() > 0 {
        lemma_u64s_bytes_len(s.skip(1));
    }
}

/// ASCII byte runs determine their characters.
proof fn lemma_ascii_bytes_injective(a: Seq<char>, b: Seq<char>)
    requires
        vstd::utf8::is_ascii_chars(a),
        vstd::utf8::is_ascii_chars(b),
        ascii_bytes(a) == ascii_bytes(b),
    ensures
        a == b,
{
    assert(ascii_bytes(a).len() == a.len());
    assert(ascii_bytes(b).len() == b.len());
    assert(a.len() == b.len());
    assert forall|i: int| 0 <= i < a.len() implies a[i] == b[i] by {
        assert(ascii_bytes(a)[i] == a[i] as u8);
        assert(ascii_bytes(b)[i] == b[i] as u8);
        assert(a[i] <= '\u{7f}');
        assert(b[i] <= '\u{7f}');
    }
    assert(a =~= b);
}

/// Number lists determine their bytes and back.
proof fn lemma_u64s_bytes_injective(a: Seq<u64>, b: Seq<u64>)
    requires
        a.len() == b.len(),
        spec_u64s_bytes(a) == spec_u64s_bytes(b),
    ensures
        a == b,
    decreases a.len(),
{
    lemma_auto_spec_u64_to_from_le_bytes();
    if a.len() > 0 {
        lemma_u64s_bytes_len(a.skip(1));
        lemma_u64s_bytes_len(b.skip(1));
        let bytes = spec_u64s_bytes(a);
        assert(bytes.subrange(0, 8) =~= spec_u64_to_le_bytes(a[0]));
        assert(bytes.subrange(0, 8) =~= spec_u64_to_le_bytes(b[0]));
        assert(a[0] == b[0]);
        assert(bytes.skip(8) =~= spec_u64s_bytes(a.skip(1)));
        assert(bytes.skip(8) =~= spec_u64s_bytes(b.skip(1)));
        lemma_u64s_bytes_injective(a.skip(1), b.skip(1));
        assert forall|i: int| 0 <= i < a.len() implies a[i] == b[i] by {
            if i > 0 {
                assert(a[i] == a.skip(1)[i - 1]);
                assert(b[i] == b.skip(1)[i - 1]);
            }
        }
        assert(a =~= b);
    } else {
        assert(a =~= b);
    }
}

/// Law: the request encoding is injective — equal payloads carry equal
/// requests, so a decoded payload belongs to exactly one message.
pub proof fn lemma_request_bytes_injective(a: SyncRequest, b: SyncRequest)
    requires
        request_encodable(a),
        request_encodable(b),
        spec_request_bytes(a) == spec_request_bytes(b),
    ensures
        req_same_model(a, b),
{
    lemma_auto_spec_u16_to_from_le_bytes();
    lemma_auto_spec_u64_to_from_le_bytes();
    lemma_request_bytes_shape(a);
    lemma_request_bytes_shape(b);
    let bytes = spec_request_bytes(a);
    match (a, b) {
        (
            SyncRequest::Handshake { replica_id: i1, last_synced_segment: l1 },
            SyncRequest::Handshake { replica_id: i2, last_synced_segment: l2 },
        ) => {
            assert(spec_u16_from_le_bytes(bytes.subrange(1, 3)) == i1@.len() as u16);
            assert(spec_u16_from_le_bytes(bytes.subrange(1, 3)) == i2@.len() as u16);
            assert(i1@.len() == i2@.len());
            let idlen = i1@.len() as int;
            assert(ascii_bytes(i1@) == bytes.subrange(3, 3 + idlen));
            assert(ascii_bytes(i2@) == bytes.subrange(3, 3 + idlen));
            lemma_ascii_bytes_injective(i1@, i2@);
            assert(spec_u64_from_le_bytes(bytes.subrange(3 + idlen, 11 + idlen)) == l1);
            assert(spec_u64_from_le_bytes(bytes.subrange(3 + idlen, 11 + idlen)) == l2);
        },
        (
            SyncRequest::GetSegment { segment_number: s1 },
            SyncRequest::GetSegment { segment_number: s2 },
        ) => {
            assert(spec_u64_from_le_bytes(bytes.subrange(1, 9)) == s1);
            assert(spec_u64_from_le_bytes(bytes.subrange(1, 9)) == s2);
        },
        (SyncRequest::ListSegments, SyncRequest::ListSegments) => {},
        _ => {
            assert(spec_request_bytes(a)[0] == spec_request_bytes(b)[0]);
            assert(false);
        },
    }
}

/// Law: the response encoding is injective.
pub proof fn lemma_response_bytes_injective(a: SyncResponse, b: SyncResponse)
    requires
        response_encodable(a),
        response_encodable(b),
        spec_response_bytes(a) == spec_response_bytes(b),
    ensures
        resp_same_model(a, b),
{
    lemma_auto_spec_u16_to_from_le_bytes();
    lemma_auto_spec_u64_to_from_le_bytes();
    lemma_response_bytes_shape(a);
    lemma_response_bytes_shape(b);
    let bytes = spec_response_bytes(a);
    match (a, b) {
        (
            SyncResponse::HandshakeAck { leader_id: i1, current_segment: c1 },
            SyncResponse::HandshakeAck { leader_id: i2, current_segment: c2 },
        ) => {
            assert(spec_u16_from_le_bytes(bytes.subrange(1, 3)) == i1@.len() as u16);
            assert(spec_u16_from_le_bytes(bytes.subrange(1, 3)) == i2@.len() as u16);
            assert(i1@.len() == i2@.len());
            let idlen = i1@.len() as int;
            assert(ascii_bytes(i1@) == bytes.subrange(3, 3 + idlen));
            assert(ascii_bytes(i2@) == bytes.subrange(3, 3 + idlen));
            lemma_ascii_bytes_injective(i1@, i2@);
            assert(spec_u64_from_le_bytes(bytes.subrange(3 + idlen, 11 + idlen)) == c1);
            assert(spec_u64_from_le_bytes(bytes.subrange(3 + idlen, 11 + idlen)) == c2);
        },
        (
            SyncResponse::SegmentData { segment_number: s1, entries: e1 },
            SyncResponse::SegmentData { segment_number: s2, entries: e2 },
        ) => {
            assert(spec_u64_from_le_bytes(bytes.subrange(1, 9)) == s1);
            assert(spec_u64_from_le_bytes(bytes.subrange(1, 9)) == s2);
            assert(spec_block_bytes(entry_triples(e1@)) == bytes.subrange(
                9,
                bytes.len() as int,
            ));
            assert(spec_block_bytes(entry_triples(e2@)) == bytes.subrange(
                9,
                bytes.len() as int,
            ));
            lemma_block_parse_bytes(entry_triples(e1@));
            lemma_block_parse_bytes(entry_triples(e2@));
            assert(entry_triples(e1@) == entry_triples(e2@));
        },
        (
            SyncResponse::SegmentList { segments: g1, current_segment: c1 },
            SyncResponse::SegmentList { segments: g2, current_segment: c2 },
        ) => {
            assert(spec_u64_from_le_bytes(bytes.subrange(1, 9)) == g1@.len() as u64);
            assert(spec_u64_from_le_bytes(bytes.subrange(1, 9)) == g2@.len() as u64);
            assert(g1@.len() == g2@.len());
            let cnt = g1@.len() as int;
            assert(spec_u64s_bytes(g1@) == bytes.subrange(9, 9 + 8 * cnt));
            assert(spec_u64s_bytes(g2@) == bytes.subrange(9, 9 + 8 * cnt));
            lemma_u64s_bytes_injective(g1@, g2@);
            assert(spec_u64_from_le_bytes(bytes.subrange(9 + 8 * cnt, 17 + 8 * cnt)) == c1);
            assert(spec_u64_from_le_bytes(bytes.subrange(9 + 8 * cnt, 17 + 8 * cnt)) == c2);
        },
        (
            SyncResponse::SegmentNotFound { segment_number: s1 },
            SyncResponse::SegmentNotFound { segment_number: s2 },
        ) => {
            assert(spec_u64_from_le_bytes(bytes.subrange(1, 9)) == s1);
            assert(spec_u64_from_le_bytes(bytes.subrange(1, 9)) == s2);
        },
        (SyncResponse::Error { message: m1 }, SyncResponse::Error { message: m2 }) => {
            assert(bytes.len() == 1 + m1@.len());
            assert(bytes.len() == 1 + m2@.len());
            assert(ascii_bytes(m1@) == bytes.subrange(1, bytes.len() as int));
            assert(ascii_bytes(m2@) == bytes.subrange(1, bytes.len() as int));
            lemma_ascii_bytes_injective(m1@, m2@);
        },
        _ => {
            assert(spec_response_bytes(a)[0] == spec_response_bytes(b)[0]);
            assert(false);
        },
    }
}

/// The ASCII bytes of a string, checked.
fn ascii_string_bytes(s: &String) -> (r: Result<Vec<u8>, StorageError>)
    ensures
        r is Ok <==> vstd::utf8::is_ascii_chars(s@),
        r matches Ok(v) ==> v@ == ascii_bytes(s@),
{
    let sl = s.as_str();
    if !sl.is_ascii() {
        return Err(StorageError::InvalidFormat(String::from_str("string is not ASCII")));
    }
    let bytes = sl.as_bytes_vec();
    proof {
        vstd::string::is_ascii_spec_bytes(sl);
        assert(bytes@ =~= ascii_bytes(s@));
    }
    Ok(bytes)
}

/// Whether every byte is below 128.
fn all_ascii_bytes(v: &[u8], from: usize, to: usize) -> (r: bool)
    requires
        from <= to <= v@.len(),
    ensures
        r == forall|i: int| from <= i < to ==> #[trigger] v@[i] < 128,
{
    let mut i = from;
    while i < to
        invariant
            from <= i <= to <= v@.len(),
            forall|j: int| from <= j < i ==> #[trigger] v@[j] < 128,
        decreases to - i,
    {
        if v[i] >= 128 {
            return false;
        }
        i = i + 1;
    }
    true
}

/// Decode an ASCII string from a byte range.
fn string_from_ascii(buf: &Vec<u8>, from: usize, to: usize) -> (r: Result<String, StorageError>)
    requires
        from <= to <= buf@.len(),
    ensures
        r matches Ok(s) ==> s@ == buf@.subrange(from as int, to as int).map_values(
            |b: u8| b as char,
        ) && vstd::utf8::is_ascii_chars(s@) && ascii_bytes(s@) == buf@.subrange(
            from as int,
            to as int,
        ),
        r is Ok <==> forall|i: int| from <= i < to ==> #[trigger] buf@[i] < 128,
{
    if !all_ascii_bytes(buf.as_slice(), from, to) {
        return Err(StorageError::Corruption(String::from_str("string is not ASCII")));
    }
    let piece = slice_to_vec(slice_subrange(buf.as_slice(), from, to));
    let s = ascii_bytes_to_string(&piece);
    proof {
        let range = buf@.subrange(from as int, to as int);
        assert(forall|i: int| 0 <= i < range.len() ==> #[trigger] range[i] < 128);
        assert(s@ == range.map_values(|b: u8| b as char));
        assert(vstd::utf8::is_ascii_chars(s@));
        assert(ascii_bytes(s@) =~= range);
    }
    Ok(s)
}

/// Encode a request payload.
pub fn encode_request(m: &SyncRequest) -> (r: Result<Vec<u8>, StorageError>)
    ensures
        r is Ok <==> request_encodable(*m),
        r matches Ok(v) ==> v@ == spec_request_bytes(*m),
{
    match m {
        SyncRequest::Handshake { replica_id, last_synced_segment } => {
            if replica_id.as_str().unicode_len() > 0xFFFF {
                return Err(StorageError::InvalidFormat(String::from_str("id too long")));
            }
            let id_bytes = match ascii_string_bytes(replica_id) {
                Ok(b) => b,
                Err(e) => {
                    return Err(e);
                },
            };
            let mut out: Vec<u8> = Vec::new();
            out.push(1u8);
            let mut len_bytes = u16_to_le_bytes(replica_id.as_str().unicode_len() as u16);
            out.append(&mut len_bytes);
            let mut id_moved = id_bytes;
            out.append(&mut id_moved);
            let mut seg_bytes = u64_to_le_bytes(*last_synced_segment);
            out.append(&mut seg_bytes);
            proof {
                assert(out@ =~= spec_request_bytes(*m));
            }
            Ok(out)
        },
        SyncRequest::GetSegment { segment_number } => {
            let mut out: Vec<u8> = Vec::new();
            out.push(2u8);
            let mut seg_bytes = u64_to_le_bytes(*segment_number);
            out.append(&mut seg_bytes);
            proof {
                assert(out@ =~= spec_request_bytes(*m));
            }
            Ok(out)
        },
        SyncRequest::ListSegments => {
            let mut out: Vec<u8> = Vec::new();
            out.push(3u8);
            proof {
                assert(out@ =~= spec_request_bytes(*m));
            }
            Ok(out)
        },
    }
}

/// Decode a request payload.  An accepted payload is byte-for-byte the
/// encoding of the returned request, and every encodable request's
/// encoding is accepted; with [`lemma_request_bytes_injective`] the two
/// directions make the wire a round trip.
pub fn decode_request(payload: &Vec<u8>) -> (r: Result<SyncRequest, StorageError>)
    ensures
        r matches Ok(out) ==> payload@ == spec_request_bytes(out) && request_encodable(out),
        forall|m: SyncRequest|
            request_encodable(m) && payload@ == (#[trigger] spec_request_bytes(m)) ==> r is Ok,
{
    broadcast use vstd::string::is_ascii_spec_bytes;

    if payload.len() < 1 {
        proof {
            assert forall|m: SyncRequest|
                request_encodable(m) && payload@ == spec_request_bytes(m) implies false by {
                lemma_request_bytes_shape(m);
            }
        }
        return Err(StorageError::Corruption(String::from_str("empty payload")));
    }
    let tag = payload[0];
    if tag == 1 {
        if payload.len() < 11 {
            proof {
                assert forall|m: SyncRequest|
                    request_encodable(m) && payload@ == spec_request_bytes(m) implies false by {
                    lemma_request_bytes_shape(m);
                }
            }
            return Err(StorageError::Corruption(String::from_str("truncated handshake")));
        }
        let id_len = u16_from_le_bytes(slice_subrange(payload.as_slice(), 1, 3)) as usize;
        if payload.len() != 11 + id_len {
            proof {
                lemma_auto_spec_u16_to_from_le_bytes();
                assert forall|m: SyncRequest|
                    request_encodable(m) && payload@ == spec_request_bytes(m) implies false by {
                    lemma_request_bytes_shape(m);
                    if let SyncRequest::Handshake { replica_id, .. } = m {
                        assert(payload@.subrange(1, 3) == spec_u16_to_le_bytes(
                            replica_id@.len() as u16,
                        ));
                    }
                }
            }
            return Err(StorageError::Corruption(String::from_str("bad handshake length")));
        }
        let replica_id = match string_from_ascii(payload, 3, 3 + id_len) {
            Ok(s) => s,
            Err(e) => {
                proof {
                    lemma_auto_spec_u16_to_from_le_bytes();
                    assert forall|m: SyncRequest|
                        request_encodable(m) && payload@ == spec_request_bytes(m)
                        implies false by {
                        lemma_request_bytes_shape(m);
                        if let SyncRequest::Handshake { replica_id: id, .. } = m {
                            assert(payload@.subrange(1, 3) == spec_u16_to_le_bytes(
                                id@.len() as u16,
                            ));
                            assert(id@.len() == id_len);
                        }
                    }
                }
                return Err(e);
            },
        };
        let ghost id_view = replica_id@;
        let last = u64_from_le_bytes(
            slice_subrange(payload.as_slice(), 3 + id_len, 11 + id_len),
        );
        let out = SyncRequest::Handshake { replica_id, last_synced_segment: last };
        proof {
            lemma_auto_spec_u16_to_from_le_bytes();
            lemma_auto_spec_u64_to_from_le_bytes();
            assert(id_view.len() == id_len);
            assert(payload@.subrange(1, 3) =~= spec_u16_to_le_bytes(id_len as u16));
            assert(payload@.subrange(3, 3 + id_len as int) =~= ascii_bytes(id_view));
            assert(payload@.subrange(3 + id_len as int, 11 + id_len as int)
                =~= spec_u64_to_le_bytes(last));
            assert(payload@ =~= spec_request_bytes(out));
        }
        Ok(out)
    } else if tag == 2 {
        if payload.len() != 9 {
            proof {
                assert forall|m: SyncRequest|
                    request_encodable(m) && payload@ == spec_request_bytes(m) implies false by {
                    lemma_request_bytes_shape(m);
                }
            }
            return Err(StorageError::Corruption(String::from_str("bad request length")));
        }
        let seg = u64_from_le_bytes(slice_subrange(payload.as_slice(), 1, 9));
        let out = SyncRequest::GetSegment { segment_number: seg };
        proof {
            lemma_auto_spec_u64_to_from_le_bytes();
            assert(payload@.subrange(1, 9) =~= spec_u64_to_le_bytes(seg));
            assert(payload@ =~= spec_request_bytes(out));
        }
        Ok(out)
    } else if tag == 3 {
        if payload.len() != 1 {
            proof {
                assert forall|m: SyncRequest|
                    request_encodable(m) && payload@ == spec_request_bytes(m) implies false by {
                    lemma_request_bytes_shape(m);
                }
            }
            return Err(StorageError::Corruption(String::from_str("bad request length")));
        }
        proof {
            assert(payload@ =~= spec_request_bytes(SyncRequest::ListSegments));
        }
        Ok(SyncRequest::ListSegments)
    } else {
        proof {
            assert forall|m: SyncRequest|
                request_encodable(m) && payload@ == spec_request_bytes(m) implies false by {
                lemma_request_bytes_shape(m);
            }
        }
        Err(StorageError::Corruption(String::from_str("unknown request tag")))
    }
}

/// Appending a number appends its bytes.
proof fn lemma_u64s_push(s: Seq<u64>, x: u64)
    ensures
        spec_u64s_bytes(s.push(x)) == spec_u64s_bytes(s) + spec_u64_to_le_bytes(x),
    decreases s.len(),
{
    if s.len() == 0 {
        assert(s.push(x)[0] == x);
        assert(s.push(x).skip(1) =~= Seq::<u64>::empty());
        assert(spec_u64s_bytes(Seq::<u64>::empty()) == Seq::<u8>::empty());
        assert(spec_u64s_bytes(s.push(x)) == spec_u64_to_le_bytes(x) + Seq::<u8>::empty());
        assert(spec_u64_to_le_bytes(x) + Seq::<u8>::empty() =~= spec_u64s_bytes(s)
            + spec_u64_to_le_bytes(x));
    } else {
        assert(s.push(x)[0] == s[0]);
        assert(s.push(x).skip(1) =~= s.skip(1).push(x));
        lemma_u64s_push(s.skip(1), x);
        assert(spec_u64s_bytes(s.push(x)) == spec_u64_to_le_bytes(s[0]) + (spec_u64s_bytes(
            s.skip(1),
        ) + spec_u64_to_le_bytes(x)));
        assert(spec_u64_to_le_bytes(s[0]) + (spec_u64s_bytes(s.skip(1)) + spec_u64_to_le_bytes(x))
            =~= spec_u64s_bytes(s) + spec_u64_to_le_bytes(x));
    }
}

/// Encode a response payload.
pub fn encode_response(m: &SyncResponse) -> (r: Result<Vec<u8>, StorageError>)
    ensures
        r matches Ok(v) ==> v@ == spec_response_bytes(*m) && response_encodable(*m),
        !response_encodable(*m) ==> r is Err,
        response_encodable(*m) && response_wire_fits(*m) ==> r is Ok,
{
    match m {
        SyncResponse::HandshakeAck { leader_id, current_segment } => {
            if leader_id.as_str().unicode_len() > 0xFFFF {
                return Err(StorageError::InvalidFormat(String::from_str("id too long")));
            }
            let id_bytes = match ascii_string_bytes(leader_id) {
                Ok(b) => b,
                Err(e) => {
                    return Err(e);
                },
            };
            let mut out: Vec<u8> = Vec::new();
            out.push(1u8);
            let mut len_bytes = u16_to_le_bytes(leader_id.as_str().unicode_len() as u16);
            out.append(&mut len_bytes);
            let mut id_moved = id_bytes;
            out.append(&mut id_moved);
            let mut seg_bytes = u64_to_le_bytes(*current_segment);
            out.append(&mut seg_bytes);
            proof {
                assert(out@ =~= spec_response_bytes(*m));
            }
            Ok(out)
        },
        SyncResponse::SegmentData { segment_number, entries } => {
            let mut block: Vec<u8> = Vec::new();
            let n = entries.len();
            let mut i: usize = 0;
            proof {
                assert(entry_triples(entries@.take(0)) =~= Seq::<(Seq<u8>, Seq<u8>, u64)>::empty());
                assert(block@ =~= spec_block_bytes(entry_triples(entries@.take(0))));
            }
            while i < n
                invariant
                    n == entries@.len(),
                    i <= n,
                    block@ == spec_block_bytes(entry_triples(entries@.take(i as int))),
                    forall|j: int|
                        0 <= j < i ==> crate::block::brecord_encodable(
                            #[trigger] entry_triples(entries@)[j],
                        ),
                    response_encodable(*m) && response_wire_fits(*m) ==> all_brecords_encodable(
                        entry_triples(entries@),
                    ) && spec_block_bytes(entry_triples(entries@)).len() + 9 <= usize::MAX,
                decreases n - i,
            {
                let e = &entries[i];
                let ghost triple = (e.key@, e.value@, e.timestamp);
                proof {
                    if response_encodable(*m) && response_wire_fits(*m) {
                        vstd::bytes::lemma_auto_spec_u16_to_from_le_bytes();
                        vstd::bytes::lemma_auto_spec_u32_to_from_le_bytes();
                        vstd::bytes::lemma_auto_spec_u64_to_from_le_bytes();
                        let triples = entry_triples(entries@);
                        assert(entries@.take(i as int + 1) =~= entries@.take(i as int).push(
                            entries@[i as int],
                        ));
                        assert(entry_triples(entries@.take(i as int + 1)) =~= entry_triples(
                            entries@.take(i as int),
                        ).push(triple));
                        crate::block::lemma_block_bytes_concat(
                            entry_triples(entries@.take(i as int)),
                            seq![triple],
                        );
                        assert(spec_block_bytes(seq![triple].skip(1)) =~= Seq::<u8>::empty());
                        assert(spec_block_bytes(seq![triple]) =~= crate::block::spec_brecord_bytes(
                            triple,
                        ));
                        assert(entry_triples(entries@.take(i as int)) + seq![triple]
                            =~= entry_triples(entries@.take(i as int)).push(triple));
                        assert(entries@.take(i as int + 1) + entries@.skip(i as int + 1)
                            =~= entries@);
                        assert(entry_triples(entries@.take(i as int + 1) + entries@.skip(
                            i as int + 1,
                        )) =~= entry_triples(entries@.take(i as int + 1)) + entry_triples(
                            entries@.skip(i as int + 1),
                        ));
                        crate::block::lemma_block_bytes_concat(
                            entry_triples(entries@.take(i as int + 1)),
                            entry_triples(entries@.skip(i as int + 1)),
                        );
                        assert(spec_block_bytes(entry_triples(entries@.take(i as int + 1))).len()
                            <= spec_block_bytes(triples).len());
                        assert(triples[i as int] == triple);
                    }
                }
                match crate::block::append_brecord(&mut block, &e.key, &e.value, e.timestamp) {
                    Ok(_) => {},
                    Err(err) => {
                        return Err(err);
                    },
                }
                proof {
                    assert(entries@.take(i as int + 1) =~= entries@.take(i as int).push(
                        entries@[i as int],
                    ));
                    assert(entry_triples(entries@.take(i as int + 1)) =~= entry_triples(
                        entries@.take(i as int),
                    ).push(triple));
                    crate::block::lemma_block_bytes_concat(
                        entry_triples(entries@.take(i as int)),
                        seq![triple],
                    );
                    assert(spec_block_bytes(seq![triple].skip(1)) =~= Seq::<u8>::empty());
                    assert(spec_block_bytes(seq![triple]) =~= crate::block::spec_brecord_bytes(
                        triple,
                    ));
                    assert(entry_triples(entries@.take(i as int)).push(triple) =~= entry_triples(
                        entries@.take(i as int),
                    ) + seq![triple]);
                    assert(entry_triples(entries@)[i as int] == triple);
                }
                i = i + 1;
            }
            proof {
                assert(entries@.take(n as int) =~= entries@);
            }
            let mut out: Vec<u8> = Vec::new();
            out.push(2u8);
            let mut seg_bytes = u64_to_le_bytes(*segment_number);
            out.append(&mut seg_bytes);
            let mut block_moved = block;
            out.append(&mut block_moved);
            proof {
                assert(out@ =~= spec_response_bytes(*m));
            }
            Ok(out)
        },
        SyncResponse::SegmentList { segments, current_segment } => {
            let mut out: Vec<u8> = Vec::new();
            out.push(3u8);
            let mut count_bytes = u64_to_le_bytes(segments.len() as u64);
            out.append(&mut count_bytes);
            let n = segments.len();
            let mut i: usize = 0;
            proof {
                assert(segments@.take(0) =~= Seq::<u64>::empty());
                assert(out@ =~= seq![3u8] + spec_u64_to_le_bytes(segments@.len() as u64)
                    + spec_u64s_bytes(segments@.take(0)));
            }
            while i < n
                invariant
                    n == segments@.len(),
                    i <= n,
                    out@ == seq![3u8] + spec_u64_to_le_bytes(segments@.len() as u64)
                        + spec_u64s_bytes(segments@.take(i as int)),
                decreases n - i,
            {
                let mut seg_bytes = u64_to_le_bytes(segments[i]);
                out.append(&mut seg_bytes);
                proof {
                    assert(segments@.take(i as int + 1) =~= segments@.take(i as int).push(
                        segments@[i as int],
                    ));
                    lemma_u64s_push(segments@.take(i as int), segments@[i as int]);
                    assert(out@ =~= seq![3u8] + spec_u64_to_le_bytes(segments@.len() as u64)
                        + spec_u64s_bytes(segments@.take(i as int + 1)));
                }
                i = i + 1;
            }
            let mut cur_bytes = u64_to_le_bytes(*current_segment);
            out.append(&mut cur_bytes);
            proof {
                assert(segments@.take(n as int) =~= segments@);
                assert(out@ =~= spec_response_bytes(*m));
            }
            Ok(out)
        },
        SyncResponse::SegmentNotFound { segment_number } => {
            let mut out: Vec<u8> = Vec::new();
            out.push(4u8);
            let mut seg_bytes = u64_to_le_bytes(*segment_number);
            out.append(&mut seg_bytes);
            proof {
                assert(out@ =~= spec_response_bytes(*m));
            }
            Ok(out)
        },
        SyncResponse::Error { message } => {
            let msg_bytes = match ascii_string_bytes(message) {
                Ok(b) => b,
                Err(e) => {
                    return Err(e);
                },
            };
            let mut out: Vec<u8> = Vec::new();
            out.push(5u8);
            let mut msg_moved = msg_bytes;
            out.append(&mut msg_moved);
            proof {
                assert(out@ =~= spec_response_bytes(*m));
            }
            Ok(out)
        },
    }
}

/// Decode a response payload.  An accepted payload is byte-for-byte the
/// encoding of the returned response, and every encodable response's
/// encoding is accepted; with [`lemma_response_bytes_injective`] the two
/// directions make the wire a round trip.
pub fn decode_response(payload: &Vec<u8>) -> (r: Result<SyncResponse, StorageError>)
    ensures
        r matches Ok(out) ==> payload@ == spec_response_bytes(out) && response_encodable(out),
        forall|m: SyncResponse|
            response_encodable(m) && payload@ == (#[trigger] spec_response_bytes(m)) ==> r
                is Ok,
{
    broadcast use vstd::string::is_ascii_spec_bytes;

    if payload.len() < 1 {
        proof {
            assert forall|m: SyncResponse|
                response_encodable(m) && payload@ == spec_response_bytes(m) implies false by {
                lemma_response_bytes_shape(m);
            }
        }
        return Err(StorageError::Corruption(String::from_str("empty payload")));
    }
    let tag = payload[0];
    if tag == 1 {
        if payload.len() < 11 {
            proof {
            assert forall|m: SyncResponse|
                response_encodable(m) && payload@ == spec_response_bytes(m) implies false by {
                lemma_response_bytes_shape(m);
            }
            }
            return Err(StorageError::Corruption(String::from_str("truncated handshake ack")));
        }
        let id_len = u16_from_le_bytes(slice_subrange(payload.as_slice(), 1, 3)) as usize;
        if payload.len() != 11 + id_len {
            proof {
            assert forall|m: SyncResponse|
                response_encodable(m) && payload@ == spec_response_bytes(m) implies false by {
                lemma_response_bytes_shape(m);
                if let SyncResponse::HandshakeAck { leader_id, .. } = m {
                    lemma_auto_spec_u16_to_from_le_bytes();
                    assert(payload@.subrange(1, 3) == spec_u16_to_le_bytes(
                        leader_id@.len() as u16,
                    ));
                    assert(leader_id@.len() == id_len);
                }
            }
            }
            return Err(StorageError::Corruption(String::from_str("bad ack length")));
        }
        let leader_id = match string_from_ascii(payload, 3, 3 + id_len) {
            Ok(s) => s,
            Err(e) => {
                proof {
            assert forall|m: SyncResponse|
                response_encodable(m) && payload@ == spec_response_bytes(m) implies false by {
                lemma_response_bytes_shape(m);
                if let SyncResponse::HandshakeAck { leader_id, .. } = m {
                    lemma_auto_spec_u16_to_from_le_bytes();
                    assert(payload@.subrange(1, 3) == spec_u16_to_le_bytes(
                        leader_id@.len() as u16,
                    ));
                    assert(leader_id@.len() == id_len);
                }
            }
                }
                return Err(e);
            },
        };
        let ghost id_view = leader_id@;
        let current = u64_from_le_bytes(
            slice_subrange(payload.as_slice(), 3 + id_len, 11 + id_len),
        );
        let out = SyncResponse::HandshakeAck { leader_id, current_segment: current };
        proof {
            lemma_auto_spec_u16_to_from_le_bytes();
            lemma_auto_spec_u64_to_from_le_bytes();
            assert(id_view.len() == id_len);
            assert(payload@.subrange(1, 3) =~= spec_u16_to_le_bytes(id_len as u16));
            assert(payload@.subrange(3, 3 + id_len as int) =~= ascii_bytes(id_view));
            assert(payload@.subrange(3 + id_len as int, 11 + id_len as int)
                =~= spec_u64_to_le_bytes(current));
            assert(payload@ =~= spec_response_bytes(out));
        }
        Ok(out)
    } else if tag == 2 {
        if payload.len() < 9 {
            proof {
            assert forall|m: SyncResponse|
                response_encodable(m) && payload@ == spec_response_bytes(m) implies false by {
                lemma_response_bytes_shape(m);
            }
            }
            return Err(StorageError::Corruption(String::from_str("truncated segment data")));
        }
        let seg = u64_from_le_bytes(slice_subrange(payload.as_slice(), 1, 9));
        let block = slice_to_vec(slice_subrange(payload.as_slice(), 9, payload.len()));
        let (records, clean) = parse_block(&block);
        if !clean {
            proof {
            assert forall|m: SyncResponse|
                response_encodable(m) && payload@ == spec_response_bytes(m) implies false by {
                lemma_response_bytes_shape(m);
                if let SyncResponse::SegmentData { entries, .. } = m {
                    lemma_block_parse_bytes(entry_triples(entries@));
                    assert(block@ =~= payload@.subrange(9, payload@.len() as int));
                    assert(block@ == spec_block_bytes(entry_triples(entries@)));
                }
            }
            }
            return Err(StorageError::Corruption(String::from_str("malformed entry block")));
        }
        let mut entries: Vec<Entry> = Vec::new();
        let n = records.len();
        let mut i: usize = 0;
        while i < n
            invariant
                n == records@.len(),
                i <= n,
                entries@.len() == i,
                entry_triples(entries@) == kv_models(records@.take(i as int)),
            decreases n - i,
        {
            let rec = crate::memtable::clone_record(&records, i);
            entries.push(Entry { key: rec.0, value: rec.1, timestamp: rec.2 });
            proof {
                assert(records@.take(i as int + 1) =~= records@.take(i as int).push(
                    records@[i as int],
                ));
                assert(entry_triples(entries@) =~= kv_models(records@.take(i as int)).push(
                    (records@[i as int].0@, records@[i as int].1@, records@[i as int].2),
                ));
                assert(kv_models(records@.take(i as int + 1)) =~= kv_models(
                    records@.take(i as int),
                ).push((records@[i as int].0@, records@[i as int].1@, records@[i as int].2)));
            }
            i = i + 1;
        }
        let out = SyncResponse::SegmentData { segment_number: seg, entries };
        proof {
            lemma_auto_spec_u64_to_from_le_bytes();
            assert(records@.take(n as int) =~= records@);
            lemma_block_clean_is_encoding(block@);
            assert(payload@.subrange(1, 9) =~= spec_u64_to_le_bytes(seg));
            assert(block@ =~= payload@.subrange(9, payload@.len() as int));
            assert(spec_block_bytes(kv_models(records@)) == block@);
            assert(payload@ =~= spec_response_bytes(out));
        }
        Ok(out)
    } else if tag == 3 {
        if payload.len() < 17 {
            proof {
            assert forall|m: SyncResponse|
                response_encodable(m) && payload@ == spec_response_bytes(m) implies false by {
                lemma_response_bytes_shape(m);
            }
            }
            return Err(StorageError::Corruption(String::from_str("truncated segment list")));
        }
        let count = u64_from_le_bytes(slice_subrange(payload.as_slice(), 1, 9));
        let slots = (payload.len() - 17) / 8;
        if (payload.len() - 17) % 8 != 0 || count != slots as u64 {
            proof {
            assert forall|m: SyncResponse|
                response_encodable(m) && payload@ == spec_response_bytes(m) implies false by {
                lemma_response_bytes_shape(m);
                if let SyncResponse::SegmentList { segments, .. } = m {
                    lemma_auto_spec_u64_to_from_le_bytes();
                    let cnt = segments@.len() as int;
                    assert(payload@.subrange(1, 9) == spec_u64_to_le_bytes(
                        segments@.len() as u64,
                    ));
                    assert((8 * cnt) % 8 == 0 && (8 * cnt) / 8 == cnt) by (nonlinear_arith);
                    assert(payload@.len() - 17 == 8 * cnt);
                }
            }
            }
            return Err(StorageError::Corruption(String::from_str("bad segment list length")));
        }
        let mut segments: Vec<u64> = Vec::new();
        let mut i: usize = 0;
        proof {
            assert(spec_u64s_bytes(segments@) =~= payload@.subrange(9, 9));
        }
        while i < slots
            invariant
                slots * 8 + 17 == payload@.len(),
                payload@.len() <= usize::MAX,
                i <= slots,
                segments@.len() == i,
                spec_u64s_bytes(segments@) == payload@.subrange(9, 9 + 8 * i as int),
            decreases slots - i,
        {
            proof {
                assert(8 * (i as int) + 8 <= 8 * (slots as int)) by (nonlinear_arith)
                    requires
                        i < slots,
                ;
                assert(9 + 8 * (i as int) + 8 <= payload@.len());
            }
            let seg = u64_from_le_bytes(
                slice_subrange(payload.as_slice(), 9 + 8 * i, 17 + 8 * i),
            );
            let ghost pre_segments = segments@;
            segments.push(seg);
            proof {
                lemma_auto_spec_u64_to_from_le_bytes();
                lemma_u64s_push(pre_segments, seg);
                assert(segments@ == pre_segments.push(seg));
                assert(payload@.subrange(9 + 8 * (i as int), 17 + 8 * (i as int))
                    =~= spec_u64_to_le_bytes(seg));
                assert(payload@.subrange(9, 9 + 8 * (i as int + 1)) =~= payload@.subrange(
                    9,
                    9 + 8 * (i as int),
                ) + payload@.subrange(9 + 8 * (i as int), 17 + 8 * (i as int)));
                assert(spec_u64s_bytes(segments@) =~= payload@.subrange(
                    9,
                    9 + 8 * (i as int + 1),
                ));
            }
            i = i + 1;
        }
        let current = u64_from_le_bytes(
            slice_subrange(payload.as_slice(), payload.len() - 8, payload.len()),
        );
        let out = SyncResponse::SegmentList { segments, current_segment: current };
        proof {
            lemma_auto_spec_u64_to_from_le_bytes();
            assert(payload@.subrange(1, 9) =~= spec_u64_to_le_bytes(count));
            assert(payload@.subrange(
                payload@.len() - 8,
                payload@.len() as int,
            ) =~= spec_u64_to_le_bytes(current));
            assert(9 + 8 * (slots as int) == payload@.len() - 8);
            assert(payload@ =~= spec_response_bytes(out));
        }
        Ok(out)
    } else if tag == 4 {
        if payload.len() != 9 {
            proof {
            assert forall|m: SyncResponse|
                response_encodable(m) && payload@ == spec_response_bytes(m) implies false by {
                lemma_response_bytes_shape(m);
            }
            }
            return Err(StorageError::Corruption(String::from_str("bad response length")));
        }
        let seg = u64_from_le_bytes(slice_subrange(payload.as_slice(), 1, 9));
        let out = SyncResponse::SegmentNotFound { segment_number: seg };
        proof {
            lemma_auto_spec_u64_to_from_le_bytes();
            assert(payload@.subrange(1, 9) =~= spec_u64_to_le_bytes(seg));
            assert(payload@ =~= spec_response_bytes(out));
        }
        Ok(out)
    } else if tag == 5 {
        let message = match string_from_ascii(payload, 1, payload.len()) {
            Ok(s) => s,
            Err(e) => {
                proof {
            assert forall|m: SyncResponse|
                response_encodable(m) && payload@ == spec_response_bytes(m) implies false by {
                lemma_response_bytes_shape(m);
            }
                }
                return Err(e);
            },
        };
        let ghost msg_view = message@;
        let out = SyncResponse::Error { message };
        proof {
            assert(payload@.subrange(1, payload@.len() as int) =~= ascii_bytes(msg_view));
            assert(payload@ =~= spec_response_bytes(out));
        }
        Ok(out)
    } else {
        proof {
            assert forall|m: SyncResponse|
                response_encodable(m) && payload@ == spec_response_bytes(m) implies false by {
                lemma_response_bytes_shape(m);
            }
        }
        Err(StorageError::Corruption(String::from_str("unknown response tag")))
    }
}

/// Wrap a payload in a frame: the length, little-endian, then the bytes.
/// Payloads above the 100 MiB cap are refused.
pub fn frame_payload(payload: Vec<u8>) -> (r: Result<Vec<u8>, StorageError>)
    ensures
        r is Ok <==> payload@.len() <= MAX_FRAME_BYTES,
        r matches Ok(v) ==> v@ == spec_u32_to_le_bytes(payload@.len() as u32) + payload@,
{
    if payload.len() > MAX_FRAME_BYTES {
        return Err(StorageError::InvalidFormat(String::from_str("frame too large")));
    }
    let mut out = u32_to_le_bytes(payload.len() as u32);
    let mut body = payload;
    out.append(&mut body);
    Ok(out)
}

/// Read one frame off the front of a byte run: the payload and the
/// position just past it.  A frame above the cap, or shorter than its
/// declared length, is corruption; fewer than four bytes are a clean end.
pub fn deframe_payload(buf: &Vec<u8>, pos: usize) -> (r: Result<
    Option<(Vec<u8>, usize)>,
    StorageError,
>)
    requires
        pos <= buf@.len(),
    ensures
        r matches Ok(Some(p)) ==> {
            &&& pos + 4 <= p.1 <= buf@.len()
            &&& p.0@.len() <= MAX_FRAME_BYTES
            &&& buf@.subrange(pos as int, p.1 as int) == spec_u32_to_le_bytes(
                p.0@.len() as u32,
            ) + p.0@
        },
        r matches Ok(None) ==> buf@.len() - pos < 4,
        buf@.len() - pos < 4 ==> r matches Ok(None),
        (buf@.len() - pos >= 4 && spec_u32_from_le_bytes(
            buf@.subrange(pos as int, pos as int + 4),
        ) <= MAX_FRAME_BYTES && pos + 4 + spec_u32_from_le_bytes(
            buf@.subrange(pos as int, pos as int + 4),
        ) <= buf@.len()) ==> (r matches Ok(Some(p)) && p.0@ == buf@.subrange(
            pos as int + 4,
            pos as int + 4 + spec_u32_from_le_bytes(
                buf@.subrange(pos as int, pos as int + 4),
            ) as int,
        )),
{
    if buf.len() - pos < 4 {
        return Ok(None);
    }
    let len = u32_from_le_bytes(slice_subrange(buf.as_slice(), pos, pos + 4)) as usize;
    if len > MAX_FRAME_BYTES {
        return Err(StorageError::InvalidFormat(String::from_str("frame too large")));
    }
    if len > buf.len() - pos - 4 {
        return Err(StorageError::Corruption(String::from_str("truncated frame")));
    }
    let payload = slice_to_vec(slice_subrange(buf.as_slice(), pos + 4, pos + 4 + len));
    proof {
        lemma_auto_spec_u32_to_from_le_bytes();
        assert(buf@.subrange(pos as int, pos as int + 4) =~= spec_u32_to_le_bytes(len as u32));
        assert(buf@.subrange(pos as int, pos as int + 4 + len as int) =~= spec_u32_to_le_bytes(
            payload@.len() as u32,
        ) + payload@);
    }
    Ok(Some((payload, pos + 4 + len)))
}

} // verus!
