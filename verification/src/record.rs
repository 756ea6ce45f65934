//! The WAL record format.
//!
//! A record is laid out as
//! `checksum(u32) | data_len(u16) | op(u8) | timestamp(u64) | key_len(u16) |
//! key | value_len(u32) | value`, all integers little-endian.  The checksum
//! is the CRC-32 of the *body*, that is of `data_len | op | payload`.
//! `data_len` counts the payload bytes and is capped at 65535, which bounds
//! the whole record; the reader treats anything larger as corruption.

use vstd::prelude::*;
use vstd::bytes::*;
use vstd::slice::*;
use vstd::string::StringExecFns;
use crate::{Entry, EntryModel, OpType, spec_op_code};
use crate::crc::{crc32, crc32_of};
use crate::error::StorageError;

verus! {

/// Payload of a record: timestamp, length-prefixed key, length-prefixed value.
pub open spec fn spec_record_payload(e: EntryModel) -> Seq<u8> {
    spec_u64_to_le_bytes(e.timestamp) + spec_u16_to_le_bytes(e.key.len() as u16) + e.key
        + spec_u32_to_le_bytes(e.value.len() as u32) + e.value
}

/// Number of payload bytes of a record for `e`.
pub open spec fn spec_payload_len(e: EntryModel) -> int {
    14 + e.key.len() as int + e.value.len() as int
}

/// Body of a record: the bytes the checksum covers.
pub open spec fn spec_record_body(op: OpType, e: EntryModel) -> Seq<u8> {
    spec_u16_to_le_bytes(spec_payload_len(e) as u16) + seq![spec_op_code(op)]
        + spec_record_payload(e)
}

/// A full record: checksum followed by the body.
pub open spec fn spec_record_bytes(op: OpType, e: EntryModel) -> Seq<u8> {
    spec_u32_to_le_bytes(crc32_of(spec_record_body(op, e))) + spec_record_body(op, e)
}

/// Whether an entry fits the record format: the key length must fit its
/// 16-bit prefix and the payload must fit the 16-bit `data_len`.
pub open spec fn record_encodable(e: EntryModel) -> bool {
    &&& e.key.len() <= 0xFFFF
    &&& spec_payload_len(e) <= 0xFFFF
}

/// Total length in bytes of the record for `e`.
pub open spec fn spec_record_len(e: EntryModel) -> int {
    7 + spec_payload_len(e)
}

/// What the record reader makes of the front of a byte sequence: the decoded
/// operation and entry plus the number of bytes consumed, or nothing when the
/// bytes do not begin with a well-formed record whose checksum matches.
pub open spec fn spec_decode_record(b: Seq<u8>) -> Option<((OpType, EntryModel), int)> {
    if b.len() < 7 {
        None
    } else {
        let crc = spec_u32_from_le_bytes(b.subrange(0, 4));
        let dlen = spec_u16_from_le_bytes(b.subrange(4, 6)) as int;
        let opb = b[6];
        if opb != 1 && opb != 2 {
            None
        } else if 7 + dlen > b.len() {
            None
        } else if crc != crc32_of(b.subrange(4, 7 + dlen)) {
            None
        } else if dlen < 14 {
            None
        } else {
            let data = b.subrange(7, 7 + dlen);
            let op = if opb == 1 { OpType::Put } else { OpType::Delete };
            let ts = spec_u64_from_le_bytes(data.subrange(0, 8));
            let klen = spec_u16_from_le_bytes(data.subrange(8, 10)) as int;
            if 14 + klen > dlen {
                None
            } else {
                let key = data.subrange(10, 10 + klen);
                let vlen = spec_u32_from_le_bytes(data.subrange(10 + klen, 14 + klen)) as int;
                if dlen != 14 + klen + vlen {
                    None
                } else {
                    let value = data.subrange(14 + klen, dlen);
                    Some(((op, EntryModel { key, value, timestamp: ts }), 7 + dlen))
                }
            }
        }
    }
}

/// Encode one record.  Succeeds exactly when the entry fits the format.
pub fn encode_record(op: OpType, entry: &Entry) -> (r: Result<Vec<u8>, StorageError>)
    ensures
        r is Ok <==> record_encodable(entry@),
        r matches Ok(v) ==> v@ == spec_record_bytes(op, entry@),
{
    if entry.key.len() > 0xFFFF {
        return Err(StorageError::InvalidFormat(String::from_str("Key too long")));
    }
    if entry.value.len() > 0xFFFF {
        return Err(StorageError::InvalidFormat(String::from_str("Record too large")));
    }
    if 14 + entry.key.len() + entry.value.len() > 0xFFFF {
        return Err(StorageError::InvalidFormat(String::from_str("Record too large")));
    }
    let data_len: u16 = (14 + entry.key.len() + entry.value.len()) as u16;

    let mut payload: Vec<u8> = Vec::new();
    let mut ts_bytes = u64_to_le_bytes(entry.timestamp);
    payload.append(&mut ts_bytes);
    let mut klen_bytes = u16_to_le_bytes(entry.key.len() as u16);
    payload.append(&mut klen_bytes);
    payload.extend_from_slice(entry.key.as_slice());
    let mut vlen_bytes = u32_to_le_bytes(entry.value.len() as u32);
    payload.append(&mut vlen_bytes);
    payload.extend_from_slice(entry.value.as_slice());
    assert(payload@ =~= spec_record_payload(entry@));

    let mut body: Vec<u8> = u16_to_le_bytes(data_len);
    body.push(op.code());
    let mut payload_moved = payload;
    body.append(&mut payload_moved);
    assert(body@ =~= spec_record_body(op, entry@));

    let checksum = crc32(body.as_slice());
    let mut record: Vec<u8> = u32_to_le_bytes(checksum);
    let mut body_moved = body;
    record.append(&mut body_moved);
    assert(record@ =~= spec_record_bytes(op, entry@));
    Ok(record)
}

/// Decode one record starting at `pos`.
///
/// Returns `Ok(None)` at a clean end of input or on a torn header (fewer
/// than seven bytes left), `Err(Corruption)` on a record the format or the
/// checksum rejects, and otherwise the decoded record with the position just
/// past it.  A record is accepted exactly when the bytes at `pos` start with
/// an encoding, and then — the stored checksum matching the CRC-32 of the
/// body — the decoding inverts [`spec_record_bytes`].
pub fn decode_record(buf: &Vec<u8>, pos: usize) -> (r: Result<
    Option<((OpType, Entry), usize)>,
    StorageError,
>)
    requires
        pos <= buf@.len(),
    ensures
        r matches Ok(Some(((op, e), p))) ==> {
            &&& spec_decode_record(buf@.skip(pos as int)) == Some(((op, e@), p - pos))
            &&& pos < p <= buf@.len()
        },
        !(r matches Ok(Some(_))) ==> spec_decode_record(buf@.skip(pos as int)) is None,
        r matches Ok(None) ==> buf@.len() - pos < 7,
        r is Err ==> buf@.len() - pos >= 7,
{
    let remaining = buf.len() - pos;
    if remaining < 7 {
        return Ok(None);
    }
    let crc_stored = u32_from_le_bytes(slice_subrange(buf.as_slice(), pos, pos + 4));
    let dlen = u16_from_le_bytes(slice_subrange(buf.as_slice(), pos + 4, pos + 6)) as usize;
    let opb = buf[pos + 6];
    proof {
        let s = buf@.skip(pos as int);
        assert(s.subrange(0, 4) =~= buf@.subrange(pos as int, pos as int + 4));
        assert(s.subrange(4, 6) =~= buf@.subrange(pos as int + 4, pos as int + 6));
        assert(s[6] == buf@[pos as int + 6]);
    }
    let op = match OpType::from_u8(opb) {
        Some(op) => op,
        None => {
            return Err(StorageError::Corruption(String::from_str("Invalid op type")));
        },
    };
    if dlen > remaining - 7 {
        return Err(StorageError::Corruption(String::from_str("Truncated record")));
    }
    let body = slice_subrange(buf.as_slice(), pos + 4, pos + 7 + dlen);
    let computed = crc32(body);
    proof {
        let s = buf@.skip(pos as int);
        assert(s.subrange(4, 7 + dlen as int) =~= buf@.subrange(
            pos as int + 4,
            pos as int + 7 + dlen as int,
        ));
    }
    if computed != crc_stored {
        return Err(StorageError::Corruption(String::from_str("Checksum mismatch")));
    }
    if dlen < 14 {
        return Err(StorageError::Corruption(String::from_str("Truncated payload")));
    }
    let data_start = pos + 7;
    let ghost data = buf@.skip(pos as int).subrange(7, 7 + dlen as int);
    proof {
        assert(data =~= buf@.subrange(data_start as int, data_start as int + dlen as int));
    }
    let ts = u64_from_le_bytes(slice_subrange(buf.as_slice(), data_start, data_start + 8));
    let klen = u16_from_le_bytes(
        slice_subrange(buf.as_slice(), data_start + 8, data_start + 10),
    ) as usize;
    proof {
        assert(data.subrange(0, 8) =~= buf@.subrange(
            data_start as int,
            data_start as int + 8,
        ));
        assert(data.subrange(8, 10) =~= buf@.subrange(
            data_start as int + 8,
            data_start as int + 10,
        ));
    }
    if klen > dlen - 14 {
        return Err(StorageError::Corruption(String::from_str("Truncated key")));
    }
    let key = slice_to_vec(slice_subrange(buf.as_slice(), data_start + 10, data_start + 10 + klen));
    let vlen = u32_from_le_bytes(
        slice_subrange(buf.as_slice(), data_start + 10 + klen, data_start + 14 + klen),
    ) as usize;
    proof {
        assert(data.subrange(10, 10 + klen as int) =~= buf@.subrange(
            data_start as int + 10,
            data_start as int + 10 + klen as int,
        ));
        assert(data.subrange(10 + klen as int, 14 + klen as int) =~= buf@.subrange(
            data_start as int + 10 + klen as int,
            data_start as int + 14 + klen as int,
        ));
    }
    if vlen != dlen - 14 - klen {
        return Err(StorageError::Corruption(String::from_str("Truncated value")));
    }
    let value = slice_to_vec(
        slice_subrange(buf.as_slice(), data_start + 14 + klen, data_start + dlen),
    );
    proof {
        assert(data.subrange(14 + klen as int, dlen as int) =~= buf@.subrange(
            data_start as int + 14 + klen as int,
            data_start as int + dlen as int,
        ));
    }
    let entry = Entry { key, value, timestamp: ts };
    Ok(Some(((op, entry), pos + 7 + dlen)))
}

/// Decoding inverts encoding: a well-formed record at the front of a byte
/// sequence decodes to exactly the operation and entry it was built from,
/// whatever follows it.
pub proof fn lemma_decode_encode(op: OpType, e: EntryModel, rest: Seq<u8>)
    requires
        record_encodable(e),
    ensures
        spec_decode_record(spec_record_bytes(op, e) + rest) == Some(((op, e), spec_record_len(e))),
{
    lemma_auto_spec_u16_to_from_le_bytes();
    lemma_auto_spec_u32_to_from_le_bytes();
    lemma_auto_spec_u64_to_from_le_bytes();
    let body = spec_record_body(op, e);
    let record = spec_record_bytes(op, e);
    let b = record + rest;
    let dlen = spec_payload_len(e);
    assert(b.subrange(0, 4) =~= spec_u32_to_le_bytes(crc32_of(body)));
    assert(b.subrange(4, 6) =~= spec_u16_to_le_bytes(dlen as u16));
    assert(b[6] == spec_op_code(op));
    assert(b.subrange(4, 7 + dlen) =~= body);
    let data = b.subrange(7, 7 + dlen);
    assert(data =~= spec_record_payload(e));
    assert(data.subrange(0, 8) =~= spec_u64_to_le_bytes(e.timestamp));
    assert(data.subrange(8, 10) =~= spec_u16_to_le_bytes(e.key.len() as u16));
    let klen = e.key.len() as int;
    assert(data.subrange(10, 10 + klen) =~= e.key);
    assert(data.subrange(10 + klen, 14 + klen) =~= spec_u32_to_le_bytes(e.value.len() as u32));
    assert(data.subrange(14 + klen, dlen) =~= e.value);
    let decoded = spec_decode_record(b);
    assert(decoded matches Some(((dop, de), n)) && dop == op && n == spec_record_len(e) && de
        =~= e);
}

/// Law: a record the reader accepts has a checksum that matches its body.
/// The stored 32-bit word at the front equals the CRC-32 of the
/// `data_len | op | payload` bytes that follow it; anything else is
/// rejected as corruption.
pub proof fn lemma_accepted_record_checksum(b: Seq<u8>, op: OpType, e: EntryModel, n: int)
    requires
        spec_decode_record(b) == Some(((op, e), n)),
    ensures
        spec_u32_from_le_bytes(b.subrange(0, 4)) == crc32_of(b.subrange(4, n)),
{
    let dlen = spec_u16_from_le_bytes(b.subrange(4, 6)) as int;
    assert(n == 7 + dlen);
}

/// The bytes of a whole segment: the records of its entries, in order.
pub open spec fn spec_segment_bytes(es: Seq<(OpType, EntryModel)>) -> Seq<u8>
    decreases es.len(),
{
    if es.len() == 0 {
        Seq::empty()
    } else {
        spec_record_bytes(es[0].0, es[0].1) + spec_segment_bytes(es.skip(1))
    }
}

/// Every entry of the sequence fits the record format.
pub open spec fn all_encodable(es: Seq<(OpType, EntryModel)>) -> bool {
    forall|i: int| 0 <= i < es.len() ==> record_encodable(#[trigger] es[i].1)
}

/// What a reader makes of a segment: records decoded from the front until
/// the bytes run out or stop parsing.
pub open spec fn spec_parse_segment(b: Seq<u8>) -> Seq<(OpType, EntryModel)>
    decreases b.len(),
{
    match spec_decode_record(b) {
        Some((oe, n)) => if 7 <= n <= b.len() {
            seq![oe] + spec_parse_segment(b.skip(n))
        } else {
            Seq::empty()
        },
        None => Seq::empty(),
    }
}

/// Whether a reader consumes the segment completely: every byte belongs to a
/// record that parses, and nothing is left over.
pub open spec fn spec_parse_clean(b: Seq<u8>) -> bool
    decreases b.len(),
{
    if b.len() == 0 {
        true
    } else {
        match spec_decode_record(b) {
            Some((oe, n)) => if 7 <= n <= b.len() {
                spec_parse_clean(b.skip(n))
            } else {
                false
            },
            None => false,
        }
    }
}

/// Concatenating entry sequences concatenates their segment bytes.
pub proof fn lemma_segment_bytes_concat(a: Seq<(OpType, EntryModel)>, b: Seq<(OpType, EntryModel)>)
    ensures
        spec_segment_bytes(a + b) == spec_segment_bytes(a) + spec_segment_bytes(b),
    decreases a.len(),
{
    if a.len() == 0 {
        assert(a + b =~= b);
        assert(spec_segment_bytes(a) + spec_segment_bytes(b) =~= spec_segment_bytes(b));
    } else {
        assert((a + b).skip(1) =~= a.skip(1) + b);
        lemma_segment_bytes_concat(a.skip(1), b);
        assert(spec_segment_bytes(a + b) =~= spec_segment_bytes(a) + spec_segment_bytes(b));
    }
}

/// A segment built from encodable entries parses back to exactly those
/// entries, and parses cleanly.
pub proof fn lemma_parse_segment_bytes(es: Seq<(OpType, EntryModel)>)
    requires
        all_encodable(es),
    ensures
        spec_parse_segment(spec_segment_bytes(es)) == es,
        spec_parse_clean(spec_segment_bytes(es)),
    decreases es.len(),
{
    if es.len() == 0 {
    } else {
        let (op, e) = es[0];
        let rest = spec_segment_bytes(es.skip(1));
        lemma_decode_encode(op, e, rest);
        lemma_auto_spec_u16_to_from_le_bytes();
        lemma_auto_spec_u32_to_from_le_bytes();
        lemma_auto_spec_u64_to_from_le_bytes();
        let b = spec_record_bytes(op, e) + rest;
        assert(spec_segment_bytes(es) == b);
        assert(spec_record_bytes(op, e).len() == spec_record_len(e));
        assert(b.skip(spec_record_len(e)) =~= rest);
        lemma_parse_segment_bytes(es.skip(1));
        assert(spec_parse_segment(b) =~= seq![(op, e)] + es.skip(1));
        assert(seq![(op, e)] + es.skip(1) =~= es);
    }
}

/// The mathematical image of a vector of decoded records.
pub open spec fn abs_records(s: Seq<(OpType, Entry)>) -> Seq<(OpType, EntryModel)> {
    s.map_values(|oe: (OpType, Entry)| (oe.0, oe.1@))
}

/// A record the reader accepts is byte-for-byte the encoding of what it
/// decodes to; in particular the decoded entry fits the format again.
pub proof fn lemma_decode_is_encoding(b: Seq<u8>, op: OpType, e: EntryModel, n: int)
    requires
        spec_decode_record(b) == Some(((op, e), n)),
    ensures
        record_encodable(e),
        n == spec_record_len(e),
        b.take(n) == spec_record_bytes(op, e),
{
    lemma_auto_spec_u16_to_from_le_bytes();
    lemma_auto_spec_u32_to_from_le_bytes();
    lemma_auto_spec_u64_to_from_le_bytes();
    let dlen = spec_u16_from_le_bytes(b.subrange(4, 6)) as int;
    let data = b.subrange(7, 7 + dlen);
    let klen = spec_u16_from_le_bytes(data.subrange(8, 10)) as int;
    let vlen = spec_u32_from_le_bytes(data.subrange(10 + klen, 14 + klen)) as int;
    assert(e.key == data.subrange(10, 10 + klen));
    assert(e.value == data.subrange(14 + klen, dlen));
    assert(e.key.len() == klen);
    assert(e.value.len() == vlen);
    assert(record_encodable(e));
    assert(n == 7 + dlen);
    // Reassemble the pieces: each length-prefixed field of the encoding is
    // the corresponding subrange of `b`.
    assert(spec_u64_to_le_bytes(e.timestamp) =~= data.subrange(0, 8));
    assert(spec_u16_to_le_bytes(e.key.len() as u16) =~= data.subrange(8, 10));
    assert(spec_u32_to_le_bytes(e.value.len() as u32) =~= data.subrange(10 + klen, 14 + klen));
    assert(spec_record_payload(e) =~= data);
    assert(spec_u16_to_le_bytes(spec_payload_len(e) as u16) =~= b.subrange(4, 6));
    assert(seq![spec_op_code(op)] =~= b.subrange(6, 7));
    assert(spec_record_body(op, e) =~= b.subrange(4, 7 + dlen));
    assert(spec_u32_to_le_bytes(crc32_of(spec_record_body(op, e))) =~= b.subrange(0, 4));
    assert(b.take(n) =~= spec_record_bytes(op, e));
}

/// Decode a whole segment, stopping at a torn tail or at the first record
/// the format or the checksum rejects.  Besides the decoded records the
/// result carries how many bytes parsed — always the exact encoding of the
/// records — and whether the whole buffer was consumed cleanly.
pub fn parse_segment_prefix(buf: &Vec<u8>) -> (r: (Vec<(OpType, Entry)>, usize, bool))
    ensures
        abs_records(r.0@) == spec_parse_segment(buf@),
        all_encodable(abs_records(r.0@)),
        r.1 <= buf@.len(),
        buf@.take(r.1 as int) == spec_segment_bytes(spec_parse_segment(buf@)),
        r.2 == spec_parse_clean(buf@),
{
    let mut out: Vec<(OpType, Entry)> = Vec::new();
    let mut pos: usize = 0;
    proof {
        assert(buf@.skip(0) =~= buf@);
        assert(abs_records(Seq::<(OpType, Entry)>::empty()) + spec_parse_segment(buf@)
            =~= spec_parse_segment(buf@));
        assert(buf@.take(0) =~= spec_segment_bytes(abs_records(out@)));
    }
    loop
        invariant
            pos <= buf@.len(),
            spec_parse_segment(buf@) == abs_records(out@) + spec_parse_segment(
                buf@.skip(pos as int),
            ),
            spec_parse_clean(buf@) == spec_parse_clean(buf@.skip(pos as int)),
            buf@.take(pos as int) == spec_segment_bytes(abs_records(out@)),
            all_encodable(abs_records(out@)),
        decreases buf@.len() - pos,
    {
        match decode_record(buf, pos) {
            Ok(Some((oe, next))) => {
                proof {
                    let s = buf@.skip(pos as int);
                    assert(s.skip(next - pos as int) =~= buf@.skip(next as int));
                    assert(abs_records(out@.push((oe.0, oe.1))) =~= abs_records(out@).push(
                        (oe.0, oe.1@),
                    ));
                    assert(abs_records(out@).push((oe.0, oe.1@)) + spec_parse_segment(
                        buf@.skip(next as int),
                    ) =~= abs_records(out@) + (seq![(oe.0, oe.1@)] + spec_parse_segment(
                        buf@.skip(next as int),
                    )));
                    lemma_decode_is_encoding(s, oe.0, oe.1@, next - pos as int);
                    assert(s.take(next - pos as int) =~= buf@.subrange(pos as int, next as int));
                    lemma_segment_bytes_concat(abs_records(out@), seq![(oe.0, oe.1@)]);
                    assert(spec_segment_bytes(seq![(oe.0, oe.1@)].skip(1)) =~= Seq::<u8>::empty());
                    assert(spec_segment_bytes(seq![(oe.0, oe.1@)]) =~= spec_record_bytes(
                        oe.0,
                        oe.1@,
                    ));
                    assert(abs_records(out@) + seq![(oe.0, oe.1@)] =~= abs_records(out@).push(
                        (oe.0, oe.1@),
                    ));
                    assert(buf@.take(next as int) =~= buf@.take(pos as int) + buf@.subrange(
                        pos as int,
                        next as int,
                    ));
                    assert(buf@.take(next as int) =~= spec_segment_bytes(
                        abs_records(out@.push((oe.0, oe.1))),
                    ));
                }
                out.push(oe);
                pos = next;
            },
            Ok(None) => {
                proof {
                    assert(abs_records(out@) + spec_parse_segment(buf@.skip(pos as int))
                        =~= abs_records(out@));
                }
                let clean = pos == buf.len();
                return (out, pos, clean);
            },
            Err(_) => {
                proof {
                    assert(abs_records(out@) + spec_parse_segment(buf@.skip(pos as int))
                        =~= abs_records(out@));
                }
                return (out, pos, false);
            },
        }
    }
}

/// Decode a whole segment; see [`parse_segment_prefix`].
pub fn parse_segment(buf: &Vec<u8>) -> (r: (Vec<(OpType, Entry)>, bool))
    ensures
        abs_records(r.0@) == spec_parse_segment(buf@),
        all_encodable(abs_records(r.0@)),
        r.1 == spec_parse_clean(buf@),
{
    let (records, _consumed, clean) = parse_segment_prefix(buf);
    (records, clean)
}

} // verus!
