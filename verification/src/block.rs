//! The SSTable data-block format.
//!
//! A block is a dense run of records `key_len(u16) | key | ts(u64) |
//! value_len(u32) | value`, packed in key order, all integers
//! little-endian.  Unlike WAL records, block records carry no checksum and
//! no operation tag, and a value may use the full 32-bit length.

use vstd::prelude::*;
use vstd::bytes::*;
use vstd::slice::*;
use vstd::string::StringExecFns;
use crate::error::StorageError;
use crate::memtable::kv_models;

verus! {

/// One encoded block record.
pub open spec fn spec_brecord_bytes(e: (Seq<u8>, Seq<u8>, u64)) -> Seq<u8> {
    spec_u16_to_le_bytes(e.0.len() as u16) + e.0 + spec_u64_to_le_bytes(e.2)
        + spec_u32_to_le_bytes(e.1.len() as u32) + e.1
}

/// Whether a record fits the block format.
pub open spec fn brecord_encodable(e: (Seq<u8>, Seq<u8>, u64)) -> bool {
    &&& e.0.len() <= 0xFFFF
    &&& e.1.len() <= 0xFFFF_FFFF
}

/// Length in bytes of the encoded record.
pub open spec fn spec_brecord_len(e: (Seq<u8>, Seq<u8>, u64)) -> int {
    14 + e.0.len() as int + e.1.len() as int
}

/// What the block reader makes of the front of a byte sequence.
pub open spec fn spec_bdecode(b: Seq<u8>) -> Option<((Seq<u8>, Seq<u8>, u64), int)> {
    if b.len() < 2 {
        None
    } else {
        let klen = spec_u16_from_le_bytes(b.subrange(0, 2)) as int;
        if b.len() < 14 + klen {
            None
        } else {
            let key = b.subrange(2, 2 + klen);
            let ts = spec_u64_from_le_bytes(b.subrange(2 + klen, 10 + klen));
            let vlen = spec_u32_from_le_bytes(b.subrange(10 + klen, 14 + klen)) as int;
            if b.len() < 14 + klen + vlen {
                None
            } else {
                let value = b.subrange(14 + klen, 14 + klen + vlen);
                Some(((key, value, ts), 14 + klen + vlen))
            }
        }
    }
}

/// The bytes of a whole block: its records, in order.
pub open spec fn spec_block_bytes(es: Seq<(Seq<u8>, Seq<u8>, u64)>) -> Seq<u8>
    decreases es.len(),
{
    if es.len() == 0 {
        Seq::empty()
    } else {
        spec_brecord_bytes(es[0]) + spec_block_bytes(es.skip(1))
    }
}

/// Every record of the sequence fits the block format.
pub open spec fn all_brecords_encodable(es: Seq<(Seq<u8>, Seq<u8>, u64)>) -> bool {
    forall|i: int| 0 <= i < es.len() ==> brecord_encodable(#[trigger] es[i])
}

/// What a reader makes of a block: records decoded from the front until the
/// bytes run out or stop parsing.
pub open spec fn spec_block_parse(b: Seq<u8>) -> Seq<(Seq<u8>, Seq<u8>, u64)>
    decreases b.len(),
{
    match spec_bdecode(b) {
        Some((e, n)) => if 14 <= n <= b.len() {
            seq![e] + spec_block_parse(b.skip(n))
        } else {
            Seq::empty()
        },
        None => Seq::empty(),
    }
}

/// Whether a reader consumes the block completely.
pub open spec fn spec_block_clean(b: Seq<u8>) -> bool
    decreases b.len(),
{
    if b.len() == 0 {
        true
    } else {
        match spec_bdecode(b) {
            Some((e, n)) => if 14 <= n <= b.len() {
                spec_block_clean(b.skip(n))
            } else {
                false
            },
            None => false,
        }
    }
}

/// Concatenating record rows concatenates their block bytes.
pub proof fn lemma_block_bytes_concat(
    a: Seq<(Seq<u8>, Seq<u8>, u64)>,
    b: Seq<(Seq<u8>, Seq<u8>, u64)>,
)
    ensures
        spec_block_bytes(a + b) == spec_block_bytes(a) + spec_block_bytes(b),
    decreases a.len(),
{
    if a.len() == 0 {
        assert(a + b =~= b);
        assert(spec_block_bytes(a) + spec_block_bytes(b) =~= spec_block_bytes(b));
    } else {
        assert((a + b).skip(1) =~= a.skip(1) + b);
        lemma_block_bytes_concat(a.skip(1), b);
        assert(spec_block_bytes(a + b) =~= spec_block_bytes(a) + spec_block_bytes(b));
    }
}

/// Decoding inverts encoding, whatever follows the record.
pub proof fn lemma_bdecode_encode(e: (Seq<u8>, Seq<u8>, u64), rest: Seq<u8>)
    requires
        brecord_encodable(e),
    ensures
        spec_bdecode(spec_brecord_bytes(e) + rest) == Some((e, spec_brecord_len(e))),
{
    lemma_auto_spec_u16_to_from_le_bytes();
    lemma_auto_spec_u32_to_from_le_bytes();
    lemma_auto_spec_u64_to_from_le_bytes();
    let b = spec_brecord_bytes(e) + rest;
    let klen = e.0.len() as int;
    let vlen = e.1.len() as int;
    assert(b.subrange(0, 2) =~= spec_u16_to_le_bytes(e.0.len() as u16));
    assert(b.subrange(2, 2 + klen) =~= e.0);
    assert(b.subrange(2 + klen, 10 + klen) =~= spec_u64_to_le_bytes(e.2));
    assert(b.subrange(10 + klen, 14 + klen) =~= spec_u32_to_le_bytes(e.1.len() as u32));
    assert(b.subrange(14 + klen, 14 + klen + vlen) =~= e.1);
    let decoded = spec_bdecode(b);
    assert(decoded matches Some((de, n)) && n == spec_brecord_len(e) && de.0 =~= e.0 && de.1
        =~= e.1 && de.2 == e.2);
}

/// A record the block reader accepts is byte-for-byte the encoding of what
/// it decodes to.
pub proof fn lemma_bdecode_is_encoding(b: Seq<u8>, e: (Seq<u8>, Seq<u8>, u64), n: int)
    requires
        spec_bdecode(b) == Some((e, n)),
    ensures
        brecord_encodable(e),
        n == spec_brecord_len(e),
        b.take(n) == spec_brecord_bytes(e),
{
    lemma_auto_spec_u16_to_from_le_bytes();
    lemma_auto_spec_u32_to_from_le_bytes();
    lemma_auto_spec_u64_to_from_le_bytes();
    let klen = spec_u16_from_le_bytes(b.subrange(0, 2)) as int;
    let vlen = spec_u32_from_le_bytes(b.subrange(10 + klen, 14 + klen)) as int;
    assert(e.0 == b.subrange(2, 2 + klen));
    assert(e.1 == b.subrange(14 + klen, 14 + klen + vlen));
    assert(e.0.len() == klen);
    assert(e.1.len() == vlen);
    assert(spec_u16_to_le_bytes(e.0.len() as u16) =~= b.subrange(0, 2));
    assert(spec_u64_to_le_bytes(e.2) =~= b.subrange(2 + klen, 10 + klen));
    assert(spec_u32_to_le_bytes(e.1.len() as u32) =~= b.subrange(10 + klen, 14 + klen));
    assert(b.take(n) =~= spec_brecord_bytes(e));
}

/// Bytes a block reader consumes cleanly are exactly the encoding of what
/// it decodes.
pub proof fn lemma_block_clean_is_encoding(b: Seq<u8>)
    requires
        spec_block_clean(b),
    ensures
        spec_block_bytes(spec_block_parse(b)) == b,
        all_brecords_encodable(spec_block_parse(b)),
    decreases b.len(),
{
    if b.len() == 0 {
        assert(spec_block_bytes(spec_block_parse(b)) =~= b);
    } else {
        let (e, n) = spec_bdecode(b)->Some_0;
        lemma_bdecode_is_encoding(b, e, n);
        lemma_block_clean_is_encoding(b.skip(n));
        let parsed = spec_block_parse(b);
        assert(parsed == seq![e] + spec_block_parse(b.skip(n)));
        assert(parsed.skip(1) =~= spec_block_parse(b.skip(n)));
        assert(parsed[0] == e);
        assert(spec_block_bytes(parsed) == spec_brecord_bytes(e) + spec_block_bytes(
            spec_block_parse(b.skip(n)),
        ));
        assert(spec_brecord_bytes(e) + b.skip(n) =~= b.take(n) + b.skip(n));
        assert(b.take(n) + b.skip(n) =~= b);
        assert(spec_block_bytes(parsed) =~= b);
    }
}

/// A block built from encodable records parses back to exactly those
/// records, and parses cleanly.
pub proof fn lemma_block_parse_bytes(es: Seq<(Seq<u8>, Seq<u8>, u64)>)
    requires
        all_brecords_encodable(es),
    ensures
        spec_block_parse(spec_block_bytes(es)) == es,
        spec_block_clean(spec_block_bytes(es)),
    decreases es.len(),
{
    if es.len() == 0 {
    } else {
        let e = es[0];
        let rest = spec_block_bytes(es.skip(1));
        lemma_bdecode_encode(e, rest);
        lemma_auto_spec_u16_to_from_le_bytes();
        lemma_auto_spec_u32_to_from_le_bytes();
        lemma_auto_spec_u64_to_from_le_bytes();
        let b = spec_brecord_bytes(e) + rest;
        assert(spec_block_bytes(es) == b);
        assert(spec_brecord_bytes(e).len() == spec_brecord_len(e));
        assert(b.skip(spec_brecord_len(e)) =~= rest);
        lemma_block_parse_bytes(es.skip(1));
        assert(spec_block_parse(b) =~= seq![e] + es.skip(1));
        assert(seq![e] + es.skip(1) =~= es);
    }
}

/// Append the encoding of one record to a block under construction.
/// Succeeds exactly when the record fits the format and the block stays
/// addressable.
pub fn append_brecord(block: &mut Vec<u8>, key: &Vec<u8>, value: &Vec<u8>, timestamp: u64) -> (r:
    Result<(), StorageError>)
    ensures
        r is Ok <==> brecord_encodable((key@, value@, timestamp)) && old(block)@.len() + 14
            + key@.len() + value@.len() <= usize::MAX,
        r matches Ok(_) ==> final(block)@ == old(block)@ + spec_brecord_bytes(
            (key@, value@, timestamp),
        ),
        r is Err ==> final(block)@ == old(block)@,
{
    if key.len() > 0xFFFF {
        return Err(StorageError::InvalidFormat(String::from_str("Key too long")));
    }
    if value.len() > 0xFFFF_FFFF {
        return Err(StorageError::InvalidFormat(String::from_str("Value too long")));
    }
    if block.len() > usize::MAX - 14 || key.len() > usize::MAX - 14 - block.len() || value.len()
        > usize::MAX - 14 - block.len() - key.len() {
        return Err(StorageError::InvalidFormat(String::from_str("Block too large")));
    }
    let mut klen_bytes = u16_to_le_bytes(key.len() as u16);
    block.append(&mut klen_bytes);
    block.extend_from_slice(key.as_slice());
    let mut ts_bytes = u64_to_le_bytes(timestamp);
    block.append(&mut ts_bytes);
    let mut vlen_bytes = u32_to_le_bytes(value.len() as u32);
    block.append(&mut vlen_bytes);
    block.extend_from_slice(value.as_slice());
    proof {
        assert(block@ =~= old(block)@ + spec_brecord_bytes((key@, value@, timestamp)));
    }
    Ok(())
}

/// Decode every record of a block, in order.  The second component reports
/// whether the whole block was consumed cleanly.
pub fn parse_block(buf: &Vec<u8>) -> (r: (Vec<(Vec<u8>, Vec<u8>, u64)>, bool))
    ensures
        kv_models(r.0@) == spec_block_parse(buf@),
        r.1 == spec_block_clean(buf@),
{
    let mut out: Vec<(Vec<u8>, Vec<u8>, u64)> = Vec::new();
    let mut pos: usize = 0;
    proof {
        assert(buf@.skip(0) =~= buf@);
        assert(kv_models(Seq::<(Vec<u8>, Vec<u8>, u64)>::empty()) + spec_block_parse(buf@)
            =~= spec_block_parse(buf@));
    }
    loop
        invariant
            pos <= buf@.len(),
            spec_block_parse(buf@) == kv_models(out@) + spec_block_parse(buf@.skip(pos as int)),
            spec_block_clean(buf@) == spec_block_clean(buf@.skip(pos as int)),
        decreases buf@.len() - pos,
    {
        let remaining = buf.len() - pos;
        if remaining < 2 {
            proof {
                assert(kv_models(out@) + spec_block_parse(buf@.skip(pos as int)) =~= kv_models(
                    out@,
                ));
            }
            return (out, remaining == 0);
        }
        let klen = u16_from_le_bytes(slice_subrange(buf.as_slice(), pos, pos + 2)) as usize;
        proof {
            let s = buf@.skip(pos as int);
            assert(s.subrange(0, 2) =~= buf@.subrange(pos as int, pos as int + 2));
        }
        if remaining < 14 || klen > remaining - 14 {
            proof {
                assert(kv_models(out@) + spec_block_parse(buf@.skip(pos as int)) =~= kv_models(
                    out@,
                ));
            }
            return (out, false);
        }
        let key = slice_to_vec(slice_subrange(buf.as_slice(), pos + 2, pos + 2 + klen));
        let ts = u64_from_le_bytes(
            slice_subrange(buf.as_slice(), pos + 2 + klen, pos + 10 + klen),
        );
        let vlen = u32_from_le_bytes(
            slice_subrange(buf.as_slice(), pos + 10 + klen, pos + 14 + klen),
        ) as usize;
        proof {
            let s = buf@.skip(pos as int);
            assert(s.subrange(2, 2 + klen as int) =~= buf@.subrange(
                pos as int + 2,
                pos as int + 2 + klen as int,
            ));
            assert(s.subrange(2 + klen as int, 10 + klen as int) =~= buf@.subrange(
                pos as int + 2 + klen as int,
                pos as int + 10 + klen as int,
            ));
            assert(s.subrange(10 + klen as int, 14 + klen as int) =~= buf@.subrange(
                pos as int + 10 + klen as int,
                pos as int + 14 + klen as int,
            ));
        }
        if vlen > remaining - 14 - klen {
            proof {
                assert(kv_models(out@) + spec_block_parse(buf@.skip(pos as int)) =~= kv_models(
                    out@,
                ));
            }
            return (out, false);
        }
        let value = slice_to_vec(
            slice_subrange(buf.as_slice(), pos + 14 + klen, pos + 14 + klen + vlen),
        );
        let next = pos + 14 + klen + vlen;
        proof {
            let s = buf@.skip(pos as int);
            assert(s.subrange(14 + klen as int, 14 + klen as int + vlen as int) =~= buf@.subrange(
                pos as int + 14 + klen as int,
                pos as int + 14 + klen as int + vlen as int,
            ));
            assert(s.skip(next - pos as int) =~= buf@.skip(next as int));
            assert(kv_models(out@.push((key, value, ts))) =~= kv_models(out@).push(
                (key@, value@, ts),
            ));
            assert(kv_models(out@).push((key@, value@, ts)) + spec_block_parse(
                buf@.skip(next as int),
            ) =~= kv_models(out@) + (seq![(key@, value@, ts)] + spec_block_parse(
                buf@.skip(next as int),
            )));
        }
        out.push((key, value, ts));
        pos = next;
    }
}

} // verus!
