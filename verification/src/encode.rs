//! Little-endian field encoders and the byte layout of MCAP records.

use vstd::prelude::*;
use vstd::bytes::*;
use crate::error::{Result, invalid, invalid_with};
use crate::format::{Opcode, str_bytes, spec_magic, mcap_magic};
use crate::kv::StringMap;

verus! {

/// Little-endian bytes of a `u16`.
pub open spec fn le16(x: u16) -> Seq<u8> {
    spec_u16_to_le_bytes(x)
}

/// Little-endian bytes of a `u32`.
pub open spec fn le32(x: u32) -> Seq<u8> {
    spec_u32_to_le_bytes(x)
}

/// Little-endian bytes of a `u64`.
pub open spec fn le64(x: u64) -> Seq<u8> {
    spec_u64_to_le_bytes(x)
}

/// A record header: opcode byte followed by the payload length.
pub open spec fn spec_record_header(opcode: u8, length: u64) -> Seq<u8> {
    seq![opcode] + le64(length)
}

/// A complete record: header followed by the payload.
pub open spec fn spec_record(opcode: u8, payload: Seq<u8>) -> Seq<u8> {
    spec_record_header(opcode, payload.len() as u64) + payload
}

/// A byte string preceded by its `u32` length.
pub open spec fn spec_len_prefixed(b: Seq<u8>) -> Seq<u8> {
    le32(b.len() as u32) + b
}

/// A string encoded as length-prefixed UTF-8.
pub open spec fn spec_str(s: Seq<char>) -> Seq<u8> {
    spec_len_prefixed(str_bytes(s))
}

/// The entries of a string map, each key and value length-prefixed, in order.
pub open spec fn spec_map_body(e: Seq<(Seq<char>, Seq<char>)>) -> Seq<u8>
    decreases e.len(),
{
    if e.len() == 0 {
        Seq::empty()
    } else {
        spec_map_body(e.drop_last()) + spec_str(e.last().0) + spec_str(e.last().1)
    }
}

/// A string map as it appears on the wire: its body prefixed by the body length.
pub open spec fn spec_map(e: Seq<(Seq<char>, Seq<char>)>) -> Seq<u8> {
    spec_len_prefixed(spec_map_body(e))
}

/// A string fits a `u32`-length-prefixed field.
pub open spec fn str_fits(s: Seq<char>) -> bool {
    str_bytes(s).len() <= u32::MAX
}

/// Every key and value of a map fits its field, and so does the whole body.
pub open spec fn map_fits(e: Seq<(Seq<char>, Seq<char>)>) -> bool {
    &&& forall|i: int| 0 <= i < e.len() ==> str_fits(#[trigger] e[i].0) && str_fits(e[i].1)
    &&& spec_map_body(e).len() <= u32::MAX
}

/// A map with an entry that does not fit its field does not fit as a whole.
proof fn lemma_map_entry_too_long(e: Seq<(Seq<char>, Seq<char>)>, i: int)
    requires
        0 <= i < e.len(),
        !(str_fits(e[i].0) && str_fits(e[i].1)),
    ensures
        !map_fits(e),
{
}

/// Append the little-endian bytes of `value`.
pub fn push_le_u16(out: &mut Vec<u8>, value: u16)
    ensures
        final(out)@ == old(out)@ + le16(value),
{
    let b = u16_to_le_bytes(value);
    out.extend_from_slice(b.as_slice());
}

/// Append the little-endian bytes of `value`.
pub fn push_le_u32(out: &mut Vec<u8>, value: u32)
    ensures
        final(out)@ == old(out)@ + le32(value),
{
    let b = u32_to_le_bytes(value);
    out.extend_from_slice(b.as_slice());
}

/// Append the little-endian bytes of `value`.
pub fn push_le_u64(out: &mut Vec<u8>, value: u64)
    ensures
        final(out)@ == old(out)@ + le64(value),
{
    let b = u64_to_le_bytes(value);
    out.extend_from_slice(b.as_slice());
}

/// Append a record header (opcode and payload length).
pub fn push_record_header(out: &mut Vec<u8>, opcode: Opcode, length: u64)
    ensures
        final(out)@ == old(out)@ + spec_record_header(opcode.byte(), length),
{
    let ghost start = out@;
    out.push(opcode.as_u8());
    push_le_u64(out, length);
    assert(out@ =~= start + spec_record_header(opcode.byte(), length));
}

/// Append `bytes` preceded by their `u32` length; fails when the length does
/// not fit a `u32`, leaving `out` unchanged.
pub fn push_len_prefixed_bytes(out: &mut Vec<u8>, bytes: &[u8]) -> (r: Result<()>)
    ensures
        match r {
            Ok(()) => bytes@.len() <= u32::MAX && final(out)@ == old(out)@ + spec_len_prefixed(bytes@),
            Err(e) => invalid_with(e, "length exceeds u32"@) && bytes@.len() > u32::MAX && final(out)@ == old(out)@,
        },
{
    if bytes.len() > 0xffff_ffffusize {
        return Err(invalid("length exceeds u32"));
    }
    let ghost start = out@;
    push_le_u32(out, bytes.len() as u32);
    out.extend_from_slice(bytes);
    assert(out@ =~= start + spec_len_prefixed(bytes@));
    Ok(())
}

/// Append a string as length-prefixed UTF-8.
pub fn push_len_prefixed_str(out: &mut Vec<u8>, value: &String) -> (r: Result<()>)
    ensures
        match r {
            Ok(()) => str_fits(value@) && final(out)@ == old(out)@ + spec_str(value@),
            Err(e) => invalid_with(e, "length exceeds u32"@) && !str_fits(value@) && final(out)@ == old(out)@,
        },
{
    push_len_prefixed_bytes(out, value.as_str().as_bytes())
}

/// Append a string map: its encoded entries preceded by their total length.
pub fn push_metadata_map(out: &mut Vec<u8>, metadata: &StringMap) -> (r: Result<()>)
    ensures
        match r {
            Ok(()) => map_fits(metadata@) && final(out)@ == old(out)@ + spec_map(metadata@),
            Err(e) => e is InvalidRecord && !map_fits(metadata@) && final(out)@ == old(out)@,
        },
{
    let entries = metadata.entries();
    let ghost e = metadata@;
    let mut body: Vec<u8> = Vec::new();
    let mut i: usize = 0;
    assert(e.take(0) =~= Seq::<(Seq<char>, Seq<char>)>::empty());
    while i < entries.len()
        invariant
            i <= entries.len(),
            out@ == old(out)@,
            e == metadata@,
            crate::kv::pairs_view(entries@) == e,
            body@ == spec_map_body(e.take(i as int)),
            forall|j: int| 0 <= j < i ==> str_fits(#[trigger] e[j].0),
            forall|j: int| 0 <= j < i ==> str_fits(#[trigger] e[j].1),
        decreases entries.len() - i,
    {
        let ghost before = body@;
        assert(e[i as int] == (entries@[i as int].0@, entries@[i as int].1@));
        let r1 = push_len_prefixed_str(&mut body, &entries[i].0);
        if r1.is_err() {
            proof { lemma_map_entry_too_long(e, i as int); }
            return Err(invalid("metadata key length exceeds u32"));
        }
        let r2 = push_len_prefixed_str(&mut body, &entries[i].1);
        if r2.is_err() {
            proof { lemma_map_entry_too_long(e, i as int); }
            return Err(invalid("metadata value length exceeds u32"));
        }
        assert(e.take(i + 1).drop_last() =~= e.take(i as int));
        assert(e.take(i + 1).last() == e[i as int]);
        i += 1;
    }
    assert(e.take(i as int) =~= e);
    let r = push_len_prefixed_bytes(out, body.as_slice());
    if r.is_err() {
        return Err(invalid("metadata map length exceeds u32"));
    }
    Ok(())
}

/// Append the MCAP magic bytes.
pub fn write_magic(out: &mut Vec<u8>)
    ensures
        final(out)@ == old(out)@ + spec_magic(),
{
    let m = mcap_magic();
    out.extend_from_slice(m.as_slice());
}

/// Append a complete record (header and payload).
pub fn write_record(out: &mut Vec<u8>, opcode: Opcode, payload: &[u8])
    ensures
        final(out)@ == old(out)@ + spec_record(opcode.byte(), payload@),
{
    let ghost start = out@;
    push_record_header(out, opcode, payload.len() as u64);
    out.extend_from_slice(payload);
    assert(out@ =~= start + spec_record(opcode.byte(), payload@));
}

/// Append a record header announcing a payload of `length` bytes.
pub fn write_record_header(out: &mut Vec<u8>, opcode: Opcode, length: u64)
    ensures
        final(out)@ == old(out)@ + spec_record_header(opcode.byte(), length),
{
    push_record_header(out, opcode, length);
}

/// The Footer record payload.
pub open spec fn spec_footer(summary_start: u64, summary_offset_start: u64, summary_crc: u32) -> Seq<u8> {
    le64(summary_start) + le64(summary_offset_start) + le32(summary_crc)
}

/// Encode the Footer record payload.
pub fn encode_footer(summary_start: u64, summary_offset_start: u64, summary_crc: u32) -> (r: Vec<u8>)
    ensures
        r@ == spec_footer(summary_start, summary_offset_start, summary_crc),
{
    let mut buf: Vec<u8> = Vec::new();
    push_le_u64(&mut buf, summary_start);
    push_le_u64(&mut buf, summary_offset_start);
    push_le_u32(&mut buf, summary_crc);
    assert(buf@ =~= spec_footer(summary_start, summary_offset_start, summary_crc));
    buf
}

/// Encode the DataEnd record payload.
pub fn encode_data_end(data_section_crc: u32) -> (r: Vec<u8>)
    ensures
        r@ == le32(data_section_crc),
{
    let mut buf: Vec<u8> = Vec::new();
    push_le_u32(&mut buf, data_section_crc);
    assert(buf@ =~= le32(data_section_crc));
    buf
}

} // verus!
