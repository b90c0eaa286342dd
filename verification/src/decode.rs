//! Decoders for the MCAP wire format, and the laws that tie them to the encoders.

use vstd::prelude::*;
use vstd::bytes::*;
use vstd::utf8::*;
use crate::encode::{le16, le32, le64, spec_record_header, spec_footer, spec_str, spec_len_prefixed, spec_map, spec_map_body, str_fits, map_fits};
use crate::error::{Result, invalid};
use crate::format::{Opcode, str_bytes, RECORD_HEADER_SIZE, MESSAGE_HEADER_SIZE};
use crate::kv::{StringMap, spec_insert, distinct_keys};
use crate::types::{Footer, Header, Schema, Channel, MessageHeader, RawMessage, Payload, Chunk, MessageIndex, MessageIndexEntry, Metadata, Attachment};

verus! {

// ---------------------------------------------------------------------------
// Fixed-width fields
// ---------------------------------------------------------------------------

/// The `u16` stored little-endian at `pos`.
pub open spec fn u16_at(s: Seq<u8>, pos: int) -> u16 {
    spec_u16_from_le_bytes(s.subrange(pos, pos + 2))
}

/// The `u32` stored little-endian at `pos`.
pub open spec fn u32_at(s: Seq<u8>, pos: int) -> u32 {
    spec_u32_from_le_bytes(s.subrange(pos, pos + 4))
}

/// The `u64` stored little-endian at `pos`.
pub open spec fn u64_at(s: Seq<u8>, pos: int) -> u64 {
    spec_u64_from_le_bytes(s.subrange(pos, pos + 8))
}

/// Reading a field back where it was written gives the written value.
pub proof fn lemma_le_fields_round_trip(a: Seq<u8>, b: Seq<u8>, x16: u16, x32: u32, x64: u64)
    ensures
        u16_at(a + le16(x16) + b, a.len() as int) == x16,
        u32_at(a + le32(x32) + b, a.len() as int) == x32,
        u64_at(a + le64(x64) + b, a.len() as int) == x64,
        le16(x16).len() == 2,
        le32(x32).len() == 4,
        le64(x64).len() == 8,
{
    lemma_auto_spec_u16_to_from_le_bytes();
    lemma_auto_spec_u32_to_from_le_bytes();
    lemma_auto_spec_u64_to_from_le_bytes();
    let n = a.len() as int;
    assert((a + le16(x16) + b).subrange(n, n + 2) =~= le16(x16));
    assert((a + le32(x32) + b).subrange(n, n + 4) =~= le32(x32));
    assert((a + le64(x64) + b).subrange(n, n + 8) =~= le64(x64));
}

/// Read a little-endian `u16` at `pos`.
pub fn read_u16(buf: &[u8], pos: usize) -> (r: Option<u16>)
    ensures
        r is Some <==> pos + 2 <= buf@.len(),
        r matches Some(v) ==> v == u16_at(buf@, pos as int),
{
    if buf.len() < 2 || pos > buf.len() - 2 {
        return None;
    }
    Some(u16_from_le_bytes(&buf[pos..pos + 2]))
}

/// Read a little-endian `u32` at `pos`.
pub fn read_u32(buf: &[u8], pos: usize) -> (r: Option<u32>)
    ensures
        r is Some <==> pos + 4 <= buf@.len(),
        r matches Some(v) ==> v == u32_at(buf@, pos as int),
{
    if buf.len() < 4 || pos > buf.len() - 4 {
        return None;
    }
    Some(u32_from_le_bytes(&buf[pos..pos + 4]))
}

/// Read a little-endian `u64` at `pos`.
pub fn read_u64(buf: &[u8], pos: usize) -> (r: Option<u64>)
    ensures
        r is Some <==> pos + 8 <= buf@.len(),
        r matches Some(v) ==> v == u64_at(buf@, pos as int),
{
    if buf.len() < 8 || pos > buf.len() - 8 {
        return None;
    }
    Some(u64_from_le_bytes(&buf[pos..pos + 8]))
}

// ---------------------------------------------------------------------------
// Record headers
// ---------------------------------------------------------------------------

/// The opcode byte and payload length of the record header at the start of `s`.
pub open spec fn spec_record_header_of(s: Seq<u8>) -> Option<(u8, u64)> {
    if s.len() >= RECORD_HEADER_SIZE {
        Some((s[0], u64_at(s, 1)))
    } else {
        None
    }
}

/// Decode the opcode byte and payload length at the start of `buf`.
pub fn record_header(buf: &[u8]) -> (r: Option<(u8, u64)>)
    ensures
        r == spec_record_header_of(buf@),
{
    if buf.len() < RECORD_HEADER_SIZE {
        return None;
    }
    let len = read_u64(buf, 1).unwrap();
    Some((buf[0], len))
}

/// Decode the record header at the start of `buf`; fails when the buffer is
/// shorter than a header or the opcode byte names no known record type.
pub fn decode_record_header(buf: &[u8]) -> (r: Result<(Opcode, u64)>)
    ensures
        match r {
            Ok((op, len)) => spec_record_header_of(buf@) == Some((op.byte(), len)),
            Err(e) => e is InvalidRecord && (spec_record_header_of(buf@) is None
                || Opcode::spec_from_byte(spec_record_header_of(buf@)->Some_0.0) is None),
        },
{
    match record_header(buf) {
        None => Err(invalid("record header is truncated")),
        Some((b, len)) => match Opcode::from_repr(b) {
            Some(op) => Ok((op, len)),
            None => Err(invalid("unknown record opcode")),
        },
    }
}

/// A record header decodes to the opcode and length it was written with.
pub proof fn lemma_record_header_round_trip(opcode: Opcode, length: u64, rest: Seq<u8>)
    ensures
        spec_record_header_of(spec_record_header(opcode.byte(), length) + rest)
            == Some((opcode.byte(), length)),
        Opcode::spec_from_byte(opcode.byte()) == Some(opcode),
{
    let s = spec_record_header(opcode.byte(), length) + rest;
    lemma_le_fields_round_trip(seq![opcode.byte()], rest, 0, 0, length);
    assert(s =~= seq![opcode.byte()] + le64(length) + rest);
}

// ---------------------------------------------------------------------------
// Footer and DataEnd
// ---------------------------------------------------------------------------

/// The footer fields stored in a Footer payload.
pub open spec fn spec_parse_footer(s: Seq<u8>) -> Option<(u64, u64, u32)> {
    if s.len() >= 20 {
        Some((u64_at(s, 0), u64_at(s, 8), u32_at(s, 16)))
    } else {
        None
    }
}

/// Decode a Footer record payload.
pub fn parse_footer_record(payload: &[u8]) -> (r: Result<Footer>)
    ensures
        match r {
            Ok(f) => spec_parse_footer(payload@) == Some((f.summary_start, f.summary_offset_start, f.summary_crc)),
            Err(e) => e is InvalidRecord && spec_parse_footer(payload@) is None,
        },
{
    if payload.len() < 20 {
        return Err(invalid("footer record is truncated"));
    }
    let summary_start = read_u64(payload, 0).unwrap();
    let summary_offset_start = read_u64(payload, 8).unwrap();
    let summary_crc = read_u32(payload, 16).unwrap();
    Ok(Footer { summary_start, summary_offset_start, summary_crc })
}

/// A Footer payload decodes to the fields it was encoded from.
pub proof fn lemma_footer_round_trip(a: u64, b: u64, c: u32)
    ensures
        spec_parse_footer(spec_footer(a, b, c)) == Some((a, b, c)),
{
    let s = spec_footer(a, b, c);
    lemma_le_fields_round_trip(Seq::empty(), le64(b) + le32(c), 0, 0, a);
    lemma_le_fields_round_trip(le64(a), le32(c), 0, 0, b);
    lemma_le_fields_round_trip(le64(a) + le64(b), Seq::empty(), 0, c, 0);
    assert(s =~= Seq::<u8>::empty() + le64(a) + (le64(b) + le32(c)));
    assert(s =~= le64(a) + le64(b) + le32(c));
    assert(s =~= (le64(a) + le64(b)) + le32(c) + Seq::<u8>::empty());
}

/// Decode a DataEnd record payload (the data section CRC).
pub fn parse_data_end_record(payload: &[u8]) -> (r: Result<u32>)
    ensures
        match r {
            Ok(crc) => payload@.len() >= 4 && crc == u32_at(payload@, 0),
            Err(e) => e is InvalidRecord && payload@.len() < 4,
        },
{
    match read_u32(payload, 0) {
        Some(v) => Ok(v),
        None => Err(invalid("data end record is truncated")),
    }
}

/// A DataEnd payload decodes to the CRC it was encoded from.
pub proof fn lemma_data_end_round_trip(crc: u32)
    ensures
        le32(crc).len() >= 4,
        u32_at(le32(crc), 0) == crc,
{
    lemma_le_fields_round_trip(Seq::empty(), Seq::empty(), 0, crc, 0);
    assert(Seq::<u8>::empty() + le32(crc) + Seq::<u8>::empty() =~= le32(crc));
}


// ---------------------------------------------------------------------------
// Length-prefixed bytes, strings and string maps
// ---------------------------------------------------------------------------

/// The length-prefixed byte string at `pos`, and the position after it.
pub open spec fn spec_bytes_at(s: Seq<u8>, pos: int) -> Option<(Seq<u8>, int)> {
    if 0 <= pos && pos + 4 <= s.len() && pos + 4 + u32_at(s, pos) <= s.len() {
        Some((s.subrange(pos + 4, pos + 4 + u32_at(s, pos)), pos + 4 + u32_at(s, pos)))
    } else {
        None
    }
}

/// The length-prefixed UTF-8 string at `pos`, and the position after it.
pub open spec fn spec_str_at(s: Seq<u8>, pos: int) -> Option<(Seq<char>, int)> {
    match spec_bytes_at(s, pos) {
        Some((b, p)) => if valid_utf8(b) {
            Some((decode_utf8(b), p))
        } else {
            None
        },
        None => None,
    }
}

/// The key/value pairs encoded in a map body `b`, starting at `pos`.
pub open spec fn spec_parse_pairs(b: Seq<u8>, pos: int) -> Option<Seq<(Seq<char>, Seq<char>)>>
    decreases b.len() - pos,
{
    if pos == b.len() {
        Some(Seq::empty())
    } else if pos < 0 || pos > b.len() {
        None
    } else {
        match spec_str_at(b, pos) {
            Some((k, p1)) => match spec_str_at(b, p1) {
                Some((v, p2)) => if pos < p2 <= b.len() {
                    match spec_parse_pairs(b, p2) {
                        Some(rest) => Some(seq![(k, v)] + rest),
                        None => None,
                    }
                } else {
                    None
                },
                None => None,
            },
            None => None,
        }
    }
}

/// The map that results from inserting `p`'s pairs one after another.
pub open spec fn fold_insert(p: Seq<(Seq<char>, Seq<char>)>) -> Seq<(Seq<char>, Seq<char>)>
    decreases p.len(),
{
    if p.len() == 0 {
        Seq::empty()
    } else {
        spec_insert(fold_insert(p.drop_last()), p.last().0, p.last().1)
    }
}

/// The string map at `pos` (later duplicates of a key replace earlier ones),
/// and the position after it.
pub open spec fn spec_map_at(s: Seq<u8>, pos: int) -> Option<(Seq<(Seq<char>, Seq<char>)>, int)> {
    match spec_bytes_at(s, pos) {
        Some((b, p)) => match spec_parse_pairs(b, 0) {
            Some(pairs) => Some((fold_insert(pairs), p)),
            None => None,
        },
        None => None,
    }
}

/// Length-prefixed bytes read back where they were written.
pub proof fn lemma_bytes_round_trip(a: Seq<u8>, x: Seq<u8>, rest: Seq<u8>)
    requires
        x.len() <= u32::MAX,
    ensures
        spec_bytes_at(a + spec_len_prefixed(x) + rest, a.len() as int)
            == Some((x, (a.len() + 4 + x.len()) as int)),
        spec_len_prefixed(x).len() == 4 + x.len(),
{
    let s = a + spec_len_prefixed(x) + rest;
    let n = a.len() as int;
    lemma_le_fields_round_trip(a, x + rest, 0, x.len() as u32, 0);
    assert(s =~= a + le32(x.len() as u32) + (x + rest));
    assert(s.subrange(n + 4, n + 4 + x.len()) =~= x);
}

/// A length-prefixed string read back where it was written.
pub proof fn lemma_str_round_trip(a: Seq<u8>, x: Seq<char>, rest: Seq<u8>)
    requires
        str_fits(x),
    ensures
        spec_str_at(a + spec_str(x) + rest, a.len() as int)
            == Some((x, (a.len() + spec_str(x).len()) as int)),
        spec_str(x).len() == 4 + str_bytes(x).len(),
{
    lemma_bytes_round_trip(a, str_bytes(x), rest);
    encode_utf8_valid_utf8(x);
    encode_utf8_decode_utf8(x);
}

/// A map body, read from the front: the first entry, then the others.
pub proof fn lemma_map_body_front(e: Seq<(Seq<char>, Seq<char>)>)
    requires
        e.len() > 0,
    ensures
        spec_map_body(e) == spec_str(e[0].0) + spec_str(e[0].1) + spec_map_body(e.drop_first()),
    decreases e.len(),
{
    if e.len() == 1 {
        assert(e.drop_last() =~= Seq::<(Seq<char>, Seq<char>)>::empty());
        assert(e.drop_first() =~= Seq::<(Seq<char>, Seq<char>)>::empty());
        assert(spec_map_body(e) =~= spec_str(e[0].0) + spec_str(e[0].1) + spec_map_body(e.drop_first()));
    } else {
        let d = e.drop_last();
        lemma_map_body_front(d);
        assert(d.drop_first() =~= e.drop_first().drop_last());
        assert(e.drop_first().last() == e.last());
        assert(d[0] == e[0]);
        assert(spec_map_body(e) =~= spec_str(e[0].0) + spec_str(e[0].1) + spec_map_body(e.drop_first()));
    }
}

/// Every entry of a fitting map fits, and so do the maps of its tails.
proof fn lemma_map_fits_tail(e: Seq<(Seq<char>, Seq<char>)>)
    requires
        e.len() > 0,
        forall|i: int| 0 <= i < e.len() ==> str_fits(#[trigger] e[i].0) && str_fits(e[i].1),
    ensures
        str_fits(e[0].0),
        str_fits(e[0].1),
        forall|i: int| 0 <= i < e.drop_first().len()
            ==> str_fits(#[trigger] e.drop_first()[i].0) && str_fits(e.drop_first()[i].1),
{
    assert(str_fits(e[0].0) && str_fits(e[0].1));
    assert forall|i: int| 0 <= i < e.drop_first().len()
        implies str_fits(#[trigger] e.drop_first()[i].0) && str_fits(e.drop_first()[i].1) by {
        assert(e.drop_first()[i] == e[i + 1]);
    }
}

/// The pairs of an encoded map body are read back in order.
pub proof fn lemma_pairs_round_trip(pre: Seq<u8>, e: Seq<(Seq<char>, Seq<char>)>)
    requires
        forall|i: int| 0 <= i < e.len() ==> str_fits(#[trigger] e[i].0) && str_fits(e[i].1),
    ensures
        spec_parse_pairs(pre + spec_map_body(e), pre.len() as int) == Some(e),
    decreases e.len(),
{
    let b = pre + spec_map_body(e);
    if e.len() == 0 {
        assert(b =~= pre);
        assert(e =~= Seq::<(Seq<char>, Seq<char>)>::empty());
    } else {
        lemma_map_fits_tail(e);
        lemma_map_body_front(e);
        let k = e[0].0;
        let v = e[0].1;
        let tail = spec_map_body(e.drop_first());
        lemma_str_round_trip(pre, k, spec_str(v) + tail);
        assert(b =~= pre + spec_str(k) + (spec_str(v) + tail));
        let p1 = pre.len() + spec_str(k).len();
        lemma_str_round_trip(pre + spec_str(k), v, tail);
        assert(b =~= (pre + spec_str(k)) + spec_str(v) + tail);
        let pre2 = pre + spec_str(k) + spec_str(v);
        lemma_pairs_round_trip(pre2, e.drop_first());
        assert(b =~= pre2 + tail);
        assert(seq![(k, v)] + e.drop_first() =~= e);
    }
}

/// Inserting pairs with distinct keys one by one rebuilds the same list.
pub proof fn lemma_fold_insert_distinct(p: Seq<(Seq<char>, Seq<char>)>)
    requires
        distinct_keys(p),
    ensures
        fold_insert(p) == p,
    decreases p.len(),
{
    if p.len() > 0 {
        let d = p.drop_last();
        assert(distinct_keys(d)) by {
            assert forall|i: int, j: int| 0 <= i < d.len() && 0 <= j < d.len() && i != j
                implies #[trigger] d[i].0 != #[trigger] d[j].0 by {
                assert(d[i] == p[i] && d[j] == p[j]);
            }
        }
        lemma_fold_insert_distinct(d);
        let last = p.last();
        assert(!(exists|i: int| 0 <= i < d.len() && #[trigger] d[i].0 == last.0)) by {
            if exists|i: int| 0 <= i < d.len() && #[trigger] d[i].0 == last.0 {
                let i = choose|i: int| 0 <= i < d.len() && #[trigger] d[i].0 == last.0;
                assert(p[i].0 != p[p.len() - 1].0);
            }
        }
        assert(d.push(last) =~= p);
    }
}

/// A string map reads back as the same entries, in the same order.
pub proof fn lemma_map_round_trip(a: Seq<u8>, e: Seq<(Seq<char>, Seq<char>)>, rest: Seq<u8>)
    requires
        map_fits(e),
        distinct_keys(e),
    ensures
        spec_map_at(a + spec_map(e) + rest, a.len() as int) == Some((e, (a.len() + spec_map(e).len()) as int)),
{
    lemma_bytes_round_trip(a, spec_map_body(e), rest);
    lemma_pairs_round_trip(Seq::empty(), e);
    assert(Seq::<u8>::empty() + spec_map_body(e) =~= spec_map_body(e));
    lemma_fold_insert_distinct(e);
}

/// UTF-8 validation and decoding of a byte string (std's `str::from_utf8`).
///
/// Contract: the result is `Some` exactly when the bytes are valid UTF-8, and
/// then the returned string's bytes are the input bytes.
#[verifier::external_body]
pub(crate) fn utf8_str(bytes: &[u8]) -> (r: Option<&str>)
    ensures
        r is Some <==> valid_utf8(bytes@),
        r matches Some(s) ==> s@ == decode_utf8(bytes@),
{
    std::str::from_utf8(bytes).ok()
}

/// Read the `(start, end)` byte range of the length-prefixed bytes at `pos`.
pub fn parse_bytes_range(buf: &[u8], pos: usize) -> (r: Option<(usize, usize)>)
    ensures
        match r {
            Some((st, en)) => spec_bytes_at(buf@, pos as int) == Some((buf@.subrange(st as int, en as int), en as int))
                && st == pos + 4 && st <= en <= buf@.len(),
            None => spec_bytes_at(buf@, pos as int) is None,
        },
{
    let blen = buf.len();
    let r32 = read_u32(buf, pos);
    if r32.is_none() {
        return None;
    }
    let n = r32.unwrap();
    let start = pos + 4;
    if (n as usize) > buf.len() - start {
        return None;
    }
    Some((start, start + n as usize))
}

/// Read the length-prefixed bytes at `pos` and the position after them.
pub fn parse_bytes(buf: &[u8], pos: usize) -> (r: Option<(Vec<u8>, usize)>)
    ensures
        match r {
            Some((b, p)) => spec_bytes_at(buf@, pos as int) == Some((b@, p as int)),
            None => spec_bytes_at(buf@, pos as int) is None,
        },
{
    match parse_bytes_range(buf, pos) {
        Some((st, en)) => Some((vstd::slice::slice_to_vec(&buf[st..en]), en)),
        None => None,
    }
}

/// Read the length-prefixed UTF-8 string at `pos` and the position after it.
pub fn parse_str(buf: &[u8], pos: usize) -> (r: Option<(String, usize)>)
    ensures
        match r {
            Some((s, p)) => spec_str_at(buf@, pos as int) == Some((s@, p as int)),
            None => spec_str_at(buf@, pos as int) is None,
        },
{
    match parse_bytes_range(buf, pos) {
        Some((st, en)) => match utf8_str(&buf[st..en]) {
            Some(s) => Some((s.to_owned(), en)),
            None => None,
        },
        None => None,
    }
}

/// Read the string map at `pos` and the position after it.
pub fn parse_map(buf: &[u8], pos: usize) -> (r: Option<(StringMap, usize)>)
    ensures
        match r {
            Some((m, p)) => spec_map_at(buf@, pos as int) == Some((m@, p as int)) && m.well_formed(),
            None => spec_map_at(buf@, pos as int) is None,
        },
{
    let (st, en) = match parse_bytes_range(buf, pos) {
        Some(x) => x,
        None => return None,
    };
    let body = &buf[st..en];
    let ghost b = body@;
    let mut map = StringMap::new();
    let mut p: usize = 0;
    let ghost done: Seq<(Seq<char>, Seq<char>)> = Seq::empty();
    assert(done + spec_parse_pairs(b, 0)->Some_0 =~= spec_parse_pairs(b, 0)->Some_0);
    while p < body.len()
        invariant
            b == body@,
            spec_bytes_at(buf@, pos as int) == Some((b, en as int)),
            p <= body@.len(),
            map.well_formed(),
            map@ == fold_insert(done),
            spec_parse_pairs(b, 0) == match spec_parse_pairs(b, p as int) {
                Some(rest) => Some(done + rest),
                None => None::<Seq<(Seq<char>, Seq<char>)>>,
            },
        decreases body@.len() - p,
    {
        let (k, p1) = match parse_str(body, p) {
            Some(x) => x,
            None => {
                assert(spec_parse_pairs(b, p as int) is None);
                return None;
            },
        };
        let (v, p2) = match parse_str(body, p1) {
            Some(x) => x,
            None => {
                assert(spec_parse_pairs(b, p as int) is None);
                return None;
            },
        };
        proof {
            assert(p < p2);
        }
        let ghost kv = (k@, v@);
        map.insert(k, v);
        proof {
            assert(spec_parse_pairs(b, p as int) == match spec_parse_pairs(b, p2 as int) {
                Some(rest) => Some(seq![kv] + rest),
                None => None::<Seq<(Seq<char>, Seq<char>)>>,
            });
            if let Some(rest) = spec_parse_pairs(b, p2 as int) {
                assert(done + (seq![kv] + rest) =~= done.push(kv) + rest);
            }
            assert(done.push(kv).drop_last() =~= done);
            done = done.push(kv);
        }
        p = p2;
    }
    assert(done + Seq::<(Seq<char>, Seq<char>)>::empty() =~= done);
    Some((map, en))
}

// ---------------------------------------------------------------------------
// Header record
// ---------------------------------------------------------------------------

/// The Header record payload: profile, library and metadata map.
pub open spec fn spec_header_payload(
    profile: Seq<char>,
    library: Seq<char>,
    metadata: Seq<(Seq<char>, Seq<char>)>,
) -> Seq<u8> {
    spec_str(profile) + spec_str(library) + spec_map(metadata)
}

/// The profile, library and metadata stored in a Header payload.
pub open spec fn spec_parse_header(s: Seq<u8>) -> Option<(Seq<char>, Seq<char>, Seq<(Seq<char>, Seq<char>)>)> {
    match spec_str_at(s, 0) {
        Some((profile, p1)) => match spec_str_at(s, p1) {
            Some((library, p2)) => match spec_map_at(s, p2) {
                Some((m, _p3)) => Some((profile, library, m)),
                None => None,
            },
            None => None,
        },
        None => None,
    }
}

/// Decode a Header record payload.
pub fn parse_header_record(payload: &[u8]) -> (r: Result<Header>)
    ensures
        match r {
            Ok(h) => spec_parse_header(payload@) == Some((h.profile@, h.library@, h.metadata@))
                && h.metadata.well_formed(),
            Err(e) => e is InvalidRecord && spec_parse_header(payload@) is None,
        },
{
    let (profile, p1) = match parse_str(payload, 0) {
        Some(x) => x,
        None => return Err(invalid("invalid header profile")),
    };
    let (library, p2) = match parse_str(payload, p1) {
        Some(x) => x,
        None => return Err(invalid("invalid header library")),
    };
    let (metadata, _p3) = match parse_map(payload, p2) {
        Some(x) => x,
        None => return Err(invalid("invalid header metadata")),
    };
    Ok(Header { profile, library, metadata })
}

/// A Header payload decodes to the fields it was encoded from.
pub proof fn lemma_header_round_trip(
    profile: Seq<char>,
    library: Seq<char>,
    metadata: Seq<(Seq<char>, Seq<char>)>,
)
    requires
        str_fits(profile),
        str_fits(library),
        map_fits(metadata),
        distinct_keys(metadata),
    ensures
        spec_parse_header(spec_header_payload(profile, library, metadata))
            == Some((profile, library, metadata)),
{
    let s = spec_header_payload(profile, library, metadata);
    lemma_str_round_trip(Seq::empty(), profile, spec_str(library) + spec_map(metadata));
    assert(s =~= Seq::<u8>::empty() + spec_str(profile) + (spec_str(library) + spec_map(metadata)));
    lemma_str_round_trip(spec_str(profile), library, spec_map(metadata));
    assert(s =~= spec_str(profile) + spec_str(library) + spec_map(metadata));
    lemma_map_round_trip(spec_str(profile) + spec_str(library), metadata, Seq::empty());
    assert(s =~= (spec_str(profile) + spec_str(library)) + spec_map(metadata) + Seq::<u8>::empty());
}


// ---------------------------------------------------------------------------
// Schema, Channel and Message records
// ---------------------------------------------------------------------------

/// The Schema record payload.
pub open spec fn spec_schema_payload(id: u16, name: Seq<char>, encoding: Seq<char>, data: Seq<u8>) -> Seq<u8> {
    le16(id) + spec_str(name) + spec_str(encoding) + spec_len_prefixed(data)
}

/// The fields stored in a Schema payload.
pub open spec fn spec_parse_schema(s: Seq<u8>) -> Option<(u16, Seq<char>, Seq<char>, Seq<u8>)> {
    if s.len() >= 2 {
        match spec_str_at(s, 2) {
            Some((name, p1)) => match spec_str_at(s, p1) {
                Some((encoding, p2)) => match spec_bytes_at(s, p2) {
                    Some((data, _p3)) => Some((u16_at(s, 0), name, encoding, data)),
                    None => None,
                },
                None => None,
            },
            None => None,
        }
    } else {
        None
    }
}

/// Decode a Schema record payload.
pub fn parse_schema_record(payload: &[u8]) -> (r: Result<Schema>)
    ensures
        match r {
            Ok(sc) => spec_parse_schema(payload@) == Some((sc.id, sc.name@, sc.encoding@, sc.data@)),
            Err(e) => e is InvalidRecord && spec_parse_schema(payload@) is None,
        },
{
    let id = match read_u16(payload, 0) {
        Some(v) => v,
        None => return Err(invalid("schema record is truncated")),
    };
    let (name, p1) = match parse_str(payload, 2) {
        Some(x) => x,
        None => return Err(invalid("invalid schema name")),
    };
    let (encoding, p2) = match parse_str(payload, p1) {
        Some(x) => x,
        None => return Err(invalid("invalid schema encoding")),
    };
    let (data, _p3) = match parse_bytes(payload, p2) {
        Some(x) => x,
        None => return Err(invalid("invalid schema data")),
    };
    Ok(Schema { id, name, encoding, data })
}

/// A Schema payload decodes to the fields it was encoded from.
pub proof fn lemma_schema_round_trip(id: u16, name: Seq<char>, encoding: Seq<char>, data: Seq<u8>)
    requires
        str_fits(name),
        str_fits(encoding),
        data.len() <= u32::MAX,
    ensures
        spec_parse_schema(spec_schema_payload(id, name, encoding, data)) == Some((id, name, encoding, data)),
{
    let s = spec_schema_payload(id, name, encoding, data);
    let t = spec_str(name) + spec_str(encoding) + spec_len_prefixed(data);
    lemma_le_fields_round_trip(Seq::empty(), t, id, 0, 0);
    assert(s =~= Seq::<u8>::empty() + le16(id) + t);
    lemma_str_round_trip(le16(id), name, spec_str(encoding) + spec_len_prefixed(data));
    assert(s =~= le16(id) + spec_str(name) + (spec_str(encoding) + spec_len_prefixed(data)));
    lemma_str_round_trip(le16(id) + spec_str(name), encoding, spec_len_prefixed(data));
    assert(s =~= (le16(id) + spec_str(name)) + spec_str(encoding) + spec_len_prefixed(data));
    lemma_bytes_round_trip(le16(id) + spec_str(name) + spec_str(encoding), data, Seq::empty());
    assert(s =~= (le16(id) + spec_str(name) + spec_str(encoding)) + spec_len_prefixed(data) + Seq::<u8>::empty());
}

/// The Channel record payload.
pub open spec fn spec_channel_payload(
    id: u16,
    schema_id: u16,
    topic: Seq<char>,
    message_encoding: Seq<char>,
    metadata: Seq<(Seq<char>, Seq<char>)>,
) -> Seq<u8> {
    le16(id) + le16(schema_id) + spec_str(topic) + spec_str(message_encoding) + spec_map(metadata)
}

/// The fields stored in a Channel payload.
pub open spec fn spec_parse_channel(s: Seq<u8>) -> Option<(u16, u16, Seq<char>, Seq<char>, Seq<(Seq<char>, Seq<char>)>)> {
    if s.len() >= 4 {
        match spec_str_at(s, 4) {
            Some((topic, p1)) => match spec_str_at(s, p1) {
                Some((enc, p2)) => match spec_map_at(s, p2) {
                    Some((m, _p3)) => Some((u16_at(s, 0), u16_at(s, 2), topic, enc, m)),
                    None => None,
                },
                None => None,
            },
            None => None,
        }
    } else {
        None
    }
}

/// Decode a Channel record payload.
pub fn parse_channel_record(payload: &[u8]) -> (r: Result<Channel>)
    ensures
        match r {
            Ok(c) => spec_parse_channel(payload@) == Some((c.id, c.schema_id, c.topic@, c.message_encoding@, c.metadata@))
                && c.metadata.well_formed(),
            Err(e) => e is InvalidRecord && spec_parse_channel(payload@) is None,
        },
{
    if payload.len() < 4 {
        return Err(invalid("channel record is truncated"));
    }
    let id = read_u16(payload, 0).unwrap();
    let schema_id = read_u16(payload, 2).unwrap();
    let (topic, p1) = match parse_str(payload, 4) {
        Some(x) => x,
        None => return Err(invalid("invalid channel topic")),
    };
    let (message_encoding, p2) = match parse_str(payload, p1) {
        Some(x) => x,
        None => return Err(invalid("invalid channel message encoding")),
    };
    let (metadata, _p3) = match parse_map(payload, p2) {
        Some(x) => x,
        None => return Err(invalid("invalid channel metadata")),
    };
    Ok(Channel { id, topic, message_encoding, schema_id, metadata })
}

/// A Channel payload decodes to the fields it was encoded from.
pub proof fn lemma_channel_round_trip(
    id: u16,
    schema_id: u16,
    topic: Seq<char>,
    enc: Seq<char>,
    metadata: Seq<(Seq<char>, Seq<char>)>,
)
    requires
        str_fits(topic),
        str_fits(enc),
        map_fits(metadata),
        distinct_keys(metadata),
    ensures
        spec_parse_channel(spec_channel_payload(id, schema_id, topic, enc, metadata))
            == Some((id, schema_id, topic, enc, metadata)),
{
    let s = spec_channel_payload(id, schema_id, topic, enc, metadata);
    let t = spec_str(topic) + spec_str(enc) + spec_map(metadata);
    lemma_le_fields_round_trip(Seq::empty(), le16(schema_id) + t, id, 0, 0);
    assert(s =~= Seq::<u8>::empty() + le16(id) + (le16(schema_id) + t));
    lemma_le_fields_round_trip(le16(id), t, schema_id, 0, 0);
    assert(s =~= le16(id) + le16(schema_id) + t);
    let h = le16(id) + le16(schema_id);
    lemma_str_round_trip(h, topic, spec_str(enc) + spec_map(metadata));
    assert(s =~= h + spec_str(topic) + (spec_str(enc) + spec_map(metadata)));
    lemma_str_round_trip(h + spec_str(topic), enc, spec_map(metadata));
    assert(s =~= (h + spec_str(topic)) + spec_str(enc) + spec_map(metadata));
    lemma_map_round_trip(h + spec_str(topic) + spec_str(enc), metadata, Seq::empty());
    assert(s =~= (h + spec_str(topic) + spec_str(enc)) + spec_map(metadata) + Seq::<u8>::empty());
}

/// The fixed fields of a Message payload: channel id, sequence, log and publish time.
pub open spec fn spec_message_fields(channel_id: u16, sequence: u32, log_time: u64, publish_time: u64) -> Seq<u8> {
    le16(channel_id) + le32(sequence) + le64(log_time) + le64(publish_time)
}

/// The header and fixed fields of a Message record carrying `data_len` payload bytes.
pub open spec fn spec_message_prefix(
    channel_id: u16,
    sequence: u32,
    log_time: u64,
    publish_time: u64,
    data_len: nat,
) -> Seq<u8> {
    spec_record_header(Opcode::Message.byte(), (MESSAGE_HEADER_SIZE + data_len) as u64)
        + spec_message_fields(channel_id, sequence, log_time, publish_time)
}

/// A complete Message record.
pub open spec fn spec_message_record(
    channel_id: u16,
    sequence: u32,
    log_time: u64,
    publish_time: u64,
    data: Seq<u8>,
) -> Seq<u8> {
    spec_message_prefix(channel_id, sequence, log_time, publish_time, data.len()) + data
}

/// A Message record is 31 bytes longer than its data.
pub proof fn lemma_message_record_len(channel_id: u16, sequence: u32, log_time: u64, publish_time: u64, data: Seq<u8>)
    ensures
        spec_message_record(channel_id, sequence, log_time, publish_time, data).len() == 31 + data.len(),
{
    lemma_le_fields_round_trip(Seq::empty(), Seq::empty(), channel_id, sequence, log_time);
    lemma_le_fields_round_trip(Seq::empty(), Seq::empty(), 0, 0, publish_time);
    lemma_le_fields_round_trip(Seq::empty(), Seq::empty(), 0, 0, (MESSAGE_HEADER_SIZE + data.len()) as u64);
}

/// The message header stored at the start of a Message payload.
pub open spec fn spec_parse_message_header(s: Seq<u8>) -> Option<MessageHeader> {
    if s.len() >= MESSAGE_HEADER_SIZE {
        Some(MessageHeader {
            channel_id: u16_at(s, 0),
            sequence: u32_at(s, 2),
            log_time: u64_at(s, 6),
            publish_time: u64_at(s, 14),
            data_size: (s.len() - MESSAGE_HEADER_SIZE) as u64,
        })
    } else {
        None
    }
}

/// Decode the fixed fields of a Message payload.
pub fn parse_message_header_from_content(content: &[u8]) -> (r: Result<MessageHeader>)
    ensures
        match r {
            Ok(h) => spec_parse_message_header(content@) == Some(h),
            Err(e) => e is InvalidRecord && spec_parse_message_header(content@) is None,
        },
{
    if content.len() < MESSAGE_HEADER_SIZE {
        return Err(invalid("message record is truncated"));
    }
    let channel_id = read_u16(content, 0).unwrap();
    let sequence = read_u32(content, 2).unwrap();
    let log_time = read_u64(content, 6).unwrap();
    let publish_time = read_u64(content, 14).unwrap();
    Ok(MessageHeader {
        channel_id,
        sequence,
        log_time,
        publish_time,
        data_size: (content.len() - MESSAGE_HEADER_SIZE) as u64,
    })
}

/// Decode a Message record payload into its fields and payload bytes.
pub fn parse_message_record(content: &[u8]) -> (r: Result<RawMessage>)
    requires
        content@.len() <= u32::MAX,
    ensures
        match r {
            Ok(m) => spec_parse_message_header(content@) matches Some(h)
                && m.channel_id == h.channel_id && m.sequence == h.sequence
                && m.log_time == h.log_time && m.publish_time == h.publish_time
                && m.payload.well_formed()
                && m.payload@ == content@.subrange(MESSAGE_HEADER_SIZE as int, content@.len() as int),
            Err(e) => e is InvalidRecord && spec_parse_message_header(content@) is None,
        },
{
    let h = parse_message_header_from_content(content)?;
    let n = content.len();
    let data = vstd::slice::slice_to_vec(&content[MESSAGE_HEADER_SIZE..n]);
    Ok(RawMessage::new(h.channel_id, h.sequence, h.log_time, h.publish_time, Payload::from_bytes(data)))
}

/// A Message record's fixed fields decode to the values they were written from.
pub proof fn lemma_message_round_trip(
    channel_id: u16,
    sequence: u32,
    log_time: u64,
    publish_time: u64,
    data: Seq<u8>,
)
    ensures
        spec_message_fields(channel_id, sequence, log_time, publish_time).len() == MESSAGE_HEADER_SIZE,
        spec_parse_message_header(spec_message_fields(channel_id, sequence, log_time, publish_time) + data)
            == Some(MessageHeader {
                channel_id,
                sequence,
                log_time,
                publish_time,
                data_size: data.len() as u64,
            }),
{
    let f = spec_message_fields(channel_id, sequence, log_time, publish_time);
    let s = f + data;
    lemma_le_fields_round_trip(Seq::empty(), le32(sequence) + le64(log_time) + le64(publish_time) + data, channel_id, 0, 0);
    assert(s =~= Seq::<u8>::empty() + le16(channel_id) + (le32(sequence) + le64(log_time) + le64(publish_time) + data));
    lemma_le_fields_round_trip(le16(channel_id), le64(log_time) + le64(publish_time) + data, 0, sequence, 0);
    assert(s =~= le16(channel_id) + le32(sequence) + (le64(log_time) + le64(publish_time) + data));
    lemma_le_fields_round_trip(le16(channel_id) + le32(sequence), le64(publish_time) + data, 0, 0, log_time);
    assert(s =~= (le16(channel_id) + le32(sequence)) + le64(log_time) + (le64(publish_time) + data));
    lemma_le_fields_round_trip(le16(channel_id) + le32(sequence) + le64(log_time), data, 0, 0, publish_time);
    assert(s =~= (le16(channel_id) + le32(sequence) + le64(log_time)) + le64(publish_time) + data);
}

// ---------------------------------------------------------------------------
// Chunk records
// ---------------------------------------------------------------------------

/// The fixed fields of a Chunk payload before its records.
pub open spec fn spec_chunk_fields(
    start: u64,
    end: u64,
    uncompressed_size: u64,
    crc: u32,
    compression: Seq<char>,
    records_len: u64,
) -> Seq<u8> {
    le64(start) + le64(end) + le64(uncompressed_size) + le32(crc) + spec_str(compression) + le64(records_len)
}

/// The fields stored in a Chunk payload; the records are the `u64`-prefixed bytes after the compression string.
pub open spec fn spec_parse_chunk(s: Seq<u8>) -> Option<(u64, u64, u64, u32, Seq<char>, Seq<u8>)> {
    if s.len() >= 28 {
        match spec_str_at(s, 28) {
            Some((c, p)) => if p + 8 <= s.len() && p + 8 + u64_at(s, p) <= s.len() {
                Some((u64_at(s, 0), u64_at(s, 8), u64_at(s, 16), u32_at(s, 24), c,
                    s.subrange(p + 8, p + 8 + u64_at(s, p))))
            } else {
                None
            },
            None => None,
        }
    } else {
        None
    }
}

/// Decode a Chunk record payload.
pub fn parse_chunk_record(payload: &[u8]) -> (r: Result<Chunk>)
    ensures
        match r {
            Ok(c) => spec_parse_chunk(payload@) == Some((c.message_start_time, c.message_end_time,
                c.uncompressed_size, c.uncompressed_crc, c.compression@, c.records@)),
            Err(e) => e is InvalidRecord && spec_parse_chunk(payload@) is None,
        },
{
    if payload.len() < 28 {
        return Err(invalid("chunk record is truncated"));
    }
    let message_start_time = read_u64(payload, 0).unwrap();
    let message_end_time = read_u64(payload, 8).unwrap();
    let uncompressed_size = read_u64(payload, 16).unwrap();
    let uncompressed_crc = read_u32(payload, 24).unwrap();
    let (compression, p) = match parse_str(payload, 28) {
        Some(x) => x,
        None => return Err(invalid("invalid chunk compression")),
    };
    let n = match read_u64(payload, p) {
        Some(v) => v,
        None => return Err(invalid("chunk records length is truncated")),
    };
    let start = p + 8;
    if n > (payload.len() - start) as u64 {
        return Err(invalid("chunk records are truncated"));
    }
    let end = start + n as usize;
    let records = vstd::slice::slice_to_vec(&payload[start..end]);
    Ok(Chunk { message_start_time, message_end_time, uncompressed_size, uncompressed_crc, compression, records })
}

/// A Chunk payload decodes to the fields and records it was encoded from.
pub proof fn lemma_chunk_round_trip(
    start: u64,
    end: u64,
    uncompressed_size: u64,
    crc: u32,
    compression: Seq<char>,
    records: Seq<u8>,
)
    requires
        str_fits(compression),
        records.len() <= u64::MAX,
    ensures
        spec_parse_chunk(spec_chunk_fields(start, end, uncompressed_size, crc, compression, records.len() as u64) + records)
            == Some((start, end, uncompressed_size, crc, compression, records)),
{
    let s = spec_chunk_fields(start, end, uncompressed_size, crc, compression, records.len() as u64) + records;
    let a = le64(start);
    let b = le64(end);
    let c = le64(uncompressed_size);
    let d = le32(crc);
    let e = spec_str(compression);
    let f = le64(records.len() as u64);
    lemma_le_fields_round_trip(Seq::empty(), b + c + d + e + f + records, 0, 0, start);
    assert(s =~= Seq::<u8>::empty() + a + (b + c + d + e + f + records));
    lemma_le_fields_round_trip(a, c + d + e + f + records, 0, 0, end);
    assert(s =~= a + b + (c + d + e + f + records));
    lemma_le_fields_round_trip(a + b, d + e + f + records, 0, 0, uncompressed_size);
    assert(s =~= (a + b) + c + (d + e + f + records));
    lemma_le_fields_round_trip(a + b + c, e + f + records, 0, crc, 0);
    assert(s =~= (a + b + c) + d + (e + f + records));
    lemma_str_round_trip(a + b + c + d, compression, f + records);
    assert(s =~= (a + b + c + d) + e + (f + records));
    let p = (a + b + c + d + e).len() as int;
    lemma_le_fields_round_trip(a + b + c + d + e, records, 0, 0, records.len() as u64);
    assert(s =~= (a + b + c + d + e) + f + records);
    assert(s.subrange(p + 8, p + 8 + records.len()) =~= records);
}


// ---------------------------------------------------------------------------
// Scanning the records of an uncompressed chunk
// ---------------------------------------------------------------------------

/// The record at `pos`: its opcode byte, where its payload starts and where the next record starts.
pub open spec fn spec_record_at(s: Seq<u8>, pos: int) -> Option<(u8, int, int)> {
    if 0 <= pos && pos + 9 <= s.len() && pos + 9 + u64_at(s, pos + 1) <= s.len() {
        Some((s[pos], pos + 9, pos + 9 + u64_at(s, pos + 1)))
    } else {
        None
    }
}

/// Location of one record inside a buffer.
pub struct RecordLocation {
    /// Offset of the record header.
    pub header_start: usize,
    /// Opcode byte of the record.
    pub opcode: u8,
    /// Payload length from the record header.
    pub length: u64,
    /// Offset of the payload.
    pub content_start: usize,
    /// Offset just past the record.
    pub next_record_start: usize,
}

/// Locate the record whose header starts at `pos`; `None` when the header or
/// the payload it announces runs past the end of `buf`.
pub fn get_record_location(buf: &[u8], pos: usize) -> (r: Option<RecordLocation>)
    ensures
        match r {
            Some(loc) => spec_record_at(buf@, pos as int) == Some((loc.opcode, loc.content_start as int, loc.next_record_start as int))
                && loc.header_start == pos
                && loc.length == u64_at(buf@, pos + 1)
                && loc.content_start == pos + 9
                && loc.next_record_start <= buf@.len(),
            None => spec_record_at(buf@, pos as int) is None,
        },
{
    let blen = buf.len();
    if blen < 9 || pos > blen - 9 {
        return None;
    }
    let length = read_u64(buf, pos + 1).unwrap();
    let content_start = pos + 9;
    if length > (blen - content_start) as u64 {
        return None;
    }
    Some(RecordLocation {
        header_start: pos,
        opcode: buf[pos],
        length,
        content_start,
        next_record_start: content_start + length as usize,
    })
}

/// The `(channel id, log time)` of each Message record found scanning records
/// from `pos`; the scan stops at the first truncated record or malformed message.
pub open spec fn spec_scan_messages(s: Seq<u8>, pos: int) -> Seq<(u16, u64)>
    decreases s.len() - pos,
{
    match spec_record_at(s, pos) {
        Some((op, cs, nx)) => if pos < nx <= s.len() {
            if op == Opcode::Message.byte() {
                match spec_parse_message_header(s.subrange(cs, nx)) {
                    Some(h) => seq![(h.channel_id, h.log_time)] + spec_scan_messages(s, nx),
                    None => Seq::empty(),
                }
            } else {
                spec_scan_messages(s, nx)
            }
        } else {
            Seq::empty()
        },
        None => Seq::empty(),
    }
}

/// List the `(channel id, log time)` of the Message records in `records`.
pub fn scan_messages(records: &[u8]) -> (r: Vec<(u16, u64)>)
    ensures
        r@ == spec_scan_messages(records@, 0),
{
    let mut out: Vec<(u16, u64)> = Vec::new();
    let mut pos: usize = 0;
    while pos < records.len()
        invariant
            pos <= records@.len(),
            spec_scan_messages(records@, 0) == out@ + spec_scan_messages(records@, pos as int),
        decreases records@.len() - pos,
    {
        let loc = match get_record_location(records, pos) {
            Some(l) => l,
            None => {
                assert(out@ + Seq::<(u16, u64)>::empty() =~= out@);
                return out;
            },
        };
        if loc.opcode == 5 {
            let content = &records[loc.content_start..loc.next_record_start];
            match parse_message_header_from_content(content) {
                Ok(h) => {
                    let ghost before = out@;
                    out.push((h.channel_id, h.log_time));
                    assert(before + spec_scan_messages(records@, pos as int) =~= out@ + spec_scan_messages(records@, loc.next_record_start as int));
                },
                Err(_) => {
                    assert(out@ + Seq::<(u16, u64)>::empty() =~= out@);
                    return out;
                },
            }
        }
        pos = loc.next_record_start;
    }
    proof {
        if pos == records@.len() {
            assert(spec_record_at(records@, pos as int) is None);
        }
    }
    assert(out@ + Seq::<(u16, u64)>::empty() =~= out@);
    out
}

// ---------------------------------------------------------------------------
// Fields read when copying Metadata and Attachment records
// ---------------------------------------------------------------------------

/// Read the name at the start of a Metadata payload.
pub fn parse_metadata_name(payload: &[u8]) -> (r: Result<String>)
    ensures
        match r {
            Ok(name) => spec_str_at(payload@, 0) matches Some((n, _p)) && n == name@,
            Err(e) => e is InvalidRecord && spec_str_at(payload@, 0) is None,
        },
{
    match parse_str(payload, 0) {
        Some((name, _p)) => Ok(name),
        None => Err(invalid("invalid metadata record")),
    }
}

/// The fields of a Metadata payload: its name and its entries.
pub open spec fn spec_parse_metadata(s: Seq<u8>) -> Option<(Seq<char>, Seq<(Seq<char>, Seq<char>)>)> {
    match spec_str_at(s, 0) {
        Some((name, p1)) => match spec_map_at(s, p1) {
            Some((m, _p2)) => Some((name, m)),
            None => None,
        },
        None => None,
    }
}

/// Decode a Metadata record payload.
pub fn parse_metadata_record(payload: &[u8]) -> (r: Result<Metadata>)
    ensures
        match r {
            Ok(m) => spec_parse_metadata(payload@) == Some((m.name@, m.metadata@)) && m.metadata.well_formed(),
            Err(e) => e is InvalidRecord && spec_parse_metadata(payload@) is None,
        },
{
    let (name, p1) = match parse_str(payload, 0) {
        Some(x) => x,
        None => return Err(invalid("invalid metadata name")),
    };
    let (metadata, _p2) = match parse_map(payload, p1) {
        Some(x) => x,
        None => return Err(invalid("invalid metadata map")),
    };
    Ok(Metadata { name, metadata })
}

/// The fields of an Attachment payload: log time, create time, name, media
/// type and data, provided the CRC field after the data fits.
pub open spec fn spec_parse_attachment(s: Seq<u8>) -> Option<(u64, u64, Seq<char>, Seq<char>, Seq<u8>)> {
    if s.len() >= 16 {
        match spec_str_at(s, 16) {
            Some((name, p1)) => match spec_str_at(s, p1) {
                Some((media, p2)) => if p2 + 8 <= s.len() && p2 + 8 + u64_at(s, p2) + 4 <= s.len() {
                    Some((u64_at(s, 0), u64_at(s, 8), name, media, s.subrange(p2 + 8, p2 + 8 + u64_at(s, p2))))
                } else {
                    None
                },
                None => None,
            },
            None => None,
        }
    } else {
        None
    }
}

/// Decode an Attachment record payload.
pub fn parse_attachment_record(payload: &[u8]) -> (r: Result<Attachment>)
    ensures
        match r {
            Ok(a) => spec_parse_attachment(payload@) == Some((a.log_time, a.create_time, a.name@, a.media_type@, a.data@)),
            Err(e) => e is InvalidRecord && spec_parse_attachment(payload@) is None,
        },
{
    if payload.len() < 16 {
        return Err(invalid("invalid attachment record"));
    }
    let log_time = read_u64(payload, 0).unwrap();
    let create_time = read_u64(payload, 8).unwrap();
    let (name, p1) = match parse_str(payload, 16) {
        Some(x) => x,
        None => return Err(invalid("invalid attachment record")),
    };
    let (media_type, p2) = match parse_str(payload, p1) {
        Some(x) => x,
        None => return Err(invalid("invalid attachment record")),
    };
    let data_size = match read_u64(payload, p2) {
        Some(v) => v,
        None => return Err(invalid("invalid attachment record")),
    };
    let rest = (payload.len() - (p2 + 8)) as u64;
    if rest < 4 || data_size > rest - 4 {
        return Err(invalid("invalid attachment record"));
    }
    let st = p2 + 8;
    let en = st + data_size as usize;
    let data = vstd::slice::slice_to_vec(&payload[st..en]);
    Ok(Attachment { log_time, create_time, name, media_type, data })
}

/// A ChunkIndex payload decodes: after the message index offsets, the
/// message index length, the compression string, and the compressed and
/// uncompressed sizes fit.
pub open spec fn spec_chunk_index_decodes(s: Seq<u8>) -> bool {
    spec_parse_chunk_index_offsets(s) is Some && {
        let p = 36 + u32_at(s, 32);
        p + 8 <= s.len() && (spec_str_at(s, p + 8) matches Some((_c, p2)) && p2 + 16 <= s.len())
    }
}

/// Check that a ChunkIndex record payload decodes.
pub fn chunk_index_decodes(payload: &[u8]) -> (r: bool)
    ensures
        r == spec_chunk_index_decodes(payload@),
{
    if payload.len() < 36 {
        return false;
    }
    let len = read_u32(payload, 32).unwrap() as usize;
    if len > payload.len() - 36 || len % 10 != 0 {
        return false;
    }
    let p = 36 + len;
    if payload.len() - p < 8 {
        return false;
    }
    match parse_str(payload, p + 8) {
        Some((_c, p2)) => payload.len() - p2 >= 16,
        None => false,
    }
}

/// An AttachmentIndex payload decodes: offset, length, log and create
/// times, data size, then the name and media type strings.
pub open spec fn spec_attachment_index_decodes(s: Seq<u8>) -> bool {
    s.len() >= 40 && (spec_str_at(s, 40) matches Some((_n, p1)) && spec_str_at(s, p1) is Some)
}

/// Check that an AttachmentIndex record payload decodes.
pub fn attachment_index_decodes(payload: &[u8]) -> (r: bool)
    ensures
        r == spec_attachment_index_decodes(payload@),
{
    if payload.len() < 40 {
        return false;
    }
    match parse_str(payload, 40) {
        Some((_n, p1)) => parse_str(payload, p1).is_some(),
        None => false,
    }
}

/// A Statistics payload decodes: the fixed counts and times, then the
/// per-channel message counts as 10-byte entries prefixed by their byte length.
pub open spec fn spec_statistics_decodes(s: Seq<u8>) -> bool {
    s.len() >= 46 && 46 + u32_at(s, 42) <= s.len() && u32_at(s, 42) % 10 == 0
}

/// Check that a Statistics record payload decodes.
pub fn statistics_decodes(payload: &[u8]) -> (r: bool)
    ensures
        r == spec_statistics_decodes(payload@),
{
    if payload.len() < 46 {
        return false;
    }
    let len = read_u32(payload, 42).unwrap() as usize;
    len <= payload.len() - 46 && len % 10 == 0
}

/// A MetadataIndex payload decodes: offset, length, then the name string.
pub open spec fn spec_metadata_index_decodes(s: Seq<u8>) -> bool {
    s.len() >= 16 && spec_str_at(s, 16) is Some
}

/// Check that a MetadataIndex record payload decodes.
pub fn metadata_index_decodes(payload: &[u8]) -> (r: bool)
    ensures
        r == spec_metadata_index_decodes(payload@),
{
    payload.len() >= 16 && parse_str(payload, 16).is_some()
}

/// A SummaryOffset payload decodes: the group's opcode, start and length.
pub open spec fn spec_summary_offset_decodes(s: Seq<u8>) -> bool {
    s.len() >= 17
}

/// The index fields of an Attachment payload: log time, create time, name,
/// media type and data size, provided the data and CRC that follow fit.
pub open spec fn spec_parse_attachment_fields(s: Seq<u8>) -> Option<(u64, u64, Seq<char>, Seq<char>, u64)> {
    if s.len() >= 16 {
        match spec_str_at(s, 16) {
            Some((name, p1)) => match spec_str_at(s, p1) {
                Some((media, p2)) => if p2 + 8 <= s.len() && p2 + 8 + u64_at(s, p2) + 4 <= s.len() {
                    Some((u64_at(s, 0), u64_at(s, 8), name, media, u64_at(s, p2)))
                } else {
                    None
                },
                None => None,
            },
            None => None,
        }
    } else {
        None
    }
}

/// Read the index fields of an Attachment payload.
pub fn parse_attachment_index_fields(payload: &[u8]) -> (r: Result<(u64, u64, String, String, u64)>)
    ensures
        match r {
            Ok((a, b, n, m, d)) => spec_parse_attachment_fields(payload@) == Some((a, b, n@, m@, d)),
            Err(e) => e is InvalidRecord && spec_parse_attachment_fields(payload@) is None,
        },
{
    if payload.len() < 16 {
        return Err(invalid("invalid attachment record"));
    }
    let log_time = read_u64(payload, 0).unwrap();
    let create_time = read_u64(payload, 8).unwrap();
    let (name, p1) = match parse_str(payload, 16) {
        Some(x) => x,
        None => return Err(invalid("invalid attachment record")),
    };
    let (media_type, p2) = match parse_str(payload, p1) {
        Some(x) => x,
        None => return Err(invalid("invalid attachment record")),
    };
    let data_size = match read_u64(payload, p2) {
        Some(v) => v,
        None => return Err(invalid("invalid attachment record")),
    };
    let rest = (payload.len() - (p2 + 8)) as u64;
    if rest < 4 || data_size > rest - 4 {
        return Err(invalid("invalid attachment record"));
    }
    Ok((log_time, create_time, name, media_type, data_size))
}

// ---------------------------------------------------------------------------
// MessageIndex records
// ---------------------------------------------------------------------------

/// The entries of a MessageIndex payload `s`: the `(log time, offset)` pairs
/// of the `u32`-length-prefixed array at byte 2.
pub open spec fn spec_index_entries(s: Seq<u8>, n: nat) -> Seq<(u64, u64)> {
    Seq::new(n, |k: int| (u64_at(s, 6 + 16 * k), u64_at(s, 6 + 16 * k + 8)))
}

/// A MessageIndex payload: the channel id, then the array of 16-byte
/// `(log time, offset)` entries, prefixed by its byte length. Bytes after
/// the array are ignored; `None` when the array runs past the payload or its
/// length is not a whole number of entries.
pub open spec fn spec_parse_message_index(s: Seq<u8>) -> Option<(u16, Seq<(u64, u64)>)> {
    if s.len() >= 6 && 6 + u32_at(s, 2) <= s.len() && u32_at(s, 2) % 16 == 0 {
        Some((u16_at(s, 0), spec_index_entries(s, (u32_at(s, 2) / 16) as nat)))
    } else {
        None
    }
}

/// The `(log time, offset)` pairs of message index entries.
pub open spec fn index_entries_view(e: Seq<MessageIndexEntry>) -> Seq<(u64, u64)> {
    e.map_values(|x: MessageIndexEntry| (x.timestamp, x.offset))
}

/// Decode a MessageIndex record payload.
pub fn parse_message_index_record(payload: &[u8]) -> (r: Result<MessageIndex>)
    ensures
        match r {
            Ok(ix) => spec_parse_message_index(payload@) == Some((ix.channel_id, index_entries_view(ix.records@))),
            Err(e) => spec_parse_message_index(payload@) is None && e is InvalidRecord,
        },
{
    let n = payload.len();
    if n < 6 {
        return Err(invalid("message index record is truncated"));
    }
    let channel_id = read_u16(payload, 0).unwrap();
    let len = read_u32(payload, 2).unwrap() as usize;
    if len > n - 6 || len % 16 != 0 {
        return Err(invalid("message index entries are malformed"));
    }
    let count = len / 16;
    let mut records: Vec<MessageIndexEntry> = Vec::new();
    let mut k: usize = 0;
    while k < count
        invariant
            n == payload@.len(),
            count * 16 == len,
            6 + len <= n,
            k <= count,
            len == u32_at(payload@, 2),
            index_entries_view(records@) == spec_index_entries(payload@, k as nat),
        decreases count - k,
    {
        assert(6 + 16 * k + 16 <= n) by (nonlinear_arith)
            requires k < count, count * 16 == len, 6 + len <= n;
        let timestamp = read_u64(payload, 6 + 16 * k).unwrap();
        let offset = read_u64(payload, 6 + 16 * k + 8).unwrap();
        let ghost before = records@;
        records.push(MessageIndexEntry { timestamp, offset });
        assert(index_entries_view(records@) =~= index_entries_view(before).push((timestamp, offset)));
        assert(timestamp == u64_at(payload@, 6 + 16 * k) && offset == u64_at(payload@, 6 + 16 * k + 8));
        assert(spec_index_entries(payload@, (k + 1) as nat) =~= spec_index_entries(payload@, k as nat).push((timestamp, offset)));
        k += 1;
    }
    Ok(MessageIndex { channel_id, records })
}

/// The `(channel, message index offset)` entries of a ChunkIndex payload.
pub open spec fn spec_chunk_index_entries(s: Seq<u8>, n: nat) -> Seq<(u16, u64)> {
    Seq::new(n, |k: int| (u16_at(s, 36 + 10 * k), u64_at(s, 36 + 10 * k + 2)))
}

/// What a ChunkIndex payload says of where its chunk and the chunk's message
/// indexes lie: the chunk's start and end times and file offset, and the
/// array of 10-byte `(channel, offset)` entries after the chunk length,
/// prefixed by its byte length. `None` when the array runs past the payload
/// or its length is not a whole number of entries.
pub open spec fn spec_parse_chunk_index_offsets(s: Seq<u8>) -> Option<(u64, u64, u64, Seq<(u16, u64)>)> {
    if s.len() >= 36 && 36 + u32_at(s, 32) <= s.len() && u32_at(s, 32) % 10 == 0 {
        Some((u64_at(s, 0), u64_at(s, 8), u64_at(s, 16), spec_chunk_index_entries(s, (u32_at(s, 32) / 10) as nat)))
    } else {
        None
    }
}

/// Decode the chunk times, chunk offset and message index offsets of a
/// ChunkIndex record payload.
pub fn parse_chunk_index_offsets(payload: &[u8]) -> (r: Result<(u64, u64, u64, Vec<(u16, u64)>)>)
    ensures
        match r {
            Ok((a, b, c, v)) => spec_parse_chunk_index_offsets(payload@) == Some((a, b, c, v@)),
            Err(e) => spec_parse_chunk_index_offsets(payload@) is None && e is InvalidRecord,
        },
{
    let n = payload.len();
    if n < 36 {
        return Err(invalid("chunk index record is truncated"));
    }
    let start = read_u64(payload, 0).unwrap();
    let end = read_u64(payload, 8).unwrap();
    let offset = read_u64(payload, 16).unwrap();
    let len = read_u32(payload, 32).unwrap() as usize;
    if len > n - 36 || len % 10 != 0 {
        return Err(invalid("chunk index offsets are malformed"));
    }
    let count = len / 10;
    let mut entries: Vec<(u16, u64)> = Vec::new();
    let mut k: usize = 0;
    while k < count
        invariant
            n == payload@.len(),
            count * 10 == len,
            36 + len <= n,
            k <= count,
            len == u32_at(payload@, 32),
            entries@ == spec_chunk_index_entries(payload@, k as nat),
        decreases count - k,
    {
        assert(36 + 10 * k + 10 <= n) by (nonlinear_arith)
            requires k < count, count * 10 == len, 36 + len <= n;
        let ch = read_u16(payload, 36 + 10 * k).unwrap();
        let off = read_u64(payload, 36 + 10 * k + 2).unwrap();
        entries.push((ch, off));
        assert(spec_chunk_index_entries(payload@, (k + 1) as nat) =~= spec_chunk_index_entries(payload@, k as nat).push((ch, off)));
        k += 1;
    }
    Ok((start, end, offset, entries))
}

} // verus!
