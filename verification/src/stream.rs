//! Decisions made while streaming a file: which parser a schema encoding
//! gets by default, whether a message index reaches into a time range, and
//! the metadata of records read without their payloads.

use vstd::prelude::*;
use vstd::string::StrSliceExecFns;
use vstd::string::StringExecFns;
use crate::decode::{get_record_location, parse_message_record, read_u16, read_u32, read_u64, spec_parse_message_header, spec_record_at, spec_scan_messages, u16_at, u32_at, u64_at};
use crate::format::{lemma_opcode_byte_round_trip, MESSAGE_HEADER_SIZE};
use crate::error::{Error, Result};
use crate::format::Opcode;
use crate::ros1::message::{decode_fuel, spec_message, tokens_view, Ros1SchemaParser, RosToken};
use crate::ros1::schema::{spec_definitions, spec_normalize};
use vstd::utf8::{decode_utf8, valid_utf8};
use crate::text::{chars_of, split_ranges, pieces, spec_split, str_eq};
use crate::types::{Chunk, ChunkMetadata, MessageHeader, RawMessage, MessageIndex, MessageIndexEntry, MessageMetadata, RecordMetadata, RecordSource, Schema, Timestamp};

verus! {

/// How messages of a schema are handed out when no parser was registered.
#[derive(Debug, Clone, Copy, PartialEq, Eq, Structural)]
pub enum SchemaDefaultParser {
    /// Parsed as JSON.
    Json,
    /// Handed out as bytes.
    Bytes,
}

/// The schema encodings that the MCAP registry defines.
pub open spec fn spec_is_registry_encoding(e: Seq<char>) -> bool {
    ||| e == ""@
    ||| e == "protobuf"@
    ||| e == "flatbuffer"@
    ||| e == "ros1msg"@
    ||| e == "ros2msg"@
    ||| e == "ros2idl"@
    ||| e == "omgidl"@
    ||| e == "jsonschema"@
}

/// Whether `encoding` is a schema encoding of the MCAP registry.
pub fn is_registry_schema_encoding(encoding: &str) -> (r: bool)
    ensures
        r == spec_is_registry_encoding(encoding@),
{
    str_eq(encoding, "") || str_eq(encoding, "protobuf") || str_eq(encoding, "flatbuffer")
        || str_eq(encoding, "ros1msg") || str_eq(encoding, "ros2msg") || str_eq(encoding, "ros2idl")
        || str_eq(encoding, "omgidl") || str_eq(encoding, "jsonschema")
}

/// The default parser of a schema encoding: JSON for `jsonschema`, bytes
/// for the other registry encodings, none for unknown encodings.
pub fn default_schema_parser(encoding: &str) -> (r: Option<SchemaDefaultParser>)
    ensures
        r == (if !spec_is_registry_encoding(encoding@) {
            None
        } else if encoding@ == "jsonschema"@ {
            Some(SchemaDefaultParser::Json)
        } else {
            Some(SchemaDefaultParser::Bytes)
        }),
{
    if !is_registry_schema_encoding(encoding) {
        return None;
    }
    if str_eq(encoding, "jsonschema") {
        Some(SchemaDefaultParser::Json)
    } else {
        Some(SchemaDefaultParser::Bytes)
    }
}

/// The default parser for a message's schema, none without a schema.
pub fn default_schema_parser_for(schema: Option<&Schema>) -> (r: Option<SchemaDefaultParser>)
    ensures
        match schema {
            None => r is None,
            Some(s) => r == (if !spec_is_registry_encoding(s.encoding@) {
                None
            } else if s.encoding@ == "jsonschema"@ {
                Some(SchemaDefaultParser::Json)
            } else {
                Some(SchemaDefaultParser::Bytes)
            }),
        },
{
    match schema {
        None => None,
        Some(s) => default_schema_parser(s.encoding.as_str()),
    }
}

/// Whether some entry of `records` has a timestamp in `[start, end]`.
pub open spec fn any_in_range(records: Seq<MessageIndexEntry>, start: u64, end: u64) -> bool {
    exists|i: int| 0 <= i < records.len() && start <= #[trigger] records[i].timestamp <= end
}

/// Whether a message index holds a message logged in `[start, end]`.
/// A binary search for the first entry at or after `start` answers first
/// (for entries sorted by time); otherwise every entry is checked.
pub fn message_index_has_timestamp_in_range(msg_index: &MessageIndex, start: Timestamp, end: Timestamp) -> (r: bool)
    ensures
        r == any_in_range(msg_index.records@, start, end),
{
    let records = &msg_index.records;
    let n = records.len();
    if n == 0 {
        return false;
    }
    let mut lo: usize = 0;
    let mut hi: usize = n;
    while lo < hi
        invariant
            lo <= hi <= n,
            n == records@.len(),
        decreases hi - lo,
    {
        let mid = lo + (hi - lo) / 2;
        if records[mid].timestamp < start {
            lo = mid + 1;
        } else {
            hi = mid;
        }
    }
    if lo < n && records[lo].timestamp >= start && records[lo].timestamp <= end {
        assert(start <= records@[lo as int].timestamp <= end);
        return true;
    }
    let mut i: usize = 0;
    while i < n
        invariant
            i <= n,
            n == records@.len(),
            records@ == msg_index.records@,
            forall|j: int| 0 <= j < i ==> !(start <= #[trigger] records@[j].timestamp <= end),
        decreases n - i,
    {
        if records[i].timestamp >= start && records[i].timestamp <= end {
            assert(start <= records@[i as int].timestamp <= end);
            return true;
        }
        i += 1;
    }
    assert(!any_in_range(records@, start, end));
    false
}

/// The metadata of a record read at `offset`; refused (as an early end of
/// input at `offset`) when the record's total length does not fit a `u64`.
pub fn create_record_metadata(
    opcode: Opcode,
    length: u64,
    offset: u64,
    source: RecordSource,
    message: Option<MessageMetadata>,
) -> (r: Result<RecordMetadata>)
    ensures
        match r {
            Ok(m) => 9 + length <= u64::MAX && m == (RecordMetadata {
                opcode, length, total_len: (9 + length) as u64, offset, source, message,
            }),
            Err(e) => 9 + length > u64::MAX && e == Error::UnexpectedEof(offset),
        },
{
    match 9u64.checked_add(length) {
        Some(total_len) => Ok(RecordMetadata { opcode, length, total_len, offset, source, message }),
        None => Err(Error::UnexpectedEof(offset)),
    }
}

/// The metadata of a message from the first 22 bytes of its record body.
pub fn parse_message_metadata(buf: &[u8], data_size: u64) -> (r: MessageMetadata)
    requires
        buf@.len() >= 22,
    ensures
        r == (MessageMetadata {
            channel_id: u16_at(buf@, 0),
            sequence: u32_at(buf@, 2),
            log_time: u64_at(buf@, 6),
            publish_time: u64_at(buf@, 14),
            data_size,
        }),
{
    let channel_id = read_u16(buf, 0).unwrap();
    let sequence = read_u32(buf, 2).unwrap();
    let log_time = read_u64(buf, 6).unwrap();
    let publish_time = read_u64(buf, 14).unwrap();
    MessageMetadata { channel_id, sequence, log_time, publish_time, data_size }
}

/// `parts` joined with `sep` between neighbours.
pub open spec fn join_with(parts: Seq<Seq<char>>, sep: Seq<char>) -> Seq<char>
    decreases parts.len(),
{
    if parts.len() == 0 {
        Seq::empty()
    } else if parts.len() == 1 {
        parts[0]
    } else {
        join_with(parts.drop_last(), sep) + sep + parts.last()
    }
}

/// The separator of IDL scopes.
pub open spec fn scope_sep() -> Seq<char> {
    seq![':', ':']
}

/// `name` qualified by the enclosing IDL scopes.
pub open spec fn spec_scoped_name(scope: Seq<Seq<char>>, name: Seq<char>) -> Seq<char> {
    if scope.len() == 0 {
        name
    } else {
        join_with(scope, scope_sep()) + scope_sep() + name
    }
}

/// `name` inside the IDL scopes `scope` (`a::b::name`).
pub fn scoped_name(scope: &[String], name: &str) -> (r: String)
    ensures
        r@ == spec_scoped_name(scope@.map_values(|s: String| s@), name@),
{
    let ghost sv = scope@.map_values(|s: String| s@);
    proof { reveal_strlit("::"); }
    if scope.len() == 0 {
        return name.to_owned();
    }
    let mut out = String::from_str(scope[0].as_str());
    let mut k: usize = 1;
    assert(sv.take(1) =~= seq![sv[0]]);
    while k < scope.len()
        invariant
            1 <= k <= scope@.len(),
            sv == scope@.map_values(|s: String| s@),
            out@ == join_with(sv.take(k as int), scope_sep()),
        decreases scope@.len() - k,
    {
        out.append("::");
        out.append(scope[k].as_str());
        proof {
            reveal_strlit("::");
            assert(sv.take(k + 1).drop_last() =~= sv.take(k as int));
            assert(sv.take(k + 1).last() == scope@[k as int]@);
        }
        k += 1;
    }
    assert(sv.take(k as int) =~= sv);
    out.append("::");
    out.append(name);
    proof { reveal_strlit("::"); }
    out
}

/// `s` without leading `::` pairs (as `trim_start_matches("::")`).
pub open spec fn trim_scope_start(s: Seq<char>) -> Seq<char>
    decreases s.len(),
{
    if s.len() >= 2 && s[0] == ':' && s[1] == ':' { trim_scope_start(s.skip(2)) } else { s }
}

/// A root type name in IDL form: each `/` becomes `::`, and leading `::`
/// are dropped.
pub open spec fn spec_normalize_root_name(name: Seq<char>) -> Seq<char> {
    trim_scope_start(join_with(spec_split(name, '/'), scope_sep()))
}

/// `name` with `/` written as `::` and no leading `::`.
pub fn normalize_root_name(name: &str) -> (r: String)
    ensures
        r@ == spec_normalize_root_name(name@),
{
    proof { reveal_strlit("::"); }
    let v = chars_of(name);
    let n = v.len();
    assert(v@.subrange(0, n as int) =~= name@);
    let parts = split_ranges(&v, 0, n, '/');
    let ghost ps = spec_split(name@, '/');
    let mut joined = name.substring_char(parts[0].0, parts[0].1).to_owned();
    assert(0 <= parts@[0].0 <= parts@[0].1 <= n);
    assert(ps.take(1) =~= seq![ps[0]]);
    let mut k: usize = 1;
    while k < parts.len()
        invariant
            1 <= k <= parts@.len(),
            v@ == name@,
            n == v@.len(),
            pieces(v@, parts@) == ps,
            forall|j: int| 0 <= j < parts@.len() ==> 0 <= (#[trigger] parts@[j]).0 <= parts@[j].1 <= n,
            joined@ == join_with(ps.take(k as int), scope_sep()),
        decreases parts@.len() - k,
    {
        assert(0 <= parts@[k as int].0 <= parts@[k as int].1 <= n);
        joined.append("::");
        joined.append(name.substring_char(parts[k].0, parts[k].1));
        proof {
            reveal_strlit("::");
            assert(ps.take(k + 1).drop_last() =~= ps.take(k as int));
            assert(ps.take(k + 1).last() == ps[k as int]);
            assert(ps[k as int] == v@.subrange(parts@[k as int].0 as int, parts@[k as int].1 as int));
        }
        k += 1;
    }
    assert(ps.take(k as int) =~= ps);
    let jv = chars_of(joined.as_str());
    let m = jv.len();
    let mut a: usize = 0;
    assert(jv@.skip(0) =~= jv@);
    while m - a >= 2 && jv[a] == ':' && jv[a + 1] == ':'
        invariant
            a <= m,
            m == jv@.len(),
            jv@ == joined@,
            trim_scope_start(joined@) == trim_scope_start(jv@.skip(a as int)),
        decreases m - a,
    {
        assert(jv@.skip(a as int).skip(2) =~= jv@.skip(a + 2));
        assert(jv@.skip(a as int)[0] == ':' && jv@.skip(a as int)[1] == ':');
        a += 2;
    }
    proof {
        let t = jv@.skip(a as int);
        if t.len() >= 2 {
            assert(t[0] == jv@[a as int] && t[1] == jv@[a + 1]);
        }
    }
    let r = joined.as_str().substring_char(a, m).to_owned();
    assert(r@ =~= jv@.skip(a as int));
    r
}

/// What a consumer asks for messages of one encoding.
#[derive(Debug, Clone, Copy, PartialEq, Eq, Structural)]
pub enum McapParserKind {
    Json,
    Bytes,
    SchemaJson,
    SchemaBytes,
}

/// Whether `c` is `d` once an ASCII upper-case `c` is made lower-case.
pub open spec fn lower_matches(c: char, d: char) -> bool {
    if 'A' <= c <= 'Z' { c as u32 + 32 == d as u32 } else { c == d }
}

/// Whether `s` equals the lower-case `lit` once ASCII upper-case letters of
/// `s` are made lower-case (as `to_ascii_lowercase() == lit`).
pub open spec fn lower_equals(s: Seq<char>, lit: Seq<char>) -> bool {
    s.len() == lit.len() && forall|i: int| 0 <= i < s.len() ==> lower_matches(#[trigger] s[i], lit[i])
}

/// The parser kind named by `kind`, ignoring ASCII case.
pub open spec fn spec_parser_kind(kind: Seq<char>) -> Option<McapParserKind> {
    if lower_equals(kind, "json"@) {
        Some(McapParserKind::Json)
    } else if lower_equals(kind, "bytes"@) {
        Some(McapParserKind::Bytes)
    } else if lower_equals(kind, "schema_json"@) {
        Some(McapParserKind::SchemaJson)
    } else if lower_equals(kind, "schema_bytes"@) {
        Some(McapParserKind::SchemaBytes)
    } else {
        None
    }
}

/// Whether `v` holds `lit` with ASCII case ignored on the `v` side.
fn lower_eq(v: &Vec<char>, lit: &str) -> (r: bool)
    ensures
        r == lower_equals(v@, lit@),
{
    let l = chars_of(lit);
    if v.len() != l.len() {
        return false;
    }
    let mut i: usize = 0;
    while i < v.len()
        invariant
            i <= v@.len(),
            v@.len() == l@.len(),
            l@ == lit@,
            forall|j: int| 0 <= j < i ==> lower_matches(#[trigger] v@[j], l@[j]),
        decreases v@.len() - i,
    {
        let c = v[i];
        let d = l[i];
        let same = if 'A' <= c && c <= 'Z' { (c as u32) + 32 == (d as u32) } else { c == d };
        if !same {
            assert(!lower_matches(v@[i as int], lit@[i as int]));
            return false;
        }
        i += 1;
    }
    true
}

/// The parser kind named by `kind` (`json`, `bytes`, `schema_json`,
/// `schema_bytes`, in any ASCII case); other names are refused.
pub fn parser_kind_from_str(kind: &str) -> (r: core::result::Result<McapParserKind, String>)
    ensures
        match r {
            Ok(k) => spec_parser_kind(kind@) == Some(k),
            Err(m) => spec_parser_kind(kind@) is None && m@ == "unsupported parser kind: "@ + kind@,
        },
{
    let v = chars_of(kind);
    if lower_eq(&v, "json") {
        Ok(McapParserKind::Json)
    } else if lower_eq(&v, "bytes") {
        Ok(McapParserKind::Bytes)
    } else if lower_eq(&v, "schema_json") {
        Ok(McapParserKind::SchemaJson)
    } else if lower_eq(&v, "schema_bytes") {
        Ok(McapParserKind::SchemaBytes)
    } else {
        let mut msg = String::from_str("unsupported parser kind: ");
        msg.append(kind);
        Err(msg)
    }
}

/// A schema-aware message decoder. This crate decodes `ros1msg` schemas.
pub enum SchemaParser {
    /// ROS1 message decoder.
    Ros1(Ros1SchemaParser),
}

impl SchemaParser {
    /// The decoder for `schema`'s encoding; other encodings are refused.
    pub fn from_schema(schema: &Schema) -> (r: Result<SchemaParser>)
        ensures
            r is Ok <==> (schema.encoding@ == "ros1msg"@ && valid_utf8(schema.data@)
                && spec_definitions(decode_utf8(schema.data@), schema.name@) is Some),
            match r {
                Ok(SchemaParser::Ros1(p)) => p.well_formed()
                    && spec_definitions(decode_utf8(schema.data@), schema.name@) == Some(p.messages())
                    && p.root_type() == spec_normalize(schema.name@, schema.name@),
                Err(e) => e is InvalidRecord,
            },
    {
        if str_eq(schema.encoding.as_str(), "ros1msg") {
            match Ros1SchemaParser::from_schema(schema) {
                Ok(p) => Ok(SchemaParser::Ros1(p)),
                Err(e) => Err(e),
            }
        } else {
            let mut msg = String::from_str("Unsupported schema encoding for parser: ");
            msg.append(schema.encoding.as_str());
            Err(Error::InvalidRecord(msg))
        }
    }

    /// The decoder is ready for use (as `from_schema` returns it).
    pub open spec fn well_formed(&self) -> bool {
        match self {
            SchemaParser::Ros1(p) => p.well_formed(),
        }
    }

    /// Decode one message payload into tokens.
    pub fn parse_json(&self, data: &[u8]) -> (r: Result<Vec<RosToken>>)
        requires
            self.well_formed(),
        ensures
            match self {
                SchemaParser::Ros1(p) => match r {
                    Ok(t) => (spec_message(p.messages(), p.root_type(), data@, 0,
                        decode_fuel(p.messages().len(), data@.len())) matches Some((tv, q)) && tokens_view(t@) == tv),
                    Err(e) => spec_message(p.messages(), p.root_type(), data@, 0,
                        decode_fuel(p.messages().len(), data@.len())) is None && e is InvalidRecord,
                },
            },
    {
        match self {
            SchemaParser::Ros1(p) => p.parse_json(data),
        }
    }
}

/// What was found at one channel's message index in a chunk index: the
/// channel, whether the channel filter lets it through, the index's file
/// offset, and the index read there (`None` when it could not be read or
/// is not a message index).
pub struct IndexProbe {
    pub channel_id: u16,
    pub allowed: bool,
    pub offset: u64,
    pub index: Option<MessageIndex>,
}

/// `r` is the probe of channel `channel_id`'s message index at `offset` of `file`.
pub open spec fn probe_of(file: Seq<u8>, channel_id: u16, allowed: bool, offset: u64, r: IndexProbe) -> bool {
    &&& r.channel_id == channel_id
    &&& r.allowed == allowed
    &&& r.offset == offset
    &&& match r.index {
        Some(ix) => spec_index_at(file, offset as int)
            == Some((ix.channel_id, crate::decode::index_entries_view(ix.records@))),
        None => spec_index_at(file, offset as int) is None,
    }
}

/// The probes of a chunk's message indexes, one for each `(channel,
/// offset)` entry of its chunk index, in order, each channel allowed as
/// `allowed` gives.
pub fn chunk_index_probes(file: &[u8], entries: &Vec<(u16, u64)>, allowed: &Vec<bool>) -> (r: Vec<IndexProbe>)
    requires
        allowed@.len() == entries@.len(),
    ensures
        r@.len() == entries@.len(),
        forall|i: int| 0 <= i < r@.len() ==> probe_of(file@, entries@[i].0, allowed@[i], entries@[i].1, #[trigger] r@[i]),
{
    let mut out: Vec<IndexProbe> = Vec::new();
    let mut i: usize = 0;
    while i < entries.len()
        invariant
            allowed@.len() == entries@.len(),
            i <= entries@.len(),
            out@.len() == i,
            forall|j: int| 0 <= j < i ==> probe_of(file@, entries@[j].0, allowed@[j], entries@[j].1, #[trigger] out@[j]),
        decreases entries@.len() - i,
    {
        let (channel_id, offset) = entries[i];
        let p = probe_at(file, channel_id, allowed[i], offset);
        out.push(p);
        i += 1;
    }
    out
}

/// The chunk indexes among the records of `d` from `pos` up to `end`: for
/// each ChunkIndex record that decodes, its chunk's file offset and its
/// `(channel, message index offset)` entries. The walk ends at a record
/// that is truncated or runs past `end`.
pub open spec fn spec_chunk_index_records(d: Seq<u8>, pos: int, end: int) -> Seq<(u64, Seq<(u16, u64)>)>
    decreases d.len() - pos,
{
    if pos >= end {
        Seq::empty()
    } else {
        match spec_record_at(d, pos) {
            None => Seq::empty(),
            Some((op, cs, nx)) => if pos < nx <= d.len() {
                let rest = spec_chunk_index_records(d, nx, end);
                match crate::decode::spec_parse_chunk_index_offsets(d.subrange(cs, nx)) {
                    Some((_a, _b, off, e)) => if op == Opcode::ChunkIndex.byte() { seq![(off, e)] + rest } else { rest },
                    None => rest,
                }
            } else {
                Seq::empty()
            },
        }
    }
}

/// The chunk indexes of a whole file's summary section, found through the
/// Footer record that stands just before the closing magic; none when there
/// is no Footer there that decodes, when it records no summary, or when the
/// summary would start past the Footer.
pub open spec fn spec_summary_chunk_indexes(d: Seq<u8>) -> Seq<(u64, Seq<(u16, u64)>)> {
    if d.len() < 45 {
        Seq::empty()
    } else {
        let at = d.len() - 37;
        match spec_record_at(d, at) {
            Some((op, cs, nx)) => if op == Opcode::Footer.byte() && nx <= d.len() {
                match crate::decode::spec_parse_footer(d.subrange(cs, nx)) {
                    Some((start, _offsets, _crc)) => if start != 0 && start <= at {
                        spec_chunk_index_records(d, start as int, at)
                    } else {
                        Seq::empty()
                    },
                    None => Seq::empty(),
                }
            } else {
                Seq::empty()
            },
            None => Seq::empty(),
        }
    }
}

/// The chunk indexes of a whole file (magic included), by way of its Footer
/// (see `spec_summary_chunk_indexes`).
pub fn summary_chunk_indexes(d: &[u8]) -> (r: Vec<(u64, Vec<(u16, u64)>)>)
    ensures
        chunk_index_records_view(r@) == spec_summary_chunk_indexes(d@),
{
    if d.len() < 45 {
        let r: Vec<(u64, Vec<(u16, u64)>)> = Vec::new();
        assert(chunk_index_records_view(r@) =~= Seq::empty());
        return r;
    }
    let at = d.len() - 37;
    proof { lemma_opcode_byte_round_trip(Opcode::Footer); }
    let empty: Vec<(u64, Vec<(u16, u64)>)> = Vec::new();
    assert(chunk_index_records_view(empty@) =~= Seq::empty());
    match get_record_location(d, at) {
        Some(loc) => {
            if loc.opcode != 2 {
                return empty;
            }
            let content = &d[loc.content_start..loc.next_record_start];
            assert(content@ =~= d@.subrange(loc.content_start as int, loc.next_record_start as int));
            match crate::decode::parse_footer_record(content) {
                Ok(f) => {
                    if f.summary_start != 0 && f.summary_start <= at as u64 {
                        chunk_index_records(d, f.summary_start as usize, at)
                    } else {
                        empty
                    }
                },
                Err(_) => empty,
            }
        },
        None => empty,
    }
}

/// The plain values of chunk index entries.
pub open spec fn chunk_index_records_view(v: Seq<(u64, Vec<(u16, u64)>)>) -> Seq<(u64, Seq<(u16, u64)>)> {
    Seq::new(v.len(), |i: int| (v[i].0, v[i].1@))
}

/// The chunk indexes of a summary section: the ChunkIndex records of
/// `d` from `start` up to `end` (see `spec_chunk_index_records`).
pub fn chunk_index_records(d: &[u8], start: usize, end: usize) -> (r: Vec<(u64, Vec<(u16, u64)>)>)
    ensures
        chunk_index_records_view(r@) == spec_chunk_index_records(d@, start as int, end as int),
{
    let ghost all = spec_chunk_index_records(d@, start as int, end as int);
    let mut out: Vec<(u64, Vec<(u16, u64)>)> = Vec::new();
    let mut pos = start;
    proof { lemma_opcode_byte_round_trip(Opcode::ChunkIndex); }
    while pos < end && pos < d.len()
        invariant
            all == spec_chunk_index_records(d@, start as int, end as int),
            all == chunk_index_records_view(out@) + spec_chunk_index_records(d@, pos as int, end as int),
            Opcode::spec_from_byte(Opcode::ChunkIndex.byte()) == Some(Opcode::ChunkIndex),
        decreases d@.len() - pos,
    {
        let loc = match get_record_location(d, pos) {
            Some(l) => l,
            None => {
                assert(all =~= chunk_index_records_view(out@));
                return out;
            },
        };
        if loc.next_record_start > end {
            assert(spec_chunk_index_records(d@, loc.next_record_start as int, end as int) =~= Seq::empty());
        }
        let ghost rest = spec_chunk_index_records(d@, loc.next_record_start as int, end as int);
        let ghost v0 = out@;
        let content = &d[loc.content_start..loc.next_record_start];
        assert(content@ =~= d@.subrange(loc.content_start as int, loc.next_record_start as int));
        if loc.opcode == 8 {
            match crate::decode::parse_chunk_index_offsets(content) {
                Ok((_a, _b, off, e)) => {
                    out.push((off, e));
                    assert(chunk_index_records_view(out@) =~= chunk_index_records_view(v0).push((off, e@)));
                    assert(chunk_index_records_view(v0) + (seq![(off, e@)] + rest)
                        =~= chunk_index_records_view(v0).push((off, e@)) + rest);
                },
                Err(_) => {},
            }
        } else {
            proof {
                match crate::decode::spec_parse_chunk_index_offsets(content@) {
                    Some(_) => {},
                    None => {},
                }
            }
        }
        pos = loc.next_record_start;
    }
    proof {
        if pos < d@.len() {
            assert(spec_chunk_index_records(d@, pos as int, end as int) =~= Seq::empty());
        } else {
            assert(spec_record_at(d@, pos as int) is None);
        }
        assert(all =~= chunk_index_records_view(out@));
    }
    out
}

/// The message index decoded from the record at `offset` of `file`, when a
/// complete MessageIndex record starts there and decodes.
pub open spec fn spec_index_at(file: Seq<u8>, offset: int) -> Option<(u16, Seq<(u64, u64)>)> {
    if 0 <= offset < file.len() {
        match spec_record_at(file, offset) {
            Some((op, cs, nx)) => if op == Opcode::MessageIndex.byte() {
                crate::decode::spec_parse_message_index(file.subrange(cs, nx))
            } else {
                None
            },
            None => None,
        }
    } else {
        None
    }
}

/// The probe of one channel's message index, read from the whole file
/// `file` at `offset`: the index is `None` when no complete record starts
/// there, when the record there is not a message index, or when it cannot
/// be decoded.
pub fn probe_at(file: &[u8], channel_id: u16, allowed: bool, offset: u64) -> (r: IndexProbe)
    ensures
        r.channel_id == channel_id,
        r.allowed == allowed,
        r.offset == offset,
        match r.index {
            Some(ix) => spec_index_at(file@, offset as int)
                == Some((ix.channel_id, crate::decode::index_entries_view(ix.records@))),
            None => spec_index_at(file@, offset as int) is None,
        },
{
    proof { lemma_opcode_byte_round_trip(Opcode::MessageIndex); }
    if offset >= file.len() as u64 {
        return IndexProbe { channel_id, allowed, offset, index: None };
    }
    let index = match crate::decode::get_record_location(file, offset as usize) {
        Some(loc) => if loc.opcode == Opcode::MessageIndex.as_u8() {
            let content = &file[loc.content_start..loc.next_record_start];
            assert(content@ =~= file@.subrange(loc.content_start as int, loc.next_record_start as int));
            match crate::decode::parse_message_index_record(content) {
                Ok(ix) => Some(ix),
                Err(_) => None,
            }
        } else {
            None
        },
        None => None,
    };
    IndexProbe { channel_id, allowed, offset, index }
}

/// Whether one probed channel may have messages in `[start, end]`: it
/// passes the filter and its index is absent, unreadable, of another
/// channel, or holds a time in range.
pub open spec fn probe_might_match(p: IndexProbe, start: u64, end: u64) -> bool {
    p.allowed && (p.offset == 0 || match p.index {
        None => true,
        Some(ix) => ix.channel_id != p.channel_id || any_in_range(ix.records@, start, end),
    })
}

/// Whether a chunk may hold messages in `[start, end]`, judged from its
/// message indexes (`None`: the chunk index is unknown). Without index
/// information the chunk is kept.
pub fn chunk_might_have_messages_in_range_via_index(probes: Option<&Vec<IndexProbe>>, start: Timestamp, end: Timestamp) -> (r: bool)
    ensures
        r == match probes {
            None => true,
            Some(ps) => ps@.len() == 0 || exists|k: int| 0 <= k < ps@.len() && probe_might_match(#[trigger] ps@[k], start, end),
        },
{
    let ps = match probes {
        None => return true,
        Some(ps) => ps,
    };
    if ps.len() == 0 {
        return true;
    }
    let mut k: usize = 0;
    while k < ps.len()
        invariant
            k <= ps@.len(),
            probes == Some(ps),
            ps@.len() > 0,
            forall|j: int| 0 <= j < k ==> !probe_might_match(#[trigger] ps@[j], start, end),
        decreases ps@.len() - k,
    {
        let p = &ps[k];
        if p.allowed {
            if p.offset == 0 {
                assert(probe_might_match(ps@[k as int], start, end));
                return true;
            }
            match &p.index {
                None => {
                    assert(probe_might_match(ps@[k as int], start, end));
                    return true;
                },
                Some(ix) => {
                    if ix.channel_id != p.channel_id || message_index_has_timestamp_in_range(ix, start, end) {
                        assert(probe_might_match(ps@[k as int], start, end));
                        return true;
                    }
                },
            }
        }
        k += 1;
    }
    false
}

/// How the default parsers treat one message.
#[derive(Debug, Clone, Copy, PartialEq, Eq, Structural)]
pub enum DefaultRoute {
    /// Decode the payload as JSON, CBOR or MessagePack.
    SelfDescribing,
    /// Decode the payload with the schema's parser.
    Schema,
    /// Hand the payload out as bytes.
    Bytes,
}

/// The schema encodings that have a schema parser.
pub open spec fn spec_has_schema_parser(e: Seq<char>) -> bool {
    ||| e == "protobuf"@
    ||| e == "flatbuffer"@
    ||| e == "ros1msg"@
    ||| e == "ros2msg"@
    ||| e == "ros2idl"@
    ||| e == "omgidl"@
}

/// The default parsers' choice for a message of a channel with
/// `message_encoding` and optional `schema`: self-describing encodings and
/// JSON schemas are decoded as values, schemas with a parser go through it,
/// anything else stays bytes.
pub fn default_parse_route(message_encoding: &str, schema: Option<&Schema>) -> (r: DefaultRoute)
    ensures
        r == (if message_encoding@ == "json"@ || message_encoding@ == "cbor"@ || message_encoding@ == "msgpack"@
            || (schema matches Some(s) && spec_is_registry_encoding(s.encoding@) && s.encoding@ == "jsonschema"@) {
            DefaultRoute::SelfDescribing
        } else if schema matches Some(s) && spec_has_schema_parser(s.encoding@) {
            DefaultRoute::Schema
        } else {
            DefaultRoute::Bytes
        }),
{
    if str_eq(message_encoding, "json") || str_eq(message_encoding, "cbor") || str_eq(message_encoding, "msgpack")
        || default_schema_parser_for(schema) == Some(SchemaDefaultParser::Json) {
        return DefaultRoute::SelfDescribing;
    }
    match schema {
        Some(s) => {
            let e = s.encoding.as_str();
            if str_eq(e, "protobuf") || str_eq(e, "flatbuffer") || str_eq(e, "ros1msg") || str_eq(e, "ros2msg")
                || str_eq(e, "ros2idl") || str_eq(e, "omgidl") {
                DefaultRoute::Schema
            } else {
                DefaultRoute::Bytes
            }
        },
        None => DefaultRoute::Bytes,
    }
}

/// Whether `t` lies in the optional inclusive time range.
pub open spec fn spec_in_time_range(time_range: Option<(u64, u64)>, t: u64) -> bool {
    match time_range {
        None => true,
        Some((start, end)) => start <= t <= end,
    }
}

/// Whether a chunk spanning `[chunk_start, chunk_end]` can hold messages
/// of the optional time range.
pub open spec fn spec_chunk_overlaps(time_range: Option<(u64, u64)>, chunk_start: u64, chunk_end: u64) -> bool {
    match time_range {
        None => true,
        Some((start, end)) => !(chunk_end < start || chunk_start > end),
    }
}

/// The time filter keeps a chunk exactly when its log-time span meets the
/// range: with no range every chunk is kept; a chunk whose span holds a
/// time `t` that lies in the range is kept; when the span and the range
/// are proper (start not after end), a kept chunk holds such a time, the
/// later of the two starts; and in general a chunk is kept exactly when it
/// starts no later than the range ends and ends no earlier than the range
/// starts.
pub proof fn lemma_chunk_overlap_meets_range(start: u64, end: u64, chunk_start: u64, chunk_end: u64, t: u64)
    ensures
        spec_chunk_overlaps(None, chunk_start, chunk_end),
        chunk_start <= t <= chunk_end && start <= t <= end
            ==> spec_chunk_overlaps(Some((start, end)), chunk_start, chunk_end),
        chunk_start <= chunk_end && start <= end && spec_chunk_overlaps(Some((start, end)), chunk_start, chunk_end) ==> ({
            let w = if chunk_start > start { chunk_start } else { start };
            chunk_start <= w <= chunk_end && start <= w <= end
        }),
        spec_chunk_overlaps(Some((start, end)), chunk_start, chunk_end)
            <==> (chunk_start <= end && start <= chunk_end),
{
}

/// The time part of the chunk filter: a chunk is skipped when it ends
/// before the range starts or starts after it ends.
pub fn chunk_overlaps_time_range(time_range: Option<(Timestamp, Timestamp)>, chunk_start: Timestamp, chunk_end: Timestamp) -> (r: bool)
    ensures
        r == spec_chunk_overlaps(time_range, chunk_start, chunk_end),
{
    match time_range {
        None => true,
        Some((start, end)) => !(chunk_end < start || chunk_start > end),
    }
}

/// Whether a chunk passes the time filter and, when the chunk's channels
/// are known (`channel_allowed`: for each channel of its index, whether the
/// channel filter lets it through), has a channel that the filter allows.
pub fn chunk_passes_filters(
    chunk: &Chunk,
    time_range: Option<(Timestamp, Timestamp)>,
    channel_allowed: Option<&Vec<bool>>,
) -> (r: bool)
    ensures
        r == (spec_chunk_overlaps(time_range, chunk.message_start_time, chunk.message_end_time)
            && match channel_allowed {
                None => true,
                Some(a) => exists|k: int| 0 <= k < a@.len() && #[trigger] a@[k],
            }),
{
    if !chunk_overlaps_time_range(time_range, chunk.message_start_time, chunk.message_end_time) {
        return false;
    }
    match channel_allowed {
        None => true,
        Some(a) => any_true(a),
    }
}

/// Whether some entry of `a` is true.
fn any_true(a: &Vec<bool>) -> (r: bool)
    ensures
        r == exists|k: int| 0 <= k < a@.len() && #[trigger] a@[k],
{
    let mut k: usize = 0;
    while k < a.len()
        invariant
            k <= a@.len(),
            forall|j: int| 0 <= j < k ==> !#[trigger] a@[j],
        decreases a@.len() - k,
    {
        if a[k] {
            assert(a@[k as int]);
            return true;
        }
        k += 1;
    }
    false
}

/// The filterable metadata of a chunk: its header fields and the size of
/// its compressed records.
pub fn chunk_to_metadata(chunk: &Chunk) -> (r: ChunkMetadata)
    ensures
        r.message_start_time == chunk.message_start_time,
        r.message_end_time == chunk.message_end_time,
        r.uncompressed_size == chunk.uncompressed_size,
        r.uncompressed_crc == chunk.uncompressed_crc,
        r.compression@ == chunk.compression@,
        r.compressed_size == chunk.records@.len(),
{
    ChunkMetadata {
        message_start_time: chunk.message_start_time,
        message_end_time: chunk.message_end_time,
        uncompressed_size: chunk.uncompressed_size,
        uncompressed_crc: chunk.uncompressed_crc,
        compression: chunk.compression.clone(),
        compressed_size: chunk.records.len() as u64,
    }
}

/// The number of entries of the per-channel filter cache: one per `u16`.
pub open spec fn cache_len() -> nat {
    65536
}

/// What the message filter decides before any channel predicate is asked.
#[derive(Debug, Clone, Copy, PartialEq, Eq, Structural)]
pub enum FilterStep {
    /// The message is filtered out.
    Reject,
    /// The message passes.
    Accept,
    /// The channel predicate must be asked for this channel.
    AskPredicate,
}

/// The decision recorded for channel `id` in the cache: `Some(allowed)`, or
/// `None` when the predicate has not been asked yet.
pub open spec fn cached_decision(cache: Seq<u8>, id: u16) -> Option<bool> {
    if id < cache.len() && cache[id as int] == 0 {
        Some(false)
    } else if id < cache.len() && cache[id as int] == 1 {
        Some(true)
    } else {
        None
    }
}

/// The message filter on time and channel, with channel decisions cached
/// per channel id (0: refused, 1: allowed, 2: not asked yet). The cache is
/// sized to one entry per channel id on first use.
pub fn passes_common_filters_cached(
    time_range: Option<(Timestamp, Timestamp)>,
    has_channel_predicate: bool,
    channel_predicate_cache: &mut Vec<u8>,
    channel_id: u16,
    log_time: Timestamp,
) -> (r: FilterStep)
    ensures
        r == (if !spec_in_time_range(time_range, log_time) {
            FilterStep::Reject
        } else if !has_channel_predicate {
            FilterStep::Accept
        } else {
            match cached_decision(old(channel_predicate_cache)@, channel_id) {
                Some(true) => FilterStep::Accept,
                Some(false) => FilterStep::Reject,
                None => FilterStep::AskPredicate,
            }
        }),
        has_channel_predicate && spec_in_time_range(time_range, log_time)
            ==> final(channel_predicate_cache)@.len() == cache_len(),
        forall|id: u16| #[trigger] cached_decision(final(channel_predicate_cache)@, id)
            == cached_decision(old(channel_predicate_cache)@, id),
{
    if let Some((start, end)) = time_range {
        if log_time < start || log_time > end {
            return FilterStep::Reject;
        }
    }
    if !has_channel_predicate {
        return FilterStep::Accept;
    }
    if channel_predicate_cache.len() != 65536 {
        let ghost before = channel_predicate_cache@;
        resize_cache(channel_predicate_cache);
        proof {
            assert forall|id: u16| #[trigger] cached_decision(channel_predicate_cache@, id)
                == cached_decision(before, id) by {
                assert(channel_predicate_cache@[id as int]
                    == if (id as int) < before.len() { before[id as int] } else { 2u8 });
            }
        }
    }
    let c = channel_predicate_cache[channel_id as usize];
    if c == 0 {
        FilterStep::Reject
    } else if c == 1 {
        FilterStep::Accept
    } else {
        FilterStep::AskPredicate
    }
}

/// Bring the cache to one entry per channel id: existing entries kept,
/// new ones "not asked yet" (as `Vec::resize(65536, 2)`).
pub fn resize_cache(cache: &mut Vec<u8>)
    requires
        old(cache)@.len() != cache_len(),
    ensures
        final(cache)@.len() == cache_len(),
        forall|i: int| 0 <= i < cache_len() ==> #[trigger] final(cache)@[i]
            == if i < old(cache)@.len() { old(cache)@[i] } else { 2u8 },
{
    if cache.len() > 65536 {
        cache.truncate(65536);
    } else {
        while cache.len() < 65536
            invariant
                old(cache)@.len() <= cache@.len() <= cache_len(),
                forall|i: int| 0 <= i < cache@.len() ==> #[trigger] cache@[i]
                    == if i < old(cache)@.len() { old(cache)@[i] } else { 2u8 },
            decreases cache_len() - cache@.len(),
        {
            cache.push(2);
        }
    }
}

/// Record the channel predicate's answer for `channel_id` and return it.
pub fn record_channel_decision(channel_predicate_cache: &mut Vec<u8>, channel_id: u16, allows: bool) -> (r: bool)
    requires
        old(channel_predicate_cache)@.len() == cache_len(),
    ensures
        r == allows,
        final(channel_predicate_cache)@.len() == cache_len(),
        cached_decision(final(channel_predicate_cache)@, channel_id) == Some(allows),
        forall|id: u16| id != channel_id ==> #[trigger] cached_decision(final(channel_predicate_cache)@, id)
            == cached_decision(old(channel_predicate_cache)@, id),
{
    let v: u8 = if allows { 1 } else { 0 };
    channel_predicate_cache.set(channel_id as usize, v);
    allows
}

/// Asking the filter again after recording a channel's answer gives that
/// answer without asking the predicate again.
pub proof fn lemma_cached_answer_sticks(cache: Seq<u8>, id: u16, allows: bool)
    requires
        cache.len() == cache_len(),
    ensures
        cached_decision(cache.update(id as int, if allows { 1u8 } else { 0u8 }), id) == Some(allows),
{
}

/// The next Message record at or after `pos` in uncompressed chunk
/// records: its header, where its payload starts and where the next record
/// starts. Records of other kinds are passed over; the scan ends at the
/// first truncated record or message.
pub open spec fn spec_next_chunk_message(s: Seq<u8>, pos: int) -> Option<(MessageHeader, int, int)>
    decreases s.len() - pos,
{
    match spec_record_at(s, pos) {
        Some((op, cs, nx)) => if pos < nx <= s.len() {
            if op == Opcode::Message.byte() {
                match spec_parse_message_header(s.subrange(cs, nx)) {
                    Some(h) => Some((h, cs, nx)),
                    None => None,
                }
            } else {
                spec_next_chunk_message(s, nx)
            }
        } else {
            None
        },
        None => None,
    }
}

/// The next message of a decompressed chunk at or after `position`, and
/// the position after it.
pub fn next_chunk_message(data: &[u8], position: usize) -> (r: Option<(RawMessage, usize)>)
    requires
        data@.len() <= u32::MAX,
    ensures
        match r {
            Some((m, p)) => (spec_next_chunk_message(data@, position as int) matches Some((h, cs, nx))
                && p == nx
                && m.channel_id == h.channel_id && m.sequence == h.sequence
                && m.log_time == h.log_time && m.publish_time == h.publish_time
                && m.payload.well_formed()
                && m.payload@ == data@.subrange(cs + MESSAGE_HEADER_SIZE, nx)),
            None => spec_next_chunk_message(data@, position as int) is None,
        },
{
    let mut pos = position;
    while pos < data.len()
        invariant
            data@.len() <= u32::MAX,
            spec_next_chunk_message(data@, position as int) == spec_next_chunk_message(data@, pos as int),
        decreases data@.len() - pos,
    {
        let loc = match get_record_location(data, pos) {
            Some(l) => l,
            None => return None,
        };
        if loc.opcode == 5 {
            let content = &data[loc.content_start..loc.next_record_start];
            return match parse_message_record(content) {
                Ok(m) => {
                    assert(content@.subrange(MESSAGE_HEADER_SIZE as int, content@.len() as int)
                        =~= data@.subrange(loc.content_start + MESSAGE_HEADER_SIZE, loc.next_record_start as int));
                    Some((m, loc.next_record_start))
                },
                Err(_) => None,
            };
        }
        proof { lemma_opcode_byte_round_trip(Opcode::Message); }
        pos = loc.next_record_start;
    }
    proof {
        assert(spec_record_at(data@, pos as int) is None);
    }
    None
}

/// Stepping through a chunk message by message lists exactly the messages
/// that a scan of the chunk lists, in order: the first is the next message,
/// the rest are those after it, and when there is no next message the scan
/// lists none.
pub proof fn lemma_next_message_heads_scan(s: Seq<u8>, pos: int)
    requires
        0 <= pos,
    ensures
        match spec_next_chunk_message(s, pos) {
            Some((h, cs, nx)) => pos < nx && spec_scan_messages(s, pos)
                == seq![(h.channel_id, h.log_time)] + spec_scan_messages(s, nx),
            None => spec_scan_messages(s, pos) == Seq::<(u16, u64)>::empty(),
        },
    decreases s.len() - pos,
{
    match spec_record_at(s, pos) {
        Some((op, cs, nx)) => {
            if pos < nx <= s.len() && op != Opcode::Message.byte() {
                lemma_next_message_heads_scan(s, nx);
            }
        },
        None => {},
    }
}

/// The next chunk message lies after `pos` and within the records.
pub proof fn lemma_next_chunk_message_bounds(s: Seq<u8>, pos: int)
    requires
        0 <= pos,
    ensures
        spec_next_chunk_message(s, pos) matches Some((h, cs, nx)) ==> pos < nx <= s.len() && pos <= cs <= nx,
    decreases s.len() - pos,
{
    match spec_record_at(s, pos) {
        Some((op, cs, nx)) => {
            if pos < nx <= s.len() && op != Opcode::Message.byte() {
                lemma_next_chunk_message_bounds(s, nx);
            }
        },
        None => {},
    }
}

} // verus!
