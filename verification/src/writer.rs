//! The MCAP writer: header, schemas, channels, messages (top-level or
//! chunked), attachments, metadata, record copying, summary and footer.
//!
//! The writer produces bytes into an [`OutputBuffer`]; the caller takes them
//! out with [`Writer::take_output`] and writes them to its sink.

use vstd::prelude::*;
use crate::chunk::{ChunkOptions, ChunkState, spec_time_range_after, spec_should_flush, spec_chunk_record, spec_flushed};
use crate::decode::{spec_header_payload, spec_message_record};
use crate::encode::{push_len_prefixed_str, push_metadata_map, push_le_u32, push_le_u64, write_magic, write_record, spec_record, str_fits, map_fits};
use crate::error::{Error, Result, invalid, invalid_with};
use crate::format::{Opcode, spec_magic};
use crate::kv::StringMap;
use crate::sink::{OutputBuffer, sat};
use crate::streams::{info_is, ChunkStreams, ChunkIndexInfo, flush_default, flush_overrides_all, flush_override,
    spec_ov_flush, spec_ov_flushed, slots_fit, state_fits, slots_after_flush, indexes_describe, concat_records, lemma_indexes_describe_push};
use crate::types::{Header, Schema, Channel, Metadata, Message, Attachment, Chunk, Record};
use crate::decode::spec_record_header_of;
use crate::decode::{spec_chunk_fields, spec_scan_messages, spec_parse_schema, spec_parse_channel,
    spec_parse_message_header, spec_parse_chunk, spec_parse_attachment_fields, spec_str_at, parse_schema_record,
    parse_channel_record, parse_message_header_from_content, parse_chunk_record, parse_attachment_index_fields,
    parse_metadata_name};
use crate::crc::{crc32, spec_crc32};
use crate::encode::{le64, le32, spec_footer, encode_footer, encode_data_end, spec_str, spec_map, push_record_header};
use crate::format::str_bytes;
use crate::summary::{schemas_bytes, channels_bytes, chunk_indexes_bytes, attachment_indexes_bytes,
    metadata_indexes_bytes, spec_statistics_payload, push_schema_records, push_channel_records,
    push_chunk_index_records, push_attachment_index_records, push_metadata_index_records,
    encode_statistics_payload};
use crate::summary::{spec_schema_record, spec_channel_record, encode_schema_payload, encode_channel_payload, schema_fits, channel_fits, attachment_info_fits, SchemaView, ChannelView, schema_views,
    channel_views, schema_view, channel_view};

verus! {

/// Writer validation level.
#[derive(Debug, Clone, Copy, PartialEq, Eq, Structural)]
pub enum Validation {
    /// Enforce record ordering and required metadata (recommended).
    Strict,
    /// Skip validation checks; may produce invalid MCAP if misused.
    Permissive,
}

impl Validation {
    /// The default validation level, `Strict`.
    pub fn default() -> (r: Validation)
        ensures
            r == Validation::Strict,
    {
        Validation::Strict
    }
}

/// A schema definition used when creating channels via [`Writer::add_channel`].
#[derive(Debug, Clone)]
pub struct SchemaSpec {
    /// Schema name, e.g. `pkg/Msg`.
    pub name: String,
    /// Schema encoding, e.g. `jsonschema`.
    pub encoding: String,
    /// Schema data bytes.
    pub data: Vec<u8>,
}

impl SchemaSpec {
    /// Create a new schema spec.
    pub fn new(name: String, encoding: String, data: Vec<u8>) -> (r: SchemaSpec)
        ensures
            r.name == name,
            r.encoding == encoding,
            r.data == data,
    {
        SchemaSpec { name, encoding, data }
    }
}

/// A channel definition used when creating channels via [`Writer::add_channel`].
#[derive(Debug, Clone)]
pub struct ChannelSpec {
    /// Topic name, e.g. `/tf`.
    pub topic: String,
    /// Message encoding, e.g. `cdr`.
    pub message_encoding: String,
    /// Optional schema definition. When `None`, the channel uses `schema_id = 0`.
    pub schema: Option<SchemaSpec>,
    /// Channel metadata map.
    pub metadata: StringMap,
    /// When `Some`, messages on this channel land in their own dedicated chunk stream.
    pub chunk_override: Option<ChunkOptions>,
}

impl ChannelSpec {
    /// Create a new channel spec without a schema.
    pub fn new(topic: String, message_encoding: String) -> (r: ChannelSpec)
        ensures
            r.topic == topic,
            r.message_encoding == message_encoding,
            r.schema is None,
            r.metadata@ == Seq::<(Seq<char>, Seq<char>)>::empty(),
            r.metadata.well_formed(),
            r.chunk_override is None,
    {
        ChannelSpec {
            topic,
            message_encoding,
            schema: None,
            metadata: StringMap::new(),
            chunk_override: None,
        }
    }

    /// Set the channel schema.
    pub fn schema(self, schema: SchemaSpec) -> (r: ChannelSpec)
        ensures
            r.topic == self.topic,
            r.message_encoding == self.message_encoding,
            r.schema == Some(schema),
            r.metadata == self.metadata,
            r.chunk_override == self.chunk_override,
    {
        let mut s = self;
        s.schema = Some(schema);
        s
    }

    /// Set the channel metadata map.
    pub fn metadata(self, metadata: StringMap) -> (r: ChannelSpec)
        ensures
            r.topic == self.topic,
            r.message_encoding == self.message_encoding,
            r.schema == self.schema,
            r.metadata == metadata,
            r.chunk_override == self.chunk_override,
    {
        let mut s = self;
        s.metadata = metadata;
        s
    }

    /// Route this channel's messages into a dedicated chunk stream configured by `options`.
    pub fn chunk_override(self, options: ChunkOptions) -> (r: ChannelSpec)
        ensures
            r.topic == self.topic,
            r.message_encoding == self.message_encoding,
            r.schema == self.schema,
            r.metadata == self.metadata,
            r.chunk_override == Some(options),
    {
        let mut s = self;
        s.chunk_override = Some(options);
        s
    }

    /// Route this channel into a dedicated uncompressed chunk stream with
    /// the default size threshold and CRCs.
    pub fn uncompressed_chunks(self) -> (r: ChannelSpec)
        ensures
            r.topic == self.topic,
            r.message_encoding == self.message_encoding,
            r.schema == self.schema,
            r.metadata == self.metadata,
            r.chunk_override matches Some(o) && o.compression is None
                && o.max_uncompressed_bytes == crate::chunk::DEFAULT_CHUNK_MAX_UNCOMPRESSED_BYTES
                && o.include_crc,
    {
        let mut s = self;
        let d = ChunkOptions::default();
        s.chunk_override = Some(ChunkOptions { compression: None, ..d });
        s
    }
}

/// Per-channel message statistics.
#[derive(Debug, Clone, Copy, PartialEq, Eq, Structural)]
pub struct ChannelStats {
    /// Messages written on the channel (saturating).
    pub message_count: u64,
    /// Earliest log time.
    pub message_start_time: u64,
    /// Latest log time.
    pub message_end_time: u64,
    /// Whether any message was written.
    pub has_messages: bool,
}

/// Statistics of a channel with no messages.
pub open spec fn stats_default() -> ChannelStats {
    ChannelStats { message_count: 0, message_start_time: 0, message_end_time: 0, has_messages: false }
}

/// The statistics after one more message at log time `t`.
pub open spec fn spec_update_entry(e: ChannelStats, t: u64) -> ChannelStats {
    ChannelStats {
        message_count: sat(e.message_count + 1),
        message_start_time: spec_time_range_after(e.has_messages, e.message_start_time, e.message_end_time, t).0,
        message_end_time: spec_time_range_after(e.has_messages, e.message_start_time, e.message_end_time, t).1,
        has_messages: true,
    }
}

/// The per-channel statistics after one more message on `ch` at log time `t`;
/// the table grows with empty entries to reach `ch`.
pub open spec fn spec_update_stats(s: Seq<ChannelStats>, ch: u16, t: u64) -> Seq<ChannelStats> {
    let grown = if s.len() <= ch {
        s + Seq::new((ch + 1 - s.len()) as nat, |i: int| stats_default())
    } else {
        s
    };
    grown.update(ch as int, spec_update_entry(grown[ch as int], t))
}

/// The statistics after the messages `msgs` (channel, log time), in order.
pub open spec fn spec_update_stats_all(s: Seq<ChannelStats>, msgs: Seq<(u16, u64)>) -> Seq<ChannelStats>
    decreases msgs.len(),
{
    if msgs.len() == 0 {
        s
    } else {
        spec_update_stats_all(spec_update_stats(s, msgs[0].0, msgs[0].1), msgs.drop_first())
    }
}

/// Channel `ch` has messages and its recorded span holds log time `t`.
pub open spec fn stats_cover(s: Seq<ChannelStats>, ch: u16, t: u64) -> bool {
    &&& (ch as int) < s.len()
    &&& s[ch as int].has_messages
    &&& s[ch as int].message_start_time <= t <= s[ch as int].message_end_time
}

/// One more message keeps every span that held a log time holding it, and
/// makes its own channel's span hold its log time.
proof fn lemma_update_stats_cover(s: Seq<ChannelStats>, ch: u16, t: u64, c: u16, u: u64)
    ensures
        stats_cover(spec_update_stats(s, ch, t), ch, t),
        stats_cover(s, c, u) ==> stats_cover(spec_update_stats(s, ch, t), c, u),
{
    let grown = if s.len() <= ch {
        s + Seq::new((ch + 1 - s.len()) as nat, |i: int| stats_default())
    } else {
        s
    };
    assert(grown.len() > ch);
    if stats_cover(s, c, u) {
        assert(grown[c as int] == s[c as int]);
    }
}

/// One more message on each of `msgs` keeps every span that held a log time holding it.
proof fn lemma_update_stats_all_keeps(s: Seq<ChannelStats>, msgs: Seq<(u16, u64)>, c: u16, u: u64)
    requires
        stats_cover(s, c, u),
    ensures
        stats_cover(spec_update_stats_all(s, msgs), c, u),
    decreases msgs.len(),
{
    if msgs.len() > 0 {
        lemma_update_stats_cover(s, msgs[0].0, msgs[0].1, c, u);
        lemma_update_stats_all_keeps(spec_update_stats(s, msgs[0].0, msgs[0].1), msgs.drop_first(), c, u);
    }
}

/// After messages `msgs` (channel, log time), every message's channel has
/// messages and its recorded span holds the message's log time.
pub proof fn lemma_stats_cover_messages(s: Seq<ChannelStats>, msgs: Seq<(u16, u64)>)
    ensures
        forall|k: int| 0 <= k < msgs.len() ==> stats_cover(spec_update_stats_all(s, msgs), (#[trigger] msgs[k]).0, msgs[k].1),
    decreases msgs.len(),
{
    if msgs.len() > 0 {
        let s1 = spec_update_stats(s, msgs[0].0, msgs[0].1);
        let rest = msgs.drop_first();
        lemma_stats_cover_messages(s1, rest);
        lemma_update_stats_cover(s, msgs[0].0, msgs[0].1, msgs[0].0, msgs[0].1);
        lemma_update_stats_all_keeps(s1, rest, msgs[0].0, msgs[0].1);
        assert forall|k: int| 0 <= k < msgs.len() implies stats_cover(spec_update_stats_all(s, msgs), (#[trigger] msgs[k]).0, msgs[k].1) by {
            if k > 0 {
                assert(msgs[k] == rest[k - 1]);
            }
        }
    }
}

/// The Statistics record of a file spans every message written: for
/// messages `msgs` (channel, log time) on channels from 1, its start time
/// is no later, and its end time no earlier, than each message's log time.
pub proof fn lemma_statistics_span_messages(
    schema_count: nat,
    channel_count: nat,
    attachment_count: nat,
    metadata_count: nat,
    chunk_count: nat,
    s: Seq<ChannelStats>,
    msgs: Seq<(u16, u64)>,
    k: int,
)
    requires
        0 <= k < msgs.len(),
        msgs[k].0 != 0,
    ensures
        ({
            let p = spec_statistics_payload(schema_count, channel_count, attachment_count, metadata_count, chunk_count,
                spec_update_stats_all(s, msgs));
            crate::decode::u64_at(p, 26) <= msgs[k].1 <= crate::decode::u64_at(p, 34)
        }),
{
    lemma_stats_cover_messages(s, msgs);
    let st = spec_update_stats_all(s, msgs);
    assert(stats_cover(st, msgs[k].0, msgs[k].1));
    crate::summary::lemma_statistics_times(schema_count, channel_count, attachment_count, metadata_count, chunk_count, st);
    let i = msgs[k].0 as int;
    assert(1 <= i < st.len() && st[i].has_messages);
}

/// Update the statistics of channel `channel_id` for a message at `log_time`.
fn update_channel_stats(stats: &mut Vec<ChannelStats>, channel_id: u16, log_time: u64)
    ensures
        final(stats)@ == spec_update_stats(old(stats)@, channel_id, log_time),
{
    let idx = channel_id as usize;
    let ghost s0 = stats@;
    while stats.len() <= idx
        invariant
            s0.len() <= idx + 1 ==> stats@.len() <= idx + 1,
            stats@.len() >= s0.len(),
            stats@.subrange(0, s0.len() as int) == s0,
            forall|k: int| s0.len() <= k < stats@.len() ==> #[trigger] stats@[k] == stats_default(),
            s0.len() > idx ==> stats@ == s0,
        decreases idx + 1 - stats@.len(),
    {
        stats.push(ChannelStats { message_count: 0, message_start_time: 0, message_end_time: 0, has_messages: false });
    }
    proof {
        let grown = if s0.len() <= channel_id {
            s0 + Seq::new((channel_id + 1 - s0.len()) as nat, |i: int| stats_default())
        } else {
            s0
        };
        assert(stats@ =~= grown);
    }
    let mut e = stats[idx];
    e.message_count = e.message_count.saturating_add(1);
    if !e.has_messages {
        e.message_start_time = log_time;
        e.message_end_time = log_time;
        e.has_messages = true;
    } else {
        if log_time < e.message_start_time {
            e.message_start_time = log_time;
        }
        if log_time > e.message_end_time {
            e.message_end_time = log_time;
        }
    }
    stats.set(idx, e);
}

/// Index entry of an attachment already written.
#[derive(Debug, Clone)]
pub struct AttachmentIndexInfo {
    /// File offset of the record.
    pub offset: u64,
    /// Total length of the record.
    pub length: u64,
    /// Log timestamp.
    pub log_time: u64,
    /// Creation timestamp.
    pub create_time: u64,
    /// Size of the attachment data.
    pub data_size: u64,
    /// Attachment name.
    pub name: String,
    /// Attachment media type.
    pub media_type: String,
}

/// Index entry of a metadata record already written.
#[derive(Debug, Clone)]
pub struct MetadataIndexInfo {
    /// File offset of the record.
    pub offset: u64,
    /// Total length of the record.
    pub length: u64,
    /// Metadata name.
    pub name: String,
}

/// Identity of a schema, used to reuse schema ids for identical schemas.
#[derive(Debug, Clone)]
pub struct SchemaKey {
    /// Schema name.
    pub name: String,
    /// Schema encoding.
    pub encoding: String,
    /// Schema data.
    pub data: Vec<u8>,
}

/// The bytes that open a file: magic and the Header record.
pub open spec fn spec_header_bytes(h: Header) -> Seq<u8> {
    spec_magic() + spec_record(Opcode::Header.byte(), spec_header_payload(h.profile@, h.library@, h.metadata@))
}

/// A header whose strings and metadata fit their length fields.
pub open spec fn header_fits(h: Header) -> bool {
    str_fits(h.profile@) && str_fits(h.library@) && map_fits(h.metadata@)
}

/// The Chunk record written for the default stream when it is due for a flush, if any.
pub open spec fn spec_default_flush(d: Option<ChunkState>, force: bool) -> Seq<u8> {
    match d {
        Some(st) => if spec_should_flush(st, force) {
            spec_chunk_record(st)
        } else {
            Seq::empty()
        },
        None => Seq::empty(),
    }
}

/// The states flushed from the default stream, if it is due.
pub open spec fn default_flushed(d: Option<ChunkState>, force: bool) -> Seq<ChunkState> {
    match d {
        Some(st) => if spec_should_flush(st, force) { seq![st] } else { Seq::empty() },
        None => Seq::empty(),
    }
}

/// The default stream after a flush pass: emptied if it was due, else unchanged.
pub open spec fn default_after_flush(a: Option<ChunkState>, b: Option<ChunkState>, force: bool) -> bool {
    match a {
        Some(st) => if spec_should_flush(st, force) {
            b matches Some(n) && spec_flushed(st, n)
        } else {
            b == a
        },
        None => b == a,
    }
}

/// The bytes of a flush pass: due override chunks in slot order, then the due default chunk.
pub open spec fn spec_flush_bytes(ov: Seq<Option<ChunkState>>, d: Option<ChunkState>, force: bool) -> Seq<u8> {
    spec_ov_flush(ov, 0, force) + spec_default_flush(d, force)
}

/// The chunks of `b` are those of `a` after a flush pass whose chunk records
/// start at file position `base`.
pub open spec fn streams_flushed(a: Writer, b: Writer, force: bool, base: int) -> bool {
    &&& slots_after_flush(a.override_streams(), b.override_streams(), force)
    &&& default_after_flush(a.default_stream(), b.default_stream(), force)
    &&& b.chunk_indexes().len() >= a.chunk_indexes().len()
    &&& b.chunk_indexes().subrange(0, a.chunk_indexes().len() as int) == a.chunk_indexes()
    &&& indexes_describe(
        b.chunk_indexes().subrange(a.chunk_indexes().len() as int, b.chunk_indexes().len() as int),
        spec_ov_flushed(a.override_streams(), 0, force) + default_flushed(a.default_stream(), force),
        base,
    )
}

/// A SummaryOffset record for a group of `n` bytes starting at file position
/// `start`; nothing for an empty group.
pub open spec fn offset_rec(op: Opcode, start: int, n: nat) -> Seq<u8> {
    if n > 0 {
        spec_record(
            Opcode::SummaryOffset.byte(),
            seq![op.byte()] + le64(sat(start)) + le64((sat(start + n) - sat(start)) as u64),
        )
    } else {
        Seq::empty()
    }
}

/// The Statistics record of a writer's state.
pub open spec fn spec_statistics_record(w: Writer) -> Seq<u8> {
    spec_record(
        Opcode::Statistics.byte(),
        spec_statistics_payload(
            w.schemas().len(),
            w.channels().len(),
            w.attachment_indexes().len(),
            w.metadata_indexes().len(),
            w.chunk_indexes().len(),
            w.stats(),
        ),
    )
}

/// The summary records of a writer's state, in group order: schemas, channels,
/// statistics, chunk indexes, attachment indexes, metadata indexes.
pub open spec fn spec_summary_records(w: Writer) -> Seq<u8> {
    schemas_bytes(w.schemas()) + channels_bytes(w.channels()) + spec_statistics_record(w)
        + chunk_indexes_bytes(w.chunk_indexes()) + attachment_indexes_bytes(w.attachment_indexes())
        + metadata_indexes_bytes(w.metadata_indexes())
}

/// The SummaryOffset records of six groups of `n1`..`n6` bytes, back to back from `base`.
pub open spec fn spec_offsets_from(base: int, n1: nat, n2: nat, n3: nat, n4: nat, n5: nat, n6: nat) -> Seq<u8> {
    offset_rec(Opcode::Schema, base, n1)
        + offset_rec(Opcode::Channel, base + n1, n2)
        + offset_rec(Opcode::Statistics, base + n1 + n2, n3)
        + offset_rec(Opcode::ChunkIndex, base + n1 + n2 + n3, n4)
        + offset_rec(Opcode::AttachmentIndex, base + n1 + n2 + n3 + n4, n5)
        + offset_rec(Opcode::MetadataIndex, base + n1 + n2 + n3 + n4 + n5, n6)
}

/// The SummaryOffset records of a summary written at file position `base`.
pub open spec fn spec_summary_offsets(w: Writer, base: int) -> Seq<u8> {
    spec_offsets_from(
        base,
        schemas_bytes(w.schemas()).len(),
        channels_bytes(w.channels()).len(),
        spec_statistics_record(w).len(),
        chunk_indexes_bytes(w.chunk_indexes()).len(),
        attachment_indexes_bytes(w.attachment_indexes()).len(),
        metadata_indexes_bytes(w.metadata_indexes()).len(),
    )
}

/// Whether a summary section is written at finish: when forced, or when the
/// file has any schema, channel, chunk, attachment, metadata or message.
pub open spec fn spec_should_write_summary(w: Writer) -> bool {
    ||| w.forces_summary()
    ||| w.schemas().len() > 0
    ||| w.channels().len() > 0
    ||| w.chunk_indexes().len() > 0
    ||| w.attachment_indexes().len() > 0
    ||| w.metadata_indexes().len() > 0
    ||| exists|i: int| 0 <= i < w.stats().len() && (#[trigger] w.stats()[i]).has_messages
}

/// What finish writes after the DataEnd record, which ends at file position
/// `base`: the summary section if any, the Footer record, and the closing magic.
pub open spec fn spec_finish_tail(w: Writer, base: int) -> Seq<u8> {
    let rec = spec_summary_records(w);
    (if spec_should_write_summary(w) {
        rec + spec_summary_offsets(w, base)
            + spec_record(Opcode::Footer.byte(), spec_footer(sat(base), sat(base + rec.len()), spec_crc32(rec)))
    } else {
        spec_record(Opcode::Footer.byte(), spec_footer(0, 0, 0))
    }) + spec_magic()
}

/// The DataEnd record written by finish (no data-section CRC).
pub open spec fn spec_data_end_record() -> Seq<u8> {
    spec_record(Opcode::DataEnd.byte(), le32(0))
}

/// `b` is `a` after the steps that open an operation: header written, due
/// chunks flushed; the file header, the finished flag and the summary policy
/// are unchanged.
pub open spec fn opened_keep(a: Writer, b: Writer) -> bool {
    &&& b.header_written()
    &&& streams_flushed(a, b, false, a.start_position() + (a.bytes() + a.spec_header_part()).len())
    &&& b.file_header() == a.file_header()
    &&& b.is_finished() == a.is_finished()
    &&& b.forces_summary() == a.forces_summary()
    &&& b.start_position() == a.start_position()
}

/// Schemas, channels, ids and message statistics are unchanged.
pub open spec fn same_registry(a: Writer, b: Writer) -> bool {
    &&& b.schemas() == a.schemas()
    &&& b.channels() == a.channels()
    &&& b.next_schema() == a.next_schema()
    &&& b.next_channel() == a.next_channel()
    &&& b.stats() == a.stats()
    &&& b.schema_key_table() == a.schema_key_table()
}

/// The Metadata record payload.
pub open spec fn spec_metadata_payload(name: Seq<char>, entries: Seq<(Seq<char>, Seq<char>)>) -> Seq<u8> {
    spec_str(name) + spec_map(entries)
}

/// A metadata record whose fields fit their length fields.
pub open spec fn metadata_fits(m: Metadata) -> bool {
    &&& str_fits(m.name@)
    &&& map_fits(m.metadata@)
    &&& spec_metadata_payload(m.name@, m.metadata@).len() + 9 <= u64::MAX
}

/// The Attachment record payload.
pub open spec fn spec_attachment_payload(
    log_time: u64,
    create_time: u64,
    name: Seq<char>,
    media_type: Seq<char>,
    data: Seq<u8>,
) -> Seq<u8> {
    le64(log_time) + le64(create_time) + spec_str(name) + spec_str(media_type) + le64(data.len() as u64) + data
        + le32(spec_crc32(data))
}

/// An attachment whose fields fit their length fields.
pub open spec fn attachment_fits(name: Seq<char>, media_type: Seq<char>, data: Seq<u8>) -> bool {
    &&& str_fits(name)
    &&& str_fits(media_type)
    &&& 45 + str_bytes(name).len() + str_bytes(media_type).len() + data.len() <= u64::MAX
}

/// `s` with the schema of id `x.0` replaced by `x`, or `x` appended when no schema has that id.
pub open spec fn upsert_schema(s: Seq<SchemaView>, x: SchemaView) -> Seq<SchemaView> {
    if exists|i: int| 0 <= i < s.len() && (#[trigger] s[i]).0 == x.0 {
        s.update(choose|i: int| 0 <= i < s.len() && (#[trigger] s[i]).0 == x.0, x)
    } else {
        s.push(x)
    }
}

/// `c` with the channel of id `x.0` replaced by `x`, or `x` appended when no channel has that id.
pub open spec fn upsert_channel(c: Seq<ChannelView>, x: ChannelView) -> Seq<ChannelView> {
    if exists|i: int| 0 <= i < c.len() && (#[trigger] c[i]).0 == x.0 {
        c.update(choose|i: int| 0 <= i < c.len() && (#[trigger] c[i]).0 == x.0, x)
    } else {
        c.push(x)
    }
}

/// The schema key table with `(name, encoding, data)` mapped to `id`.
pub open spec fn upsert_key(
    t: Seq<(Seq<char>, Seq<char>, Seq<u8>, u16)>,
    name: Seq<char>,
    encoding: Seq<char>,
    data: Seq<u8>,
    id: u16,
) -> Seq<(Seq<char>, Seq<char>, Seq<u8>, u16)> {
    if exists|i: int| 0 <= i < t.len() && (#[trigger] t[i]).0 == name && t[i].1 == encoding && t[i].2 == data {
        t.update(
            choose|i: int| 0 <= i < t.len() && (#[trigger] t[i]).0 == name && t[i].1 == encoding && t[i].2 == data,
            (name, encoding, data, id),
        )
    } else {
        t.push((name, encoding, data, id))
    }
}

/// Two schema key table entries name the same schema content.
pub open spec fn same_key(a: (Seq<char>, Seq<char>, Seq<u8>, u16), b: (Seq<char>, Seq<char>, Seq<u8>, u16)) -> bool {
    a.0 == b.0 && a.1 == b.1 && a.2 == b.2
}

/// No schema content occurs twice in the key table.
pub open spec fn keys_distinct(t: Seq<(Seq<char>, Seq<char>, Seq<u8>, u16)>) -> bool {
    forall|a: int, b: int| 0 <= a < b < t.len() ==> !same_key(#[trigger] t[a], #[trigger] t[b])
}

/// The plain values of a schema key table.
pub open spec fn key_table_view(t: Seq<(SchemaKey, u16)>) -> Seq<(Seq<char>, Seq<char>, Seq<u8>, u16)> {
    Seq::new(t.len(), |i: int| (t[i].0.name@, t[i].0.encoding@, t[i].0.data@, t[i].1))
}

/// Whether a compression name means the records are stored as they are.
pub fn is_uncompressed_name(c: &String) -> (r: bool)
    ensures
        r == uncompressed_name(c@),
{
    let s = c.as_str();
    let n = s.unicode_len();
    if n == 0 {
        assert(c@ =~= Seq::<char>::empty());
        return true;
    }
    proof { reveal_strlit("none"); }
    if n == 4 && s.get_char(0) == 'n' && s.get_char(1) == 'o' && s.get_char(2) == 'n' && s.get_char(3) == 'e' {
        assert(c@ =~= "none"@);
        true
    } else {
        assert(c@ != "none"@ || c@.len() == 4);
        false
    }
}

/// Whether two byte strings are equal.
pub fn bytes_eq(a: &[u8], b: &[u8]) -> (r: bool)
    ensures
        r == (a@ == b@),
{
    if a.len() != b.len() {
        return false;
    }
    let mut i: usize = 0;
    while i < a.len()
        invariant
            i <= a@.len(),
            a@.len() == b@.len(),
            forall|k: int| 0 <= k < i ==> a@[k] == b@[k],
        decreases a@.len() - i,
    {
        if a[i] != b[i] {
            return false;
        }
        i += 1;
    }
    assert(a@ =~= b@);
    true
}

/// The next id to hand out after a record with id `id` was registered.
pub open spec fn next_id_after(next: u16, id: u16) -> u16 {
    let bumped: u16 = if id == u16::MAX { u16::MAX } else { (id + 1) as u16 };
    if next >= bumped { next } else { bumped }
}

/// The override slots after registering `st` at slot `idx`, growing the table with empty slots.
pub open spec fn spec_set_slot(ov: Seq<Option<ChunkState>>, idx: int, st: ChunkState) -> Seq<Option<ChunkState>> {
    let grown = if ov.len() <= idx {
        ov + Seq::new((idx + 1 - ov.len()) as nat, |i: int| None::<ChunkState>)
    } else {
        ov
    };
    grown.update(idx, Some(st))
}

/// A fresh chunk stream with the given options.
pub open spec fn fresh_stream(st: ChunkState, options: ChunkOptions) -> bool {
    &&& st.options == options
    &&& st.records@ == Seq::<u8>::empty()
    &&& !st.has_messages
    &&& st.message_start_time == 0
    &&& st.message_end_time == 0
}

/// The id registered for schema content `(name, encoding, data)`, if any.
pub open spec fn lookup_key(t: Seq<(Seq<char>, Seq<char>, Seq<u8>, u16)>, name: Seq<char>, encoding: Seq<char>, data: Seq<u8>) -> Option<u16> {
    if exists|i: int| 0 <= i < t.len() && (#[trigger] t[i]).0 == name && t[i].1 == encoding && t[i].2 == data {
        Some(t[choose|i: int| 0 <= i < t.len() && (#[trigger] t[i]).0 == name && t[i].1 == encoding && t[i].2 == data].3)
    } else {
        None
    }
}

/// The override slots `b` are `a` with a fresh stream for `options` registered at slot `idx`.
pub open spec fn slot_registered(a: Seq<Option<ChunkState>>, b: Seq<Option<ChunkState>>, idx: int, options: ChunkOptions) -> bool {
    &&& b.len() == (if a.len() <= idx { idx + 1 } else { a.len() as int })
    &&& b[idx] matches Some(st) && fresh_stream(st, options)
    &&& forall|j: int| 0 <= j < b.len() && j != idx ==> #[trigger] b[j] == (if j < a.len() { a[j] } else { None })
}

/// `id + 1`, saturating at `u16::MAX`.
pub open spec fn bump(id: u16) -> u16 {
    if id == u16::MAX { u16::MAX } else { (id + 1) as u16 }
}

/// A chunk override that this build cannot write: a compressed one.
pub open spec fn unsupported_override(o: Option<ChunkOptions>) -> bool {
    o matches Some(opts) && opts.compression is Some
}

/// `p` is `st` with one more Message record buffered.
pub open spec fn pushed(st: ChunkState, p: ChunkState, channel_id: u16, sequence: u32, log_time: u64,
    publish_time: u64, data: Seq<u8>) -> bool {
    &&& p.options == st.options
    &&& p.records@ == st.records@ + spec_message_record(channel_id, sequence, log_time, publish_time, data)
    &&& p.has_messages
    &&& (p.message_start_time, p.message_end_time) == spec_time_range_after(
        st.has_messages, st.message_start_time, st.message_end_time, log_time)
}

/// A chunk stream can take a Message record of `n` data bytes without its
/// Chunk record length overflowing.
pub open spec fn has_room(st: ChunkState, n: nat) -> bool {
    st.records@.len() + 31 + n + 49 <= u64::MAX
}

/// The effect of a message written through the default path: the header if
/// needed; then either a top-level Message record (not chunked), or the message
/// buffered into the default chunk stream followed by a flush pass.
pub open spec fn message_written_default(a: Writer, b: Writer, ch: u16, seq: u32, lt: u64, pt: u64, data: Seq<u8>) -> bool {
            &&& b.header_written()
            &&& b.stats() == spec_update_stats(a.stats(), ch, lt)
            &&& b.schemas() == a.schemas()
            &&& b.channels() == a.channels()
            &&& b.attachment_indexes() == a.attachment_indexes()
            &&& b.metadata_indexes() == a.metadata_indexes()
            &&& b.is_finished() == a.is_finished()
            &&& b.file_header() == a.file_header()
            &&& b.start_position() == a.start_position()
            &&& match a.default_stream() {
                None => {
                    &&& b.bytes() == a.bytes() + a.spec_header_part()
                        + spec_message_record(ch, seq, lt, pt, data)
                    &&& b.override_streams() == a.override_streams()
                    &&& b.default_stream() == a.default_stream()
                    &&& b.chunk_indexes() == a.chunk_indexes()
                },
                Some(st) => exists|mid: Writer| {
                    &&& mid.override_streams() == a.override_streams()
                    &&& mid.chunk_indexes() == a.chunk_indexes()
                    &&& mid.default_stream() matches Some(p)
                        && pushed(st, p, ch, seq, lt, pt, data)
                    &&& #[trigger] streams_flushed(mid, b, false,
                        a.start_position() + (a.bytes() + a.spec_header_part()).len())
                    &&& b.bytes() == a.bytes() + a.spec_header_part()
                        + spec_flush_bytes(mid.override_streams(), mid.default_stream(), false)
                },
            }
        
}

/// The effect of a message written to its channel's own chunk stream: the
/// header if needed, the message buffered into stream `ch`, and that stream
/// flushed if due.
pub open spec fn message_written_override(a: Writer, b: Writer, ch: u16, seq: u32, lt: u64, pt: u64, data: Seq<u8>) -> bool {
    &&& b.header_written()
    &&& b.stats() == spec_update_stats(a.stats(), ch, lt)
    &&& b.schemas() == a.schemas()
    &&& b.channels() == a.channels()
    &&& b.attachment_indexes() == a.attachment_indexes()
    &&& b.metadata_indexes() == a.metadata_indexes()
    &&& b.is_finished() == a.is_finished()
    &&& b.file_header() == a.file_header()
    &&& b.start_position() == a.start_position()
    &&& b.default_stream() == a.default_stream()
    &&& b.override_streams().len() == a.override_streams().len()
    &&& forall|j: int| 0 <= j < a.override_streams().len() && j != ch ==>
        #[trigger] b.override_streams()[j] == a.override_streams()[j]
    &&& exists|p: ChunkState| {
        &&& #[trigger] pushed(a.override_streams()[ch as int]->Some_0, p, ch, seq, lt, pt, data)
        &&& if spec_should_flush(p, false) {
            &&& b.bytes() == a.bytes() + a.spec_header_part() + spec_chunk_record(p)
            &&& b.override_streams()[ch as int] matches Some(n) && spec_flushed(p, n)
            &&& b.chunk_indexes().len() == a.chunk_indexes().len() + 1
            &&& b.chunk_indexes().drop_last() == a.chunk_indexes()
            &&& info_is(b.chunk_indexes().last(), p, sat(a.start_position() + (a.bytes() + a.spec_header_part()).len()))
        } else {
            &&& b.bytes() == a.bytes() + a.spec_header_part()
            &&& b.override_streams()[ch as int] == Some(p)
            &&& b.chunk_indexes() == a.chunk_indexes()
        }
    }
}

/// Whether the stream that `cw`'s messages go to can take a message of `n` bytes.
pub open spec fn buffer_room(w: Writer, cw: ChannelWriter, n: nat) -> bool {
    if cw.overridden() {
        (cw.id() as int) < w.override_streams().len()
            && (w.override_streams()[cw.id() as int] matches Some(st) ==> has_room(st, n))
    } else {
        w.default_stream() matches Some(st) ==> has_room(st, n)
    }
}

/// The effect of finishing an open writer: the header if not yet written,
/// every chunk flushed, the DataEnd record, then the summary, Footer and
/// closing magic; the registries are kept.
pub open spec fn finished_from(a: Writer, b: Writer) -> bool {
    let opened = a.bytes() + a.spec_header_part();
    let flushed = opened + spec_flush_bytes(a.override_streams(), a.default_stream(), true) + spec_data_end_record();
    &&& a.header_written() || header_fits(a.file_header())
    &&& b.is_finished()
    &&& b.header_written()
    &&& streams_flushed(a, b, true, a.start_position() + opened.len())
    &&& b.bytes() == flushed + spec_finish_tail(b, a.start_position() + flushed.len())
    &&& b.file_header() == a.file_header()
    &&& b.schemas() == a.schemas()
    &&& b.channels() == a.channels()
    &&& b.stats() == a.stats()
    &&& b.attachment_indexes() == a.attachment_indexes()
    &&& b.metadata_indexes() == a.metadata_indexes()
    &&& b.forces_summary() == a.forces_summary()
    &&& b.start_position() == a.start_position()
}

/// The schema record that adding a channel described by `spec` to `a`
/// writes: its schema, under the next schema id, when it has one that no
/// schema written before matches.
pub open spec fn added_schema(a: Writer, spec: ChannelSpec) -> Option<SchemaView> {
    match spec.schema {
        Some(sc) => if lookup_key(a.schema_key_table(), sc.name@, sc.encoding@, sc.data@) is None {
            Some((a.next_schema(), sc.name@, sc.encoding@, sc.data@))
        } else {
            None
        },
        None => None,
    }
}

/// The channel that adding a channel described by `spec` to `a` writes:
/// the next channel id, and the id of its schema (that of a matching schema
/// written before, the next schema id for a new one, 0 for none).
pub open spec fn added_channel(a: Writer, spec: ChannelSpec) -> ChannelView {
    let schema_id: u16 = match spec.schema {
        Some(sc) => match lookup_key(a.schema_key_table(), sc.name@, sc.encoding@, sc.data@) {
            Some(id) => id,
            None => a.next_schema(),
        },
        None => 0,
    };
    (a.next_channel(), schema_id, spec.topic@, spec.message_encoding@, spec.metadata@)
}

/// The outcome of adding a channel once the operation is open: it succeeds
/// exactly when the new schema (if any) gets an id and every field fits;
/// on success the opening steps, the schema record (when new) and the
/// channel record are written and both are registered.
pub open spec fn channel_added(a: Writer, b: Writer, spec: ChannelSpec, r: Result<ChannelWriter>) -> bool {
    let cv = added_channel(a, spec);
    &&& r is Ok <==> (added_schema(a, spec) matches Some(sv) ==> (sv.0 != 0 && str_fits(sv.1) && str_fits(sv.2)
        && sv.3.len() <= u32::MAX)) && str_fits(cv.2) && str_fits(cv.3) && map_fits(cv.4)
    &&& r matches Ok(cw) ==> {
        &&& cw.id() == a.next_channel()
        &&& cw.next_seq() == 0
        &&& cw.overridden() == spec.chunk_override is Some
        &&& b.bytes() == a.bytes() + a.spec_prelude()
            + (match added_schema(a, spec) { Some(sv) => spec_schema_record(sv), None => Seq::empty() })
            + spec_channel_record(cv)
        &&& b.schemas() == (match added_schema(a, spec) { Some(sv) => upsert_schema(a.schemas(), sv), None => a.schemas() })
        &&& b.channels() == upsert_channel(a.channels(), cv)
        &&& b.next_channel() == bump(a.next_channel())
        &&& b.next_schema() == (if added_schema(a, spec) is Some { bump(a.next_schema()) } else { a.next_schema() })
        &&& b.stats() == a.stats()
        &&& b.attachment_indexes() == a.attachment_indexes()
        &&& b.metadata_indexes() == a.metadata_indexes()
        &&& b.header_written()
        &&& b.is_finished() == a.is_finished()
        &&& exists|mid: Writer| {
            &&& #[trigger] streams_flushed(a, mid, false, a.start_position() + (a.bytes() + a.spec_header_part()).len())
            &&& b.default_stream() == mid.default_stream()
            &&& b.chunk_indexes() == mid.chunk_indexes()
            &&& match spec.chunk_override {
                Some(o) => slot_registered(mid.override_streams(), b.override_streams(), cw.id() as int, o),
                None => b.override_streams() == mid.override_streams(),
            }
        }
    }
}

/// The outcome of writing a message through `cw` with sequence `seq`: it
/// succeeds exactly when the file is open, the header fits and the stream
/// has room; failure changes nothing.
pub open spec fn message_write_outcome(a: Writer, b: Writer, cw: ChannelWriter, seq: u32, lt: u64, pt: u64,
    data: Seq<u8>, r: Result<()>) -> bool {
    &&& r is Ok <==> a.spec_prelude_ok() && buffer_room(a, cw, data.len())
    &&& r is Err ==> b == a && r->Err_0 is InvalidRecord
    &&& r is Ok ==> if cw.overridden() {
        message_written_override(a, b, cw.id(), seq, lt, pt, data)
    } else {
        message_written_default(a, b, cw.id(), seq, lt, pt, data)
    }
}

/// The effect of writing an attachment once the operation is open: its
/// record written after the opening steps and its index entry added — or,
/// when a field does not fit, only the opening steps.
pub open spec fn attachment_written(a: Writer, b: Writer, log_time: u64, create_time: u64, name: Seq<char>,
    media_type: Seq<char>, data: Seq<u8>) -> bool {
    let at = a.start_position() + (a.bytes() + a.spec_prelude()).len();
    let payload = spec_attachment_payload(log_time, create_time, name, media_type, data);
    &&& opened_keep(a, b)
    &&& same_registry(a, b)
    &&& b.metadata_indexes() == a.metadata_indexes()
    &&& if attachment_fits(name, media_type, data) {
        let info = b.attachment_indexes().last();
        &&& b.bytes() == a.bytes() + a.spec_prelude() + spec_record(Opcode::Attachment.byte(), payload)
        &&& b.attachment_indexes().len() == a.attachment_indexes().len() + 1
        &&& b.attachment_indexes().drop_last() == a.attachment_indexes()
        &&& info.offset == sat(at)
        &&& info.length == 9 + payload.len()
        &&& info.log_time == log_time
        &&& info.create_time == create_time
        &&& info.data_size == data.len()
        &&& info.name@ == name
        &&& info.media_type@ == media_type
    } else {
        &&& b.bytes() == a.bytes() + a.spec_prelude()
        &&& b.attachment_indexes() == a.attachment_indexes()
    }
}

/// A chunk compression name that means the records are stored as they are.
pub open spec fn uncompressed_name(c: Seq<char>) -> bool {
    c == Seq::<char>::empty() || c == "none"@
}

/// A Chunk record whose fields fit their length fields.
pub open spec fn chunk_fits(c: Chunk) -> bool {
    &&& str_fits(c.compression@)
    &&& 49 + str_bytes(c.compression@).len() + c.records@.len() <= u64::MAX
}

/// The Chunk record of a chunk copied from another file.
pub open spec fn spec_copied_chunk_record(c: Chunk) -> Seq<u8> {
    spec_record(
        Opcode::Chunk.byte(),
        spec_chunk_fields(c.message_start_time, c.message_end_time, c.uncompressed_size, c.uncompressed_crc,
            c.compression@, c.records@.len() as u64) + c.records@,
    )
}

/// Whether a raw record payload can be registered: the records the summary
/// indexes must parse, and the lengths and strings the index keeps must fit.
pub open spec fn raw_ok(op: Opcode, payload: Seq<u8>) -> bool {
    match op {
        Opcode::Schema => spec_parse_schema(payload) matches Some(x)
            && str_fits(x.1) && str_fits(x.2) && x.3.len() <= u32::MAX,
        Opcode::Channel => spec_parse_channel(payload) matches Some(c)
            && str_fits(c.2) && str_fits(c.3) && map_fits(c.4),
        Opcode::Message => spec_parse_message_header(payload) is Some,
        Opcode::Chunk => payload.len() + 9 <= u64::MAX && (spec_parse_chunk(payload) matches Some(c) && str_fits(c.4)),
        Opcode::Attachment => payload.len() + 9 <= u64::MAX && (spec_parse_attachment_fields(payload) matches Some(f)
            && str_fits(f.2) && str_fits(f.3)),
        Opcode::Metadata => payload.len() + 9 <= u64::MAX && (spec_str_at(payload, 0) matches Some(n)
            && str_fits(n.0)),
        _ => true,
    }
}

/// The bookkeeping of a raw record copied at file position `start`: what the
/// summary will list for it. Records of other kinds are copied without bookkeeping.
pub open spec fn raw_registered(a: Writer, b: Writer, op: Opcode, payload: Seq<u8>, start: u64) -> bool {
    &&& b.file_header() == a.file_header()
    &&& b.is_finished() == a.is_finished()
    &&& b.header_written() == a.header_written()
    &&& b.default_stream() == a.default_stream()
    &&& b.override_streams() == a.override_streams()
    &&& b.schema_key_table() == a.schema_key_table()
    &&& b.schemas() == (if op == Opcode::Schema {
        upsert_schema(a.schemas(), spec_parse_schema(payload)->Some_0)
    } else {
        a.schemas()
    })
    &&& b.next_schema() == (if op == Opcode::Schema {
        next_id_after(a.next_schema(), spec_parse_schema(payload)->Some_0.0)
    } else {
        a.next_schema()
    })
    &&& b.channels() == (if op == Opcode::Channel {
        upsert_channel(a.channels(), spec_parse_channel(payload)->Some_0)
    } else {
        a.channels()
    })
    &&& b.next_channel() == (if op == Opcode::Channel {
        next_id_after(a.next_channel(), spec_parse_channel(payload)->Some_0.0)
    } else {
        a.next_channel()
    })
    &&& b.stats() == (if op == Opcode::Message {
        let h = spec_parse_message_header(payload)->Some_0;
        spec_update_stats(a.stats(), h.channel_id, h.log_time)
    } else if op == Opcode::Chunk && uncompressed_name(spec_parse_chunk(payload)->Some_0.4) {
        spec_update_stats_all(a.stats(), spec_scan_messages(spec_parse_chunk(payload)->Some_0.5, 0))
    } else {
        a.stats()
    })
    &&& if op == Opcode::Chunk {
        let c = spec_parse_chunk(payload)->Some_0;
        let info = b.chunk_indexes().last();
        &&& b.chunk_indexes().len() == a.chunk_indexes().len() + 1
        &&& b.chunk_indexes().drop_last() == a.chunk_indexes()
        &&& info.message_start_time == c.0 && info.message_end_time == c.1
        &&& info.chunk_start_offset == start && info.chunk_length == 9 + payload.len()
        &&& info.compression@ == c.4 && info.compressed_size == c.5.len() && info.uncompressed_size == c.2
    } else {
        b.chunk_indexes() == a.chunk_indexes()
    }
    &&& if op == Opcode::Attachment {
        let f = spec_parse_attachment_fields(payload)->Some_0;
        let info = b.attachment_indexes().last();
        &&& b.attachment_indexes().len() == a.attachment_indexes().len() + 1
        &&& b.attachment_indexes().drop_last() == a.attachment_indexes()
        &&& info.offset == start && info.length == 9 + payload.len()
        &&& info.log_time == f.0 && info.create_time == f.1 && info.name@ == f.2 && info.media_type@ == f.3
        &&& info.data_size == f.4
    } else {
        b.attachment_indexes() == a.attachment_indexes()
    }
    &&& if op == Opcode::Metadata {
        let info = b.metadata_indexes().last();
        &&& b.metadata_indexes().len() == a.metadata_indexes().len() + 1
        &&& b.metadata_indexes().drop_last() == a.metadata_indexes()
        &&& info.offset == start && info.length == 9 + payload.len()
        &&& info.name@ == spec_str_at(payload, 0)->Some_0.0
    } else {
        b.metadata_indexes() == a.metadata_indexes()
    }
}

/// The default `library` field of the Header record.
pub fn default_library_string() -> (r: String)
    ensures
        r@ == "mcapable 0.1.0"@,
{
    "mcapable 0.1.0".to_owned()
}

/// Builder for a [`Writer`]: header fields, validation, chunking and summary policy.
pub struct WriterBuilder {
    header: Header,
    validation: Validation,
    chunk_options: Option<ChunkOptions>,
    always_write_summary: bool,
}

impl WriterBuilder {
    /// The header the files are written with.
    pub closed spec fn built_header(&self) -> Header {
        self.header
    }

    /// The chunk options of the default stream, when chunked.
    pub closed spec fn chunking(&self) -> Option<ChunkOptions> {
        self.chunk_options
    }

    /// Whether the summary is written even when empty.
    pub closed spec fn forces_summary(&self) -> bool {
        self.always_write_summary
    }

    /// The validation level.
    pub closed spec fn validation_level(&self) -> Validation {
        self.validation
    }

    /// Builder invariant: the header metadata has distinct keys.
    pub closed spec fn well_formed(&self) -> bool {
        self.header.metadata.well_formed()
    }

    /// Empty profile, the default library string, no metadata, strict
    /// validation, not chunked, summary only when non-empty.
    pub fn new() -> (r: WriterBuilder)
        ensures
            r.well_formed(),
            r.built_header().profile@ == Seq::<char>::empty(),
            r.built_header().library@ == "mcapable 0.1.0"@,
            r.built_header().metadata@ == Seq::<(Seq<char>, Seq<char>)>::empty(),
            r.validation_level() == Validation::Strict,
            r.chunking() is None,
            !r.forces_summary(),
    {
        WriterBuilder {
            header: Header { profile: String::new(), library: default_library_string(), metadata: StringMap::new() },
            validation: Validation::Strict,
            chunk_options: None,
            always_write_summary: false,
        }
    }

    /// Set the header profile.
    pub fn profile(self, profile: &str) -> (r: WriterBuilder)
        requires
            self.well_formed(),
        ensures
            r.well_formed(),
            r.built_header().profile@ == profile@,
            r.built_header().library == self.built_header().library,
            r.built_header().metadata == self.built_header().metadata,
            r.validation_level() == self.validation_level(),
            r.chunking() == self.chunking(),
            r.forces_summary() == self.forces_summary(),
    {
        let mut b = self;
        b.header.profile = profile.to_owned();
        b
    }

    /// Set the header library string.
    pub fn library(self, library: &str) -> (r: WriterBuilder)
        requires
            self.well_formed(),
        ensures
            r.well_formed(),
            r.built_header().library@ == library@,
            r.built_header().profile == self.built_header().profile,
            r.built_header().metadata == self.built_header().metadata,
            r.validation_level() == self.validation_level(),
            r.chunking() == self.chunking(),
            r.forces_summary() == self.forces_summary(),
    {
        let mut b = self;
        b.header.library = library.to_owned();
        b
    }

    /// Add (or replace) a header metadata entry.
    pub fn header_metadata(self, key: &str, value: &str) -> (r: WriterBuilder)
        requires
            self.well_formed(),
        ensures
            r.well_formed(),
            r.built_header().metadata@ == crate::kv::spec_insert(self.built_header().metadata@, key@, value@),
            r.built_header().profile == self.built_header().profile,
            r.built_header().library == self.built_header().library,
            r.validation_level() == self.validation_level(),
            r.chunking() == self.chunking(),
            r.forces_summary() == self.forces_summary(),
    {
        let mut b = self;
        b.header.metadata.insert(key.to_owned(), value.to_owned());
        b
    }

    /// Set the validation level.
    pub fn validation(self, validation: Validation) -> (r: WriterBuilder)
        ensures
            r.validation_level() == validation,
            r.built_header() == self.built_header(),
            r.chunking() == self.chunking(),
            r.forces_summary() == self.forces_summary(),
            r.well_formed() == self.well_formed(),
    {
        WriterBuilder { validation, ..self }
    }

    /// Buffer messages into chunks with the given options.
    pub fn chunked(self, options: ChunkOptions) -> (r: WriterBuilder)
        ensures
            r.chunking() == Some(options),
            r.built_header() == self.built_header(),
            r.validation_level() == self.validation_level(),
            r.forces_summary() == self.forces_summary(),
            r.well_formed() == self.well_formed(),
    {
        WriterBuilder { chunk_options: Some(options), ..self }
    }

    /// Write the summary section even when it would be empty.
    pub fn always_write_summary(self, enabled: bool) -> (r: WriterBuilder)
        ensures
            r.forces_summary() == enabled,
            r.built_header() == self.built_header(),
            r.validation_level() == self.validation_level(),
            r.chunking() == self.chunking(),
            r.well_formed() == self.well_formed(),
    {
        WriterBuilder { always_write_summary: enabled, ..self }
    }

    /// A copy of the builder.
    pub fn copy(&self) -> (r: WriterBuilder)
        ensures
            r.built_header().profile@ == self.built_header().profile@,
            r.built_header().library@ == self.built_header().library@,
            r.built_header().metadata@ == self.built_header().metadata@,
            r.validation_level() == self.validation_level(),
            r.chunking() == self.chunking(),
            r.forces_summary() == self.forces_summary(),
            r.well_formed() == self.well_formed(),
    {
        WriterBuilder {
            header: Header {
                profile: self.header.profile.clone(),
                library: self.header.library.clone(),
                metadata: self.header.metadata.copy(),
            },
            validation: self.validation,
            chunk_options: self.chunk_options,
            always_write_summary: self.always_write_summary,
        }
    }

    /// Build a writer for a sink currently at `start_position`. Chunk
    /// compression is not available in this build: a compressed default
    /// stream is refused.
    pub fn build(self, start_position: u64) -> (r: Result<Writer>)
        requires
            self.well_formed(),
        ensures
            self.chunking() matches Some(o) && o.compression is Some
                ==> r == Err::<Writer, Error>(Error::UnsupportedCompression),
            !(self.chunking() matches Some(o) && o.compression is Some) ==> r is Ok,
            r matches Ok(w) ==> {
                &&& w.well_formed()
                &&& w.bytes() == Seq::<u8>::empty()
                &&& w.start_position() == start_position
                &&& !w.is_finished()
                &&& !w.header_written()
                &&& w.file_header() == self.built_header()
                &&& w.next_schema() == 1
                &&& w.next_channel() == 1
                &&& w.forces_summary() == self.forces_summary()
                &&& w.schemas() == Seq::<SchemaView>::empty()
                &&& w.channels() == Seq::<ChannelView>::empty()
                &&& w.stats() == Seq::<ChannelStats>::empty()
                &&& w.chunk_indexes() == Seq::<ChunkIndexInfo>::empty()
                &&& w.attachment_indexes() == Seq::<AttachmentIndexInfo>::empty()
                &&& w.metadata_indexes() == Seq::<MetadataIndexInfo>::empty()
                &&& w.override_streams() == Seq::<Option<ChunkState>>::empty()
                &&& w.schema_key_table() == Seq::<(Seq<char>, Seq<char>, Seq<u8>, u16)>::empty()
                &&& match self.chunking() {
                    Some(o) => w.default_stream() matches Some(st) && fresh_stream(st, o),
                    None => w.default_stream() is None,
                }
            },
    {
        let default = match self.chunk_options {
            Some(o) => {
                if o.compression.is_some() {
                    return Err(Error::UnsupportedCompression);
                }
                Some(ChunkState::new(o))
            },
            None => None,
        };
        let w = Writer {
            sink: OutputBuffer::new(start_position),
            header: self.header,
            wrote_header: false,
            finished: false,
            next_schema_id: 1,
            next_channel_id: 1,
            validation: self.validation,
            always_write_summary: self.always_write_summary,
            streams: ChunkStreams { default, overrides: Vec::new(), indexes: Vec::new() },
            schemas: Vec::new(),
            channels: Vec::new(),
            channel_stats: Vec::new(),
            attachment_indexes: Vec::new(),
            metadata_indexes: Vec::new(),
            schema_ids_by_key: Vec::new(),
        };
        proof {
            assert(w.schemas() =~= Seq::<SchemaView>::empty());
            assert(w.channels() =~= Seq::<ChannelView>::empty());
            assert(w.schema_key_table() =~= Seq::<(Seq<char>, Seq<char>, Seq<u8>, u16)>::empty());
            if self.chunk_options is Some {
                assert(state_fits(w.streams.default->Some_0));
            }
        }
        Ok(w)
    }
}

/// A helper for writing attachments.
pub struct AttachmentWriter {}

impl AttachmentWriter {
    /// Write an Attachment record.
    pub fn write(
        &mut self,
        writer: &mut Writer,
        log_time: u64,
        create_time: u64,
        name: &String,
        media_type: &String,
        data: &[u8],
    ) -> (r: Result<()>)
        requires
            old(writer).well_formed(),
        ensures
            final(writer).well_formed(),
            r is Ok <==> old(writer).spec_prelude_ok() && attachment_fits(name@, media_type@, data@),
            r matches Err(e) ==> e is InvalidRecord,
            !old(writer).spec_prelude_ok() ==> *final(writer) == *old(writer),
            old(writer).spec_prelude_ok() ==> attachment_written(*old(writer), *final(writer), log_time, create_time,
                name@, media_type@, data@),
    {
        writer.write_attachment(log_time, create_time, name, media_type, data)
    }
}

/// A per-channel helper for writing messages with automatic sequence numbering.
pub struct ChannelWriter {
    channel_id: u16,
    next_sequence: u32,
    has_chunk_override: bool,
}

impl ChannelWriter {
    /// The channel the messages go to.
    pub closed spec fn id(&self) -> u16 {
        self.channel_id
    }

    /// The sequence number of the next message.
    pub closed spec fn next_seq(&self) -> u32 {
        self.next_sequence
    }

    /// Whether the channel's messages go to its own chunk stream.
    pub closed spec fn overridden(&self) -> bool {
        self.has_chunk_override
    }

    /// Returns the channel id written to the file.
    pub fn channel_id(&self) -> (r: u16)
        ensures
            r == self.id(),
    {
        self.channel_id
    }

    /// Whether the channel's messages go to its own chunk stream.
    pub fn has_chunk_override(&self) -> (r: bool)
        ensures
            r == self.overridden(),
    {
        self.has_chunk_override
    }

    /// Write a message with the next sequence number, which then advances (wrapping).
    pub fn write(&mut self, writer: &mut Writer, log_time: u64, publish_time: u64, data: &[u8]) -> (r: Result<()>)
        requires
            old(writer).well_formed(),
            old(self).overridden() ==> (old(self).id() as int) < old(writer).override_streams().len()
                && old(writer).override_streams()[old(self).id() as int] is Some,
        ensures
            final(writer).well_formed(),
            final(self).id() == old(self).id(),
            final(self).overridden() == old(self).overridden(),
            final(self).next_seq() == (if old(self).next_seq() == u32::MAX { 0 } else { (old(self).next_seq() + 1) as u32 }),
            message_write_outcome(*old(writer), *final(writer), *old(self), old(self).next_seq(), log_time,
                publish_time, data@, r),
    {
        let seq = self.next_sequence;
        self.next_sequence = self.next_sequence.wrapping_add(1);
        let me = ChannelWriter { channel_id: self.channel_id, next_sequence: seq, has_chunk_override: self.has_chunk_override };
        me.write_with_sequence(writer, log_time, publish_time, data, seq)
    }

    /// Write a message with a given sequence number (e.g. when copying
    /// messages and preserving their sequence numbers).
    pub fn write_with_sequence(&self, writer: &mut Writer, log_time: u64, publish_time: u64, data: &[u8],
        sequence: u32) -> (r: Result<()>)
        requires
            old(writer).well_formed(),
            self.overridden() ==> (self.id() as int) < old(writer).override_streams().len()
                && old(writer).override_streams()[self.id() as int] is Some,
        ensures
            final(writer).well_formed(),
            message_write_outcome(*old(writer), *final(writer), *self, sequence, log_time, publish_time, data@, r),
    {
        if !writer.can_buffer(self, data.len()) {
            if !writer.finished && (writer.wrote_header || writer.header_fits_now()) {
                return Err(invalid("chunk length would overflow u64"));
            }
            return Err(invalid("cannot write message"));
        }
        if self.has_chunk_override {
            writer.write_raw_message_override(self.channel_id, sequence, log_time, publish_time, data)
        } else {
            writer.write_raw_message_default(self.channel_id, sequence, log_time, publish_time, data)
        }
    }

    /// Advance the sequence number (wrapping) without writing.
    pub fn skip_sequence(&mut self)
        ensures
            final(self).id() == old(self).id(),
            final(self).overridden() == old(self).overridden(),
            final(self).next_seq() == (if old(self).next_seq() == u32::MAX { 0 } else { (old(self).next_seq() + 1) as u32 }),
    {
        self.next_sequence = self.next_sequence.wrapping_add(1);
    }

    /// Set the starting sequence number (default is 0).
    pub fn starting_sequence(self, sequence: u32) -> (r: ChannelWriter)
        ensures
            r.id() == self.id(),
            r.overridden() == self.overridden(),
            r.next_seq() == sequence,
    {
        ChannelWriter { next_sequence: sequence, ..self }
    }
}

/// MCAP writer. Bytes are produced into an internal buffer; take them with
/// [`Writer::take_output`] and write them to the sink.
pub struct Writer {
    sink: OutputBuffer,
    header: Header,
    wrote_header: bool,
    finished: bool,
    next_schema_id: u16,
    next_channel_id: u16,
    validation: Validation,
    always_write_summary: bool,
    streams: ChunkStreams,
    schemas: Vec<Schema>,
    channels: Vec<Channel>,
    channel_stats: Vec<ChannelStats>,
    attachment_indexes: Vec<AttachmentIndexInfo>,
    metadata_indexes: Vec<MetadataIndexInfo>,
    schema_ids_by_key: Vec<(SchemaKey, u16)>,
}

impl Writer {
    /// Every byte the writer has produced.
    pub closed spec fn bytes(&self) -> Seq<u8> {
        self.sink.bytes()
    }

    /// Sink position the writer was created at.
    pub closed spec fn start_position(&self) -> u64 {
        self.sink.start()
    }

    /// The file position after every byte produced (saturating).
    pub closed spec fn spec_position(&self) -> u64 {
        self.sink.spec_position()
    }

    /// Whether the file has been finalized.
    pub closed spec fn is_finished(&self) -> bool {
        self.finished
    }

    /// Whether magic and Header record have been produced.
    pub closed spec fn header_written(&self) -> bool {
        self.wrote_header
    }

    /// The header the file is written with.
    pub closed spec fn file_header(&self) -> Header {
        self.header
    }

    /// The id the next added channel receives.
    pub closed spec fn next_channel(&self) -> u16 {
        self.next_channel_id
    }

    /// The id the next added schema receives.
    pub closed spec fn next_schema(&self) -> u16 {
        self.next_schema_id
    }

    /// Per-channel statistics, indexed by channel id.
    pub closed spec fn stats(&self) -> Seq<ChannelStats> {
        self.channel_stats@
    }

    /// The default chunk stream, when chunked.
    pub closed spec fn default_stream(&self) -> Option<ChunkState> {
        self.streams.default
    }

    /// The per-channel override chunk streams.
    pub closed spec fn override_streams(&self) -> Seq<Option<ChunkState>> {
        self.streams.overrides@
    }

    /// Index entries of the chunks written so far.
    pub closed spec fn chunk_indexes(&self) -> Seq<ChunkIndexInfo> {
        self.streams.indexes@
    }

    /// Schemas known to the writer, in the order they were first written.
    pub closed spec fn schemas(&self) -> Seq<SchemaView> {
        schema_views(self.schemas@)
    }

    /// Channels known to the writer, in the order they were first written.
    pub closed spec fn channels(&self) -> Seq<ChannelView> {
        channel_views(self.channels@)
    }

    /// Index entries of the attachments written so far.
    pub closed spec fn attachment_indexes(&self) -> Seq<AttachmentIndexInfo> {
        self.attachment_indexes@
    }

    /// Index entries of the metadata records written so far.
    pub closed spec fn metadata_indexes(&self) -> Seq<MetadataIndexInfo> {
        self.metadata_indexes@
    }

    /// The schemas written by content, for reuse: name, encoding, data and id.
    pub closed spec fn schema_key_table(&self) -> Seq<(Seq<char>, Seq<char>, Seq<u8>, u16)> {
        key_table_view(self.schema_ids_by_key@)
    }

    /// Whether a summary is written even when it would be empty.
    pub closed spec fn forces_summary(&self) -> bool {
        self.always_write_summary
    }

    /// Internal consistency of the writer.
    pub closed spec fn well_formed(&self) -> bool {
        &&& self.sink.well_formed()
        &&& self.header.metadata.well_formed()
        &&& forall|i: int| 0 <= i < self.schemas@.len() ==> schema_fits(#[trigger] self.schemas@[i])
        &&& forall|i: int, j: int| 0 <= i < j < self.schemas@.len() ==> #[trigger] self.schemas@[i].id != #[trigger] self.schemas@[j].id
        &&& forall|i: int| 0 <= i < self.channels@.len() ==> channel_fits(#[trigger] self.channels@[i])
        &&& forall|i: int, j: int| 0 <= i < j < self.channels@.len() ==> #[trigger] self.channels@[i].id != #[trigger] self.channels@[j].id
        &&& self.channel_stats@.len() <= 65536
        &&& keys_distinct(key_table_view(self.schema_ids_by_key@))
        &&& forall|i: int| 0 <= i < self.streams.indexes@.len() ==> str_fits(#[trigger] self.streams.indexes@[i].compression@)
        &&& forall|i: int| 0 <= i < self.attachment_indexes@.len() ==> attachment_info_fits(#[trigger] self.attachment_indexes@[i])
        &&& forall|i: int| 0 <= i < self.metadata_indexes@.len() ==> str_fits(#[trigger] self.metadata_indexes@[i].name@)
        &&& (self.streams.default matches Some(st) ==> state_fits(st) && st.options.compression is None)
        &&& slots_fit(self.streams.overrides@)
        &&& forall|j: int| 0 <= j < self.streams.overrides@.len()
            ==> (#[trigger] self.streams.overrides@[j] matches Some(st) ==> st.options.compression is None)
    }

    /// The header bytes still to be written before anything else.
    pub open spec fn spec_header_part(&self) -> Seq<u8> {
        if self.header_written() { Seq::empty() } else { spec_header_bytes(self.file_header()) }
    }

    /// The bytes produced by the steps that open most operations: the
    /// header if not yet written, then due override chunks, then the due default chunk.
    pub open spec fn spec_prelude(&self) -> Seq<u8> {
        self.spec_header_part() + spec_flush_bytes(self.override_streams(), self.default_stream(), false)
    }

    /// Whether the opening steps succeed: the file is open and the header fits.
    pub open spec fn spec_prelude_ok(&self) -> bool {
        !self.is_finished() && (self.header_written() || header_fits(self.file_header()))
    }

    /// The file position the writer has reached.
    pub fn position(&self) -> (r: u64)
        requires
            self.well_formed(),
        ensures
            r == self.spec_position(),
    {
        self.sink.position()
    }

    /// Take the bytes produced since the last call, to be written to the sink.
    pub fn take_output(&mut self) -> (r: Vec<u8>)
        requires
            old(self).well_formed(),
        ensures
            final(self).well_formed(),
            final(self).bytes() == old(self).bytes(),
            final(self).same_except_output(*old(self)),
            final(self).start_position() == old(self).start_position(),
            final(self).is_finished() == old(self).is_finished(),
            final(self).header_written() == old(self).header_written(),
            final(self).file_header() == old(self).file_header(),
            final(self).default_stream() == old(self).default_stream(),
            final(self).override_streams() == old(self).override_streams(),
            final(self).chunk_indexes() == old(self).chunk_indexes(),
            same_registry(*old(self), *final(self)),
            final(self).attachment_indexes() == old(self).attachment_indexes(),
            final(self).metadata_indexes() == old(self).metadata_indexes(),
            old(self).bytes().len() >= r@.len(),
            r@ == old(self).bytes().subrange(old(self).bytes().len() - r@.len(), old(self).bytes().len() as int),
            r@ == old(self).pending_output(),
            final(self).pending_output() == Seq::<u8>::empty(),
    {
        proof { self.sink_pending_is_tail(); }
        self.sink.take()
    }

    /// The bytes produced but not yet taken out with `take_output`: the tail
    /// of `bytes()`.
    pub closed spec fn pending_output(&self) -> Seq<u8> {
        self.sink.pending()
    }

    proof fn sink_pending_is_tail(&self)
        requires
            self.sink.well_formed(),
        ensures
            self.sink.bytes().len() >= self.sink.pending().len(),
            self.sink.pending() == self.sink.bytes().subrange(
                self.sink.bytes().len() - self.sink.pending().len(),
                self.sink.bytes().len() as int,
            ),
    {
        reveal_sink_well_formed(&self.sink);
    }

    /// Write magic and the Header record, once.
    fn write_header(&mut self) -> (r: Result<()>)
        requires
            old(self).well_formed(),
        ensures
            final(self).well_formed(),
            final(self).sink.taken_len() == old(self).sink.taken_len(),
            r is Ok <==> (old(self).wrote_header || (!old(self).finished && header_fits(old(self).header))),
            r is Err ==> *final(self) == *old(self) && r->Err_0 is InvalidRecord,
            r is Ok ==> {
                &&& final(self).wrote_header
                &&& final(self).bytes() == old(self).bytes() + (if old(self).wrote_header {
                    Seq::empty()
                } else {
                    spec_header_bytes(old(self).header)
                })
                &&& final(self).sink.start() == old(self).sink.start()
                &&& final(self).same_state_except_output(*old(self))
            },
    {
        if self.wrote_header {
            return Ok(());
        }
        if self.finished {
            return Err(invalid("cannot write header after finish"));
        }
        let mut payload: Vec<u8> = Vec::new();
        if push_len_prefixed_str(&mut payload, &self.header.profile).is_err() {
            return Err(invalid("header profile length exceeds u32"));
        }
        if push_len_prefixed_str(&mut payload, &self.header.library).is_err() {
            return Err(invalid("header library length exceeds u32"));
        }
        if push_metadata_map(&mut payload, &self.header.metadata).is_err() {
            return Err(invalid("header metadata length exceeds u32"));
        }
        let mut bytes: Vec<u8> = Vec::new();
        write_magic(&mut bytes);
        write_record(&mut bytes, Opcode::Header, payload.as_slice());
        self.sink.append(bytes.as_slice());
        self.wrote_header = true;
        Ok(())
    }

    /// Append the SummaryOffset record of a group of `n` bytes at `start`;
    /// returns the position after the group.
    fn push_offset(out: &mut Vec<u8>, op: Opcode, start: u64, n: usize) -> (r: u64)
        ensures
            final(out)@ == old(out)@ + offset_rec(op, start as int, n as nat),
            r == sat(start + n),
    {
        let end = start.saturating_add(n as u64);
        if n > 0 {
            let mut payload: Vec<u8> = Vec::new();
            payload.push(op.as_u8());
            push_le_u64(&mut payload, start);
            push_le_u64(&mut payload, end - start);
            assert(payload@ =~= seq![op.byte()] + le64(sat(start as int)) + le64((sat(start + n) - sat(start as int)) as u64));
            write_record(out, Opcode::SummaryOffset, payload.as_slice());
        }
        end
    }

    /// Whether the summary section is due at finish.
    fn should_write_summary(&self) -> (r: bool)
        ensures
            r == spec_should_write_summary(*self),
    {
        if self.always_write_summary || self.schemas.len() > 0 || self.channels.len() > 0
            || self.streams.indexes.len() > 0 || self.attachment_indexes.len() > 0
            || self.metadata_indexes.len() > 0 {
            return true;
        }
        let mut i: usize = 0;
        while i < self.channel_stats.len()
            invariant
                i <= self.channel_stats@.len(),
                forall|k: int| 0 <= k < i ==> !(#[trigger] self.channel_stats@[k]).has_messages,
            decreases self.channel_stats@.len() - i,
        {
            if self.channel_stats[i].has_messages {
                assert(self.stats()[i as int].has_messages);
                return true;
            }
            i += 1;
        }
        false
    }

    /// The SummaryOffset records of six groups back to back from `start`.
    fn summary_offsets(start: u64, n1: usize, n2: usize, n3: usize, n4: usize, n5: usize, n6: usize) -> (r: Vec<u8>)
        ensures
            r@ == spec_offsets_from(start as int, n1 as nat, n2 as nat, n3 as nat, n4 as nat, n5 as nat, n6 as nat),
    {
        let mut offsets: Vec<u8> = Vec::new();
        let p1 = Self::push_offset(&mut offsets, Opcode::Schema, start, n1);
        let p2 = Self::push_offset(&mut offsets, Opcode::Channel, p1, n2);
        let p3 = Self::push_offset(&mut offsets, Opcode::Statistics, p2, n3);
        let p4 = Self::push_offset(&mut offsets, Opcode::ChunkIndex, p3, n4);
        let p5 = Self::push_offset(&mut offsets, Opcode::AttachmentIndex, p4, n5);
        let _p6 = Self::push_offset(&mut offsets, Opcode::MetadataIndex, p5, n6);
        proof {
            let base = start as int;
            assert(sat(base) == start);
            assert(sat(sat(base + n1) + n2) == sat(base + n1 + n2));
            assert(sat(sat(base + n1 + n2) + n3) == sat(base + n1 + n2 + n3));
            assert(sat(sat(base + n1 + n2 + n3) + n4) == sat(base + n1 + n2 + n3 + n4));
            assert(sat(sat(base + n1 + n2 + n3 + n4) + n5) == sat(base + n1 + n2 + n3 + n4 + n5));
        }
        assert(offsets@ =~= spec_offsets_from(start as int, n1 as nat, n2 as nat, n3 as nat, n4 as nat, n5 as nat, n6 as nat));
        offsets
    }

    /// The summary records of the current state, with the byte count of each group.
    fn summary_records(&self) -> (r: (Vec<u8>, [usize; 6]))
        requires
            self.well_formed(),
        ensures
            r.0@ == spec_summary_records(*self),
            r.1[0] == schemas_bytes(self.schemas()).len(),
            r.1[1] == channels_bytes(self.channels()).len(),
            r.1[2] == spec_statistics_record(*self).len(),
            r.1[3] == chunk_indexes_bytes(self.chunk_indexes()).len(),
            r.1[4] == attachment_indexes_bytes(self.attachment_indexes()).len(),
            r.1[5] == metadata_indexes_bytes(self.metadata_indexes()).len(),
    {
        let mut records: Vec<u8> = Vec::new();
        push_schema_records(&mut records, &self.schemas);
        let n1 = records.len();
        push_channel_records(&mut records, &self.channels);
        let n2 = records.len() - n1;
        let stats_payload = encode_statistics_payload(
            self.schemas.len(),
            self.channels.len(),
            self.attachment_indexes.len(),
            self.metadata_indexes.len(),
            self.streams.indexes.len(),
            &self.channel_stats,
        );
        let before3 = records.len();
        write_record(&mut records, Opcode::Statistics, stats_payload.as_slice());
        let n3 = records.len() - before3;
        let before4 = records.len();
        push_chunk_index_records(&mut records, &self.streams.indexes);
        let n4 = records.len() - before4;
        let before5 = records.len();
        push_attachment_index_records(&mut records, &self.attachment_indexes);
        let n5 = records.len() - before5;
        let before6 = records.len();
        push_metadata_index_records(&mut records, &self.metadata_indexes);
        let n6 = records.len() - before6;
        assert(records@ =~= spec_summary_records(*self));
        (records, [n1, n2, n3, n4, n5, n6])
    }

    /// Write the summary section; returns the summary start, the start of the
    /// SummaryOffset records, and the CRC of the summary records.
    fn write_summary(&mut self) -> (r: (u64, u64, u32))
        requires
            old(self).well_formed(),
        ensures
            final(self).well_formed(),
            final(self).sink.taken_len() == old(self).sink.taken_len(),
            final(self).same_except_output(*old(self)),
            final(self).sink.start() == old(self).sink.start(),
            final(self).bytes() == old(self).bytes() + spec_summary_records(*old(self))
                + spec_summary_offsets(*old(self), old(self).sink.start() + old(self).bytes().len()),
            r.0 == sat(old(self).sink.start() + old(self).bytes().len()),
            r.1 == sat(old(self).sink.start() + old(self).bytes().len() + spec_summary_records(*old(self)).len()),
            r.2 == spec_crc32(spec_summary_records(*old(self))),
    {
        let summary_start = self.sink.position();
        let (records, lens) = self.summary_records();
        let crc = crc32(records.as_slice());
        self.sink.append(records.as_slice());
        let offset_start = self.sink.position();
        let offsets = Self::summary_offsets(summary_start, lens[0], lens[1], lens[2], lens[3], lens[4], lens[5]);
        self.sink.append(offsets.as_slice());
        (summary_start, offset_start, crc)
    }

    /// Finalize the file: flush every chunk, then write the DataEnd record,
    /// the summary section when due, the Footer record and the closing magic.
    /// Calling it again does nothing.
    #[verifier::rlimit(40)]
    pub fn finish(&mut self) -> (r: Result<()>)
        requires
            old(self).well_formed(),
        ensures
            final(self).well_formed(),
            final(self).bytes().len() >= old(self).bytes().len(),
            final(self).pending_output() == old(self).pending_output()
                + final(self).bytes().subrange(old(self).bytes().len() as int, final(self).bytes().len() as int),
            r is Ok <==> (old(self).is_finished() || old(self).header_written() || header_fits(old(self).file_header())),
            (old(self).is_finished() || r is Err) ==> *final(self) == *old(self),
            r matches Err(e) ==> e is InvalidRecord,
            (!old(self).is_finished() && r is Ok) ==> finished_from(*old(self), *final(self)),
    {
        if self.finished {
            proof {
                assert(self.bytes().subrange(0, self.bytes().len() as int) =~= self.bytes());
                self.lemma_pending_grows_from(*self);
            }
            return Ok(());
        }
        let ghost w0 = *self;
        match self.write_header() {
            Ok(()) => {},
            Err(e) => {
                proof {
                    assert(self.bytes().subrange(0, w0.bytes().len() as int) =~= w0.bytes());
                    self.lemma_pending_grows_from(w0);
                }
                return Err(e);
            },
        }
        let ghost w1 = *self;
        self.flush_due(true);
        let ghost w2 = *self;
        let data_end = encode_data_end(0);
        let mut tail: Vec<u8> = Vec::new();
        write_record(&mut tail, Opcode::DataEnd, data_end.as_slice());
        self.sink.append(tail.as_slice());
        let ghost w3 = *self;
        self.write_closing();
        proof {
            assert(streams_flushed(w1, w2, true, w1.sink.start() + w1.bytes().len()));
            assert(self.streams == w2.streams);
            assert(streams_flushed(w1, *self, true, w1.sink.start() + w1.bytes().len()));
            assert(self.bytes() =~= w3.bytes() + spec_finish_tail(*self, w3.sink.start() + w3.bytes().len()));
            assert(self.bytes().subrange(0, w0.bytes().len() as int) =~= w0.bytes());
            self.lemma_pending_grows_from(w0);
        }
        Ok(())
    }

    /// Output only added since `before`, with nothing taken out: the added
    /// bytes are pending after those pending before.
    proof fn lemma_pending_grows_from(&self, before: Writer)
        requires
            before.sink.well_formed(),
            self.sink.well_formed(),
            self.sink.taken_len() == before.sink.taken_len(),
            self.bytes().len() >= before.bytes().len(),
            self.bytes().subrange(0, before.bytes().len() as int) == before.bytes(),
        ensures
            self.pending_output() == before.pending_output()
                + self.bytes().subrange(before.bytes().len() as int, self.bytes().len() as int),
    {
        crate::sink::lemma_pending_grows(&before.sink, &self.sink);
    }

    /// Write what follows the DataEnd record — the summary when due, the
    /// Footer record and the closing magic — and mark the file finished.
    #[verifier::rlimit(30)]
    fn write_closing(&mut self)
        requires
            old(self).well_formed(),
        ensures
            final(self).well_formed(),
            final(self).sink.taken_len() == old(self).sink.taken_len(),
            final(self).finished,
            final(self).wrote_header == old(self).wrote_header,
            final(self).sink.start() == old(self).sink.start(),
            final(self).streams == old(self).streams,
            final(self).header == old(self).header,
            final(self).schemas == old(self).schemas,
            final(self).channels == old(self).channels,
            final(self).channel_stats == old(self).channel_stats,
            final(self).attachment_indexes == old(self).attachment_indexes,
            final(self).metadata_indexes == old(self).metadata_indexes,
            final(self).always_write_summary == old(self).always_write_summary,
            final(self).bytes() == old(self).bytes() + spec_finish_tail(*final(self), old(self).sink.start() + old(self).bytes().len()),
    {
        let ghost w = *self;
        let should = self.should_write_summary();
        let (summary_start, summary_offset_start, summary_crc) = if should {
            self.write_summary()
        } else {
            (0, 0, 0)
        };
        let footer = encode_footer(summary_start, summary_offset_start, summary_crc);
        let mut closing: Vec<u8> = Vec::new();
        write_record(&mut closing, Opcode::Footer, footer.as_slice());
        write_magic(&mut closing);
        self.sink.append(closing.as_slice());
        self.finished = true;
        proof {
            assert(spec_summary_records(w) == spec_summary_records(*self));
            assert(spec_summary_offsets(w, w.sink.start() + w.bytes().len()) == spec_summary_offsets(*self, w.sink.start() + w.bytes().len()));
            assert(spec_should_write_summary(w) == spec_should_write_summary(*self));
            assert(self.bytes() =~= w.bytes() + spec_finish_tail(*self, w.sink.start() + w.bytes().len()));
        }
    }

    /// Every field but the output, the chunk streams and the header flag is unchanged.
    pub closed spec fn same_core(&self, other: Writer) -> bool {
        &&& self.header == other.header
        &&& self.finished == other.finished
        &&& self.next_schema_id == other.next_schema_id
        &&& self.next_channel_id == other.next_channel_id
        &&& self.validation == other.validation
        &&& self.always_write_summary == other.always_write_summary
        &&& self.schemas == other.schemas
        &&& self.channels == other.channels
        &&& self.channel_stats == other.channel_stats
        &&& self.attachment_indexes == other.attachment_indexes
        &&& self.metadata_indexes == other.metadata_indexes
        &&& self.schema_ids_by_key == other.schema_ids_by_key
    }

    /// The steps that open most operations: write the header if needed, then
    /// flush the due override chunks and the due default chunk.
    fn open_for_write(&mut self) -> (r: Result<()>)
        requires
            old(self).well_formed(),
        ensures
            final(self).well_formed(),
            r is Ok <==> old(self).spec_prelude_ok(),
            r is Err ==> *final(self) == *old(self) && r->Err_0 is InvalidRecord,
            r is Ok ==> {
                &&& opened_keep(*old(self), *final(self))
                &&& final(self).bytes() == old(self).bytes() + old(self).spec_prelude()
                &&& final(self).same_core(*old(self))
                &&& final(self).sink.start() == old(self).sink.start()
            },
    {
        if self.finished {
            return Err(invalid("cannot write after finish"));
        }
        self.write_header()?;
        let ghost w1 = *self;
        self.flush_due(false);
        proof {
            assert(self.bytes() =~= old(self).bytes() + old(self).spec_prelude());
        }
        Ok(())
    }

    /// Copy a Metadata record into the data section and index it.
    pub fn copy_metadata(&mut self, metadata: &Metadata) -> (r: Result<()>)
        requires
            old(self).well_formed(),
        ensures
            final(self).well_formed(),
            r is Ok <==> old(self).spec_prelude_ok() && metadata_fits(*metadata),
            r matches Err(e) ==> e is InvalidRecord,
            !old(self).spec_prelude_ok() ==> *final(self) == *old(self),
            old(self).spec_prelude_ok() ==> {
                let at = old(self).start_position() + (old(self).bytes() + old(self).spec_prelude()).len();
                let payload = spec_metadata_payload(metadata.name@, metadata.metadata@);
                &&& opened_keep(*old(self), *final(self))
                &&& same_registry(*old(self), *final(self))
                &&& final(self).attachment_indexes() == old(self).attachment_indexes()
                &&& if metadata_fits(*metadata) {
                    &&& final(self).bytes() == old(self).bytes() + old(self).spec_prelude()
                        + spec_record(Opcode::Metadata.byte(), payload)
                    &&& final(self).metadata_indexes().len() == old(self).metadata_indexes().len() + 1
                    &&& final(self).metadata_indexes().drop_last() == old(self).metadata_indexes()
                    &&& final(self).metadata_indexes().last().offset == sat(at)
                    &&& final(self).metadata_indexes().last().length == 9 + payload.len()
                    &&& final(self).metadata_indexes().last().name@ == metadata.name@
                } else {
                    &&& final(self).bytes() == old(self).bytes() + old(self).spec_prelude()
                    &&& final(self).metadata_indexes() == old(self).metadata_indexes()
                }
            },
            old(self).is_finished() ==> (r matches Err(e) && invalid_with(e, "cannot write metadata after finish"@)),
    {
        if self.finished {
            return Err(invalid("cannot write metadata after finish"));
        }
        self.open_for_write()?;
        let start = self.sink.position();
        let mut payload: Vec<u8> = Vec::new();
        let name_ok = push_len_prefixed_str(&mut payload, &metadata.name);
        if name_ok.is_err() {
            return Err(invalid("metadata name length exceeds u32"));
        }
        assert(str_fits(metadata.name@));
        if push_metadata_map(&mut payload, &metadata.metadata).is_err() {
            return Err(invalid("metadata map length exceeds u32"));
        }
        assert(payload@ =~= spec_metadata_payload(metadata.name@, metadata.metadata@));
        let length = match 9u64.checked_add(payload.len() as u64) {
            Some(l) => l,
            None => return Err(invalid("metadata length overflow")),
        };
        let ghost m0 = self.metadata_indexes@;
        self.metadata_indexes.push(MetadataIndexInfo { offset: start, length, name: metadata.name.clone() });
        assert(self.metadata_indexes@.drop_last() =~= m0);
        assert forall|i: int| 0 <= i < self.metadata_indexes@.len() implies str_fits(#[trigger] self.metadata_indexes@[i].name@) by {
            if i < m0.len() {
                assert(self.metadata_indexes@[i] == m0[i]);
                assert(str_fits(m0[i].name@));
            } else {
                assert(self.metadata_indexes@[i].name@ == metadata.name@);
            }
        }
        let mut rec: Vec<u8> = Vec::new();
        write_record(&mut rec, Opcode::Metadata, payload.as_slice());
        self.sink.append(rec.as_slice());
        Ok(())
    }

    /// Write an Attachment record into the data section and index it.
    pub fn write_attachment(
        &mut self,
        log_time: u64,
        create_time: u64,
        name: &String,
        media_type: &String,
        data: &[u8],
    ) -> (r: Result<()>)
        requires
            old(self).well_formed(),
        ensures
            final(self).well_formed(),
            r is Ok <==> old(self).spec_prelude_ok() && attachment_fits(name@, media_type@, data@),
            r matches Err(e) ==> e is InvalidRecord,
            !old(self).spec_prelude_ok() ==> *final(self) == *old(self),
            old(self).spec_prelude_ok() ==> attachment_written(*old(self), *final(self), log_time, create_time,
                name@, media_type@, data@),
            old(self).is_finished() ==> (r matches Err(e) && invalid_with(e, "cannot write attachment after finish"@)),
    {
        if self.finished {
            return Err(invalid("cannot write attachment after finish"));
        }
        self.open_for_write()?;
        let crc = crc32(data);
        let start = self.sink.position();
        let mut fixed: Vec<u8> = Vec::new();
        push_le_u64(&mut fixed, log_time);
        push_le_u64(&mut fixed, create_time);
        if push_len_prefixed_str(&mut fixed, name).is_err() {
            return Err(invalid("attachment name length exceeds u32"));
        }
        if push_len_prefixed_str(&mut fixed, media_type).is_err() {
            return Err(invalid("attachment media_type length exceeds u32"));
        }
        proof {
            crate::decode::lemma_le_fields_round_trip(Seq::empty(), Seq::empty(), 0, crc, log_time);
            crate::decode::lemma_le_fields_round_trip(Seq::empty(), Seq::empty(), 0, 0, create_time);
        }
        proof {
            assert(fixed@ =~= le64(log_time) + le64(create_time) + spec_str(name@) + spec_str(media_type@));
            crate::decode::lemma_le_fields_round_trip(Seq::empty(), Seq::empty(), 0, str_bytes(name@).len() as u32, 0);
            crate::decode::lemma_le_fields_round_trip(Seq::empty(), Seq::empty(), 0, str_bytes(media_type@).len() as u32, 0);
        }
        let fixed_len = fixed.len() as u64;
        assert(fixed_len == 24 + str_bytes(name@).len() + str_bytes(media_type@).len());
        let payload_len = match (fixed_len + 12).checked_add(data.len() as u64) {
            Some(l) => l,
            None => return Err(invalid("attachment length overflow")),
        };
        let length = match 9u64.checked_add(payload_len) {
            Some(l) => l,
            None => return Err(invalid("attachment length overflow")),
        };
        let ghost a0 = self.attachment_indexes@;
        self.attachment_indexes.push(AttachmentIndexInfo {
            offset: start,
            length,
            log_time,
            create_time,
            data_size: data.len() as u64,
            name: name.clone(),
            media_type: media_type.clone(),
        });
        assert(self.attachment_indexes@.drop_last() =~= a0);
        let mut rec: Vec<u8> = Vec::new();
        push_record_header(&mut rec, Opcode::Attachment, payload_len);
        rec.extend_from_slice(fixed.as_slice());
        push_le_u64(&mut rec, data.len() as u64);
        rec.extend_from_slice(data);
        push_le_u32(&mut rec, crc);
        proof {
            let payload = spec_attachment_payload(log_time, create_time, name@, media_type@, data@);
            crate::decode::lemma_le_fields_round_trip(Seq::empty(), Seq::empty(), 0, crc, data@.len() as u64);
            assert(payload.len() == payload_len);
            assert(rec@ =~= spec_record(Opcode::Attachment.byte(), payload));
        }
        self.sink.append(rec.as_slice());
        Ok(())
    }

    /// A copy of a schema with the same plain values.
    pub(crate) fn copy_schema_value(x: &Schema) -> (r: Schema)
        ensures
            schema_view(r) == schema_view(*x),
    {
        Schema {
            id: x.id,
            name: x.name.clone(),
            encoding: x.encoding.clone(),
            data: vstd::slice::slice_to_vec(x.data.as_slice()),
        }
    }

    /// A copy of a channel with the same plain values.
    pub(crate) fn copy_channel_value(x: &Channel) -> (r: Channel)
        ensures
            channel_view(r) == channel_view(*x),
            r.metadata.well_formed() == x.metadata.well_formed(),
    {
        Channel {
            id: x.id,
            topic: x.topic.clone(),
            message_encoding: x.message_encoding.clone(),
            schema_id: x.schema_id,
            metadata: x.metadata.copy(),
        }
    }

    /// Register `schema` by id, replacing an earlier schema with the same id.
    fn upsert_schema_vec(v: &mut Vec<Schema>, x: Schema)
        requires
            forall|i: int, j: int| 0 <= i < j < old(v)@.len() ==> #[trigger] old(v)@[i].id != #[trigger] old(v)@[j].id,
        ensures
            schema_views(final(v)@) == upsert_schema(schema_views(old(v)@), schema_view(x)),
            forall|i: int, j: int| 0 <= i < j < final(v)@.len() ==> #[trigger] final(v)@[i].id != #[trigger] final(v)@[j].id,
            forall|i: int| 0 <= i < final(v)@.len() ==> (#[trigger] final(v)@[i] == x || old(v)@.contains(final(v)@[i])),
    {
        let ghost sv = schema_views(old(v)@);
        let mut i: usize = 0;
        while i < v.len()
            invariant
                i <= v@.len(),
                v@ == old(v)@,
                forall|a: int, b: int| 0 <= a < b < old(v)@.len() ==> #[trigger] old(v)@[a].id != #[trigger] old(v)@[b].id,
                sv == schema_views(v@),
                forall|k: int| 0 <= k < i ==> (#[trigger] v@[k]).id != x.id,
            decreases v@.len() - i,
        {
            if v[i].id == x.id {
                proof {
                    assert(sv[i as int].0 == x.id);
                    let w = choose|k: int| 0 <= k < sv.len() && (#[trigger] sv[k]).0 == x.id;
                    assert(sv[w].0 == x.id);
                    assert(v@[w].id == x.id);
                    if w < i as int {
                        assert(v@[w].id != v@[i as int].id);
                    } else if w > i as int {
                        assert(v@[i as int].id != v@[w].id);
                    }
                    assert(w == i as int);
                }
                let ghost x0 = x;
                v.set(i, x);
                proof {
                    assert forall|a: int, b: int| 0 <= a < b < v@.len() implies #[trigger] v@[a].id != #[trigger] v@[b].id by {
                        assert(old(v)@[a].id != old(v)@[b].id);
                    }
                    assert(schema_views(v@) =~= sv.update(i as int, schema_view(x0)));
                    assert forall|k: int| 0 <= k < v@.len() implies (#[trigger] v@[k] == x0 || old(v)@.contains(v@[k])) by {
                        if k != i as int {
                            assert(old(v)@[k] == v@[k]);
                        }
                    }
                }
                return;
            }
            i += 1;
        }
        proof {
            assert forall|k: int| 0 <= k < sv.len() implies (#[trigger] sv[k]).0 != x.id by {
                assert(v@[k].id != x.id);
            }
        }
        let ghost x0 = x;
        v.push(x);
        proof {
            assert(schema_views(v@) =~= sv.push(schema_view(x0)));
            assert forall|k: int| 0 <= k < v@.len() implies (#[trigger] v@[k] == x0 || old(v)@.contains(v@[k])) by {
                if k < old(v)@.len() {
                    assert(old(v)@[k] == v@[k]);
                }
            }
        }
    }

    /// Register `channel` by id, replacing an earlier channel with the same id.
    fn upsert_channel_vec(v: &mut Vec<Channel>, x: Channel)
        requires
            forall|i: int, j: int| 0 <= i < j < old(v)@.len() ==> #[trigger] old(v)@[i].id != #[trigger] old(v)@[j].id,
        ensures
            channel_views(final(v)@) == upsert_channel(channel_views(old(v)@), channel_view(x)),
            forall|i: int, j: int| 0 <= i < j < final(v)@.len() ==> #[trigger] final(v)@[i].id != #[trigger] final(v)@[j].id,
            forall|i: int| 0 <= i < final(v)@.len() ==> (#[trigger] final(v)@[i] == x || old(v)@.contains(final(v)@[i])),
    {
        let ghost sv = channel_views(old(v)@);
        let mut i: usize = 0;
        while i < v.len()
            invariant
                i <= v@.len(),
                v@ == old(v)@,
                forall|a: int, b: int| 0 <= a < b < old(v)@.len() ==> #[trigger] old(v)@[a].id != #[trigger] old(v)@[b].id,
                sv == channel_views(v@),
                forall|k: int| 0 <= k < i ==> (#[trigger] v@[k]).id != x.id,
            decreases v@.len() - i,
        {
            if v[i].id == x.id {
                proof {
                    assert(sv[i as int].0 == x.id);
                    let w = choose|k: int| 0 <= k < sv.len() && (#[trigger] sv[k]).0 == x.id;
                    assert(sv[w].0 == x.id);
                    assert(v@[w].id == x.id);
                    if w < i as int {
                        assert(v@[w].id != v@[i as int].id);
                    } else if w > i as int {
                        assert(v@[i as int].id != v@[w].id);
                    }
                    assert(w == i as int);
                }
                let ghost x0 = x;
                v.set(i, x);
                proof {
                    assert forall|a: int, b: int| 0 <= a < b < v@.len() implies #[trigger] v@[a].id != #[trigger] v@[b].id by {
                        assert(old(v)@[a].id != old(v)@[b].id);
                    }
                    assert(channel_views(v@) =~= sv.update(i as int, channel_view(x0)));
                    assert forall|k: int| 0 <= k < v@.len() implies (#[trigger] v@[k] == x0 || old(v)@.contains(v@[k])) by {
                        if k != i as int {
                            assert(old(v)@[k] == v@[k]);
                        }
                    }
                }
                return;
            }
            i += 1;
        }
        proof {
            assert forall|k: int| 0 <= k < sv.len() implies (#[trigger] sv[k]).0 != x.id by {
                assert(v@[k].id != x.id);
            }
        }
        let ghost x0 = x;
        v.push(x);
        proof {
            assert(channel_views(v@) =~= sv.push(channel_view(x0)));
            assert forall|k: int| 0 <= k < v@.len() implies (#[trigger] v@[k] == x0 || old(v)@.contains(v@[k])) by {
                if k < old(v)@.len() {
                    assert(old(v)@[k] == v@[k]);
                }
            }
        }
    }

    /// Map `(name, encoding, data)` to `id` in the schema key table.
    fn upsert_key_vec(t: &mut Vec<(SchemaKey, u16)>, key: SchemaKey, id: u16)
        requires
            keys_distinct(key_table_view(old(t)@)),
        ensures
            key_table_view(final(t)@) == upsert_key(key_table_view(old(t)@), key.name@, key.encoding@, key.data@, id),
            keys_distinct(key_table_view(final(t)@)),
    {
        let ghost tv = key_table_view(old(t)@);
        let ghost kn = key.name@;
        let ghost ke = key.encoding@;
        let ghost kd = key.data@;
        let mut i: usize = 0;
        while i < t.len()
            invariant
                i <= t@.len(),
                t@ == old(t)@,
                tv == key_table_view(t@),
                keys_distinct(tv),
                kn == key.name@ && ke == key.encoding@ && kd == key.data@,
                forall|k: int| 0 <= k < i ==> !((#[trigger] tv[k]).0 == kn && tv[k].1 == ke && tv[k].2 == kd),
            decreases t@.len() - i,
        {
            if t[i].0.name == key.name && t[i].0.encoding == key.encoding
                && bytes_eq(t[i].0.data.as_slice(), key.data.as_slice()) {
                proof {
                    assert(tv[i as int].0 == kn && tv[i as int].1 == ke && tv[i as int].2 == kd);
                    let w = choose|k: int| 0 <= k < tv.len() && (#[trigger] tv[k]).0 == kn && tv[k].1 == ke && tv[k].2 == kd;
                    assert(tv[w].0 == kn && tv[w].1 == ke && tv[w].2 == kd);
                    if w != i as int {
                        assert(!same_key(tv[w], tv[i as int]));
                    }
                    assert(w == i as int);
                }
                t.set(i, (key, id));
                proof {
                    assert(key_table_view(t@) =~= tv.update(i as int, (kn, ke, kd, id)));
                    assert forall|a: int, b: int| 0 <= a < b < key_table_view(t@).len() implies
                        !same_key(#[trigger] key_table_view(t@)[a], #[trigger] key_table_view(t@)[b]) by {
                        assert(!same_key(tv[a], tv[b]));
                    }
                }
                return;
            }
            i += 1;
        }
        t.push((key, id));
        proof {
            assert(key_table_view(t@) =~= tv.push((kn, ke, kd, id)));
            assert forall|a: int, b: int| 0 <= a < b < key_table_view(t@).len() implies
                !same_key(#[trigger] key_table_view(t@)[a], #[trigger] key_table_view(t@)[b]) by {
                if b < tv.len() {
                    assert(!same_key(tv[a], tv[b]));
                } else {
                    assert(!(tv[a].0 == kn && tv[a].1 == ke && tv[a].2 == kd));
                }
            }
        }
    }

    /// Write a Schema record and register the schema (by id, and by content
    /// for reuse). Schema id 0 is refused: it means "no schema" in channels.
    pub fn copy_schema(&mut self, schema: &Schema) -> (r: Result<()>)
        requires
            old(self).well_formed(),
        ensures
            final(self).well_formed(),
            r is Ok <==> old(self).spec_prelude_ok() && schema.id != 0 && schema_fits(*schema),
            r matches Err(e) ==> e is InvalidRecord,
            (!old(self).spec_prelude_ok() || schema.id == 0) ==> *final(self) == *old(self),
            (old(self).spec_prelude_ok() && schema.id != 0) ==> {
                &&& opened_keep(*old(self), *final(self))
                &&& final(self).channels() == old(self).channels()
                &&& final(self).next_channel() == old(self).next_channel()
                &&& final(self).stats() == old(self).stats()
                &&& final(self).attachment_indexes() == old(self).attachment_indexes()
                &&& final(self).metadata_indexes() == old(self).metadata_indexes()
                &&& if schema_fits(*schema) {
                    &&& final(self).bytes() == old(self).bytes() + old(self).spec_prelude()
                        + spec_schema_record(schema_view(*schema))
                    &&& final(self).schemas() == upsert_schema(old(self).schemas(), schema_view(*schema))
                    &&& final(self).next_schema() == next_id_after(old(self).next_schema(), schema.id)
                    &&& final(self).schema_key_table() == upsert_key(
                        old(self).schema_key_table(), schema.name@, schema.encoding@, schema.data@, schema.id)
                } else {
                    &&& final(self).bytes() == old(self).bytes() + old(self).spec_prelude()
                    &&& same_registry(*old(self), *final(self))
                }
            },
            old(self).is_finished() ==> (r matches Err(e) && invalid_with(e, "cannot write schema after finish"@)),
    {
        if self.finished {
            return Err(invalid("cannot write schema after finish"));
        }
        if schema.id == 0 {
            return Err(invalid("schema ID 0 is invalid (use 0 in channel.schema_id to indicate no schema)"));
        }
        self.open_for_write()?;
        let payload = encode_schema_payload(schema)?;
        let bumped = schema.id.saturating_add(1);
        if self.next_schema_id < bumped {
            self.next_schema_id = bumped;
        }
        let stored = Self::copy_schema_value(schema);
        let ghost sv0 = self.schemas@;
        Self::upsert_schema_vec(&mut self.schemas, stored);
        proof {
            assert forall|i: int| 0 <= i < self.schemas@.len() implies schema_fits(#[trigger] self.schemas@[i]) by {
                if self.schemas@[i] != stored {
                    let k = choose|k: int| 0 <= k < sv0.len() && sv0[k] == self.schemas@[i];
                    assert(schema_fits(sv0[k]));
                }
            }
        }
        let key = SchemaKey {
            name: schema.name.clone(),
            encoding: schema.encoding.clone(),
            data: vstd::slice::slice_to_vec(schema.data.as_slice()),
        };
        Self::upsert_key_vec(&mut self.schema_ids_by_key, key, schema.id);
        let mut rec: Vec<u8> = Vec::new();
        write_record(&mut rec, Opcode::Schema, payload.as_slice());
        self.sink.append(rec.as_slice());
        Ok(())
    }

    /// Write a Channel record and register the channel by id.
    fn write_channel_internal(&mut self, channel: &Channel) -> (r: Result<()>)
        requires
            old(self).well_formed(),
        ensures
            final(self).well_formed(),
            r is Ok <==> old(self).spec_prelude_ok() && channel_fits(*channel),
            r matches Err(e) ==> e is InvalidRecord,
            !old(self).spec_prelude_ok() ==> *final(self) == *old(self),
            old(self).spec_prelude_ok() ==> {
                &&& opened_keep(*old(self), *final(self))
                &&& final(self).sink.start() == old(self).sink.start()
                &&& final(self).schemas() == old(self).schemas()
                &&& final(self).next_schema() == old(self).next_schema()
                &&& final(self).schema_key_table() == old(self).schema_key_table()
                &&& final(self).stats() == old(self).stats()
                &&& final(self).attachment_indexes() == old(self).attachment_indexes()
                &&& final(self).metadata_indexes() == old(self).metadata_indexes()
                &&& if channel_fits(*channel) {
                    &&& final(self).bytes() == old(self).bytes() + old(self).spec_prelude()
                        + spec_channel_record(channel_view(*channel))
                    &&& final(self).channels() == upsert_channel(old(self).channels(), channel_view(*channel))
                    &&& final(self).next_channel() == next_id_after(old(self).next_channel(), channel.id)
                } else {
                    &&& final(self).bytes() == old(self).bytes() + old(self).spec_prelude()
                    &&& same_registry(*old(self), *final(self))
                }
            },
    {
        if self.finished {
            return Err(invalid("cannot write channel after finish"));
        }
        self.open_for_write()?;
        let payload = encode_channel_payload(channel)?;
        let bumped = channel.id.saturating_add(1);
        if self.next_channel_id < bumped {
            self.next_channel_id = bumped;
        }
        let stored = Self::copy_channel_value(channel);
        let ghost cv0 = self.channels@;
        Self::upsert_channel_vec(&mut self.channels, stored);
        proof {
            assert forall|i: int| 0 <= i < self.channels@.len() implies channel_fits(#[trigger] self.channels@[i]) by {
                if self.channels@[i] != stored {
                    let k = choose|k: int| 0 <= k < cv0.len() && cv0[k] == self.channels@[i];
                    assert(channel_fits(cv0[k]));
                }
            }
        }
        let mut rec: Vec<u8> = Vec::new();
        write_record(&mut rec, Opcode::Channel, payload.as_slice());
        self.sink.append(rec.as_slice());
        Ok(())
    }

    /// Register a fresh chunk stream with `options` for channel `idx`,
    /// replacing any stream registered before.
    fn set_override_slot(&mut self, idx: u16, options: ChunkOptions)
        requires
            old(self).well_formed(),
            options.compression is None,
        ensures
            final(self).well_formed(),
            final(self).same_except_streams(*old(self)),
            final(self).bytes() == old(self).bytes(),
            final(self).sink.start() == old(self).sink.start(),
            final(self).streams.default == old(self).streams.default,
            final(self).streams.indexes == old(self).streams.indexes,
            final(self).override_streams().len() == (if old(self).override_streams().len() <= idx {
                idx + 1
            } else {
                old(self).override_streams().len() as int
            }),
            final(self).override_streams()[idx as int] matches Some(st) && fresh_stream(st, options),
            forall|j: int| 0 <= j < final(self).override_streams().len() && j != idx ==>
                #[trigger] final(self).override_streams()[j] == (if j < old(self).override_streams().len() {
                    old(self).override_streams()[j]
                } else {
                    None
                }),
    {
        let i = idx as usize;
        let ghost ov0 = self.streams.overrides@;
        let mut ov: Vec<Option<ChunkState>> = Vec::new();
        std::mem::swap(&mut ov, &mut self.streams.overrides);
        while ov.len() <= i
            invariant
                ov@.len() >= ov0.len(),
                ov0.len() <= i + 1 ==> ov@.len() <= i + 1,
                ov0.len() > i ==> ov@ == ov0,
                forall|j: int| 0 <= j < ov0.len() ==> #[trigger] ov@[j] == ov0[j],
                forall|j: int| ov0.len() <= j < ov@.len() ==> #[trigger] ov@[j] is None,
            decreases i + 1 - ov@.len(),
        {
            ov.push(None);
        }
        let st = ChunkState::new(options);
        ov.set(i, Some(st));
        self.streams.overrides = ov;
        proof {
            assert forall|j: int| 0 <= j < self.streams.overrides@.len() implies
                (#[trigger] self.streams.overrides@[j] matches Some(s2) ==> s2.options.compression is None && state_fits(s2)) by {
                if j != i as int && j < ov0.len() {
                    assert(ov0[j] matches Some(s0) ==> s0.options.compression is None && state_fits(s0));
                }
            }
            assert(slots_fit(self.streams.overrides@));
        }
    }

    /// The id registered for schema content `(name, encoding, data)`, if any.
    fn find_schema_key(&self, name: &String, encoding: &String, data: &[u8]) -> (r: Option<u16>)
        requires
            self.well_formed(),
        ensures
            r == lookup_key(self.schema_key_table(), name@, encoding@, data@),
    {
        let ghost tv = self.schema_key_table();
        let mut i: usize = 0;
        while i < self.schema_ids_by_key.len()
            invariant
                i <= self.schema_ids_by_key@.len(),
                tv == key_table_view(self.schema_ids_by_key@),
                keys_distinct(tv),
                forall|k: int| 0 <= k < i ==> !((#[trigger] tv[k]).0 == name@ && tv[k].1 == encoding@ && tv[k].2 == data@),
            decreases self.schema_ids_by_key@.len() - i,
        {
            let entry = &self.schema_ids_by_key[i];
            if entry.0.name == *name && entry.0.encoding == *encoding && bytes_eq(entry.0.data.as_slice(), data) {
                proof {
                    assert(tv[i as int].0 == name@ && tv[i as int].1 == encoding@ && tv[i as int].2 == data@);
                    let w = choose|k: int| 0 <= k < tv.len() && (#[trigger] tv[k]).0 == name@ && tv[k].1 == encoding@ && tv[k].2 == data@;
                    assert(tv[w].0 == name@ && tv[w].1 == encoding@ && tv[w].2 == data@);
                    if w != i as int {
                        assert(!same_key(tv[w], tv[i as int]));
                    }
                }
                return Some(entry.1);
            }
            i += 1;
        }
        None
    }

    /// Add a channel (and its schema, reusing the id of an identical schema
    /// already written) and return a writer for its messages. Channel and
    /// schema ids are handed out in sequence.
    pub fn add_channel(&mut self, spec: ChannelSpec) -> (r: Result<ChannelWriter>)
        requires
            old(self).well_formed(),
            spec.metadata.well_formed(),
        ensures
            final(self).well_formed(),
            unsupported_override(spec.chunk_override) ==> r == Err::<ChannelWriter, Error>(Error::UnsupportedCompression)
                && *final(self) == *old(self),
            !unsupported_override(spec.chunk_override) && old(self).is_finished() ==> r is Err && *final(self) == *old(self),
            !unsupported_override(spec.chunk_override) && !old(self).spec_prelude_ok() ==> r is Err,
            r matches Err(e) ==> (e is InvalidRecord || e is UnsupportedCompression),
            !unsupported_override(spec.chunk_override) && old(self).spec_prelude_ok()
                ==> channel_added(*old(self), *final(self), spec, r),
    {
        let has_override = match &spec.chunk_override {
            Some(o) => {
                if o.compression.is_some() {
                    return Err(Error::UnsupportedCompression);
                }
                true
            },
            None => false,
        };
        if self.finished {
            return Err(invalid("cannot add channel after finish"));
        }
        let ghost w0 = *self;
        let schema_id = match &spec.schema {
            None => 0,
            Some(sc) => match self.find_schema_key(&sc.name, &sc.encoding, sc.data.as_slice()) {
                Some(id) => id,
                None => {
                    let id = self.next_schema_id;
                    self.next_schema_id = self.next_schema_id.saturating_add(1);
                    let schema = Schema {
                        id,
                        name: sc.name.clone(),
                        encoding: sc.encoding.clone(),
                        data: vstd::slice::slice_to_vec(sc.data.as_slice()),
                    };
                    self.copy_schema(&schema)?;
                    id
                },
            },
        };
        let ghost w1 = *self;
        proof {
            if spec.schema is Some && lookup_key(w0.schema_key_table(), spec.schema->Some_0.name@,
                spec.schema->Some_0.encoding@, spec.schema->Some_0.data@) is None {
                lemma_prelude_idempotent(w0, w1);
            }
        }
        let id = self.next_channel_id;
        self.next_channel_id = self.next_channel_id.saturating_add(1);
        let channel = Channel {
            id,
            topic: spec.topic,
            message_encoding: spec.message_encoding,
            schema_id,
            metadata: spec.metadata,
        };
        let ghost w2 = *self;
        self.write_channel_internal(&channel)?;
        let ghost w3 = *self;
        match spec.chunk_override {
            Some(opts) => {
                self.set_override_slot(id, opts);
            },
            None => {},
        }
        proof {
            if spec.schema is Some && lookup_key(w0.schema_key_table(), spec.schema->Some_0.name@,
                spec.schema->Some_0.encoding@, spec.schema->Some_0.data@) is None {
                lemma_idle_flush_keeps(w0, w2, w3, w2.start_position() + (w2.bytes() + w2.spec_header_part()).len());
            }
            assert(streams_flushed(w0, w3, false, w0.start_position() + (w0.bytes() + w0.spec_header_part()).len()));
        }
        Ok(ChannelWriter { channel_id: id, next_sequence: 0, has_chunk_override: has_override })
    }

    /// Copy a channel from another file, keeping its id; returns a writer for its messages.
    pub fn copy_channel(&mut self, channel: &Channel) -> (r: Result<ChannelWriter>)
        requires
            old(self).well_formed(),
        ensures
            final(self).well_formed(),
            r is Ok <==> old(self).spec_prelude_ok() && channel_fits(*channel),
            r matches Err(e) ==> e is InvalidRecord,
            !old(self).spec_prelude_ok() ==> *final(self) == *old(self),
            old(self).spec_prelude_ok() ==> {
                &&& opened_keep(*old(self), *final(self))
                &&& final(self).schemas() == old(self).schemas()
                &&& final(self).stats() == old(self).stats()
                &&& final(self).attachment_indexes() == old(self).attachment_indexes()
                &&& final(self).metadata_indexes() == old(self).metadata_indexes()
                &&& r matches Ok(cw) ==> {
                    &&& cw.id() == channel.id && cw.next_seq() == 0 && !cw.overridden()
                    &&& final(self).bytes() == old(self).bytes() + old(self).spec_prelude()
                        + spec_channel_record(channel_view(*channel))
                    &&& final(self).channels() == upsert_channel(old(self).channels(), channel_view(*channel))
                    &&& final(self).next_channel() == next_id_after(old(self).next_channel(), channel.id)
                }
            },
    {
        self.write_channel_internal(channel)?;
        Ok(ChannelWriter { channel_id: channel.id, next_sequence: 0, has_chunk_override: false })
    }

    /// Copy a channel from another file, keeping its id, and route its
    /// messages to a dedicated chunk stream configured by `options` (replacing
    /// any stream registered for the id before).
    pub fn copy_channel_with_override(&mut self, channel: &Channel, options: ChunkOptions) -> (r: Result<ChannelWriter>)
        requires
            old(self).well_formed(),
        ensures
            final(self).well_formed(),
            options.compression is Some ==> r == Err::<ChannelWriter, Error>(Error::UnsupportedCompression)
                && *final(self) == *old(self),
            options.compression is None ==> (r is Ok <==> old(self).spec_prelude_ok() && channel_fits(*channel)),
            options.compression is None && !old(self).spec_prelude_ok() ==> *final(self) == *old(self),
            options.compression is None && r is Err ==> r->Err_0 is InvalidRecord,
            r matches Ok(cw) ==> {
                &&& cw.id() == channel.id && cw.next_seq() == 0 && cw.overridden()
                &&& final(self).bytes() == old(self).bytes() + old(self).spec_prelude()
                    + spec_channel_record(channel_view(*channel))
                &&& final(self).channels() == upsert_channel(old(self).channels(), channel_view(*channel))
                &&& final(self).next_channel() == next_id_after(old(self).next_channel(), channel.id)
                &&& final(self).schemas() == old(self).schemas()
                &&& final(self).stats() == old(self).stats()
                &&& final(self).header_written()
                &&& final(self).is_finished() == old(self).is_finished()
                &&& exists|mid: Writer| {
                    &&& #[trigger] streams_flushed(*old(self), mid, false,
                        old(self).start_position() + (old(self).bytes() + old(self).spec_header_part()).len())
                    &&& final(self).default_stream() == mid.default_stream()
                    &&& final(self).chunk_indexes() == mid.chunk_indexes()
                    &&& slot_registered(mid.override_streams(), final(self).override_streams(), channel.id as int, options)
                }
            },
    {
        if options.compression.is_some() {
            return Err(Error::UnsupportedCompression);
        }
        self.write_channel_internal(channel)?;
        let ghost w1 = *self;
        self.set_override_slot(channel.id, options);
        proof {
            assert(streams_flushed(*old(self), w1, false,
                old(self).start_position() + (old(self).bytes() + old(self).spec_header_part()).len()));
        }
        Ok(ChannelWriter { channel_id: channel.id, next_sequence: 0, has_chunk_override: true })
    }

    /// Whether the writer has a dedicated chunk stream for channel `id`.
    pub fn has_override_stream(&self, id: u16) -> (r: bool)
        ensures
            r == ((id as int) < self.override_streams().len() && self.override_streams()[id as int] is Some),
    {
        (id as usize) < self.streams.overrides.len() && self.streams.overrides[id as usize].is_some()
    }

    /// Buffer a message into the default chunk stream, or write it as a
    /// top-level Message record when the writer is not chunked.
    #[verifier::rlimit(30)]
    fn write_raw_message_default(
        &mut self,
        channel_id: u16,
        sequence: u32,
        log_time: u64,
        publish_time: u64,
        data: &[u8],
    ) -> (r: Result<()>)
        requires
            old(self).well_formed(),
            old(self).default_stream() matches Some(st) ==> has_room(st, data@.len()),
        ensures
            final(self).well_formed(),
            r is Ok <==> old(self).spec_prelude_ok(),
            r is Err ==> *final(self) == *old(self) && r->Err_0 is InvalidRecord,
            r is Ok ==> message_written_default(*old(self), *final(self), channel_id, sequence, log_time, publish_time, data@),
    {
        if self.finished {
            return Err(invalid("cannot write message after finish"));
        }
        self.write_header()?;
        update_channel_stats(&mut self.channel_stats, channel_id, log_time);
        assert(self.channel_stats@.len() <= 65536);
        let chunked = self.streams.default.is_some();
        if chunked {
            let mut slot: Option<ChunkState> = None;
            std::mem::swap(&mut slot, &mut self.streams.default);
            let mut state = slot.unwrap();
            state.push_message(channel_id, sequence, log_time, publish_time, data);
            proof {
                crate::decode::lemma_message_record_len(channel_id, sequence, log_time, publish_time, data@);
                assert(state_fits(state));
            }
            self.streams.default = Some(state);
            let ghost mid = *self;
            self.flush_due(false);
            proof {
                let st = old(self).default_stream()->Some_0;
                assert(mid.bytes() == old(self).bytes() + old(self).spec_header_part());
                assert(mid.override_streams() == old(self).override_streams());
                assert(mid.chunk_indexes() == old(self).chunk_indexes());
                assert(mid.default_stream() matches Some(p)
                    && pushed(st, p, channel_id, sequence, log_time, publish_time, data@));
                assert(streams_flushed(mid, *self, false,
                    old(self).start_position() + (old(self).bytes() + old(self).spec_header_part()).len()));
                assert(self.bytes() == old(self).bytes() + old(self).spec_header_part()
                    + spec_flush_bytes(mid.override_streams(), mid.default_stream(), false));
            }
            Ok(())
        } else {
            let mut rec: Vec<u8> = Vec::new();
            crate::chunk::push_message_prefix(&mut rec, channel_id, sequence, log_time, publish_time, data.len());
            rec.extend_from_slice(data);
            assert(rec@ =~= spec_message_record(channel_id, sequence, log_time, publish_time, data@));
            let ghost before = self.bytes();
            self.sink.append(rec.as_slice());
            assert(before == old(self).bytes() + old(self).spec_header_part());
            Ok(())
        }
    }

    /// Buffer a message into the dedicated chunk stream of its channel and
    /// flush that stream if due.
    #[verifier::rlimit(30)]
    fn write_raw_message_override(
        &mut self,
        channel_id: u16,
        sequence: u32,
        log_time: u64,
        publish_time: u64,
        data: &[u8],
    ) -> (r: Result<()>)
        requires
            old(self).well_formed(),
            (channel_id as int) < old(self).override_streams().len(),
            old(self).override_streams()[channel_id as int] matches Some(st) && has_room(st, data@.len()),
        ensures
            final(self).well_formed(),
            r is Ok <==> old(self).spec_prelude_ok(),
            r is Err ==> *final(self) == *old(self) && r->Err_0 is InvalidRecord,
            r is Ok ==> message_written_override(*old(self), *final(self), channel_id, sequence, log_time, publish_time, data@),
    {
        if self.finished {
            return Err(invalid("cannot write message after finish"));
        }
        self.write_header()?;
        update_channel_stats(&mut self.channel_stats, channel_id, log_time);
        assert(self.channel_stats@.len() <= 65536);
        let idx = channel_id as usize;
        let ghost ov0 = self.streams.overrides@;
        let mut slot: Option<ChunkState> = None;
        std::mem::swap(&mut slot, &mut self.streams.overrides[idx]);
        let mut state = slot.unwrap();
        state.push_message(channel_id, sequence, log_time, publish_time, data);
        proof {
            crate::decode::lemma_message_record_len(channel_id, sequence, log_time, publish_time, data@);
            assert(state_fits(state));
        }
        let ghost p = state;
        self.streams.overrides.set(idx, Some(state));
        proof {
            assert forall|j: int| 0 <= j < self.streams.overrides@.len() implies
                (#[trigger] self.streams.overrides@[j] matches Some(s2) ==> s2.options.compression is None && state_fits(s2)) by {
                if j != idx as int {
                    assert(ov0[j] matches Some(s0) ==> s0.options.compression is None && state_fits(s0));
                } else {
                    assert(ov0[j] matches Some(s0) ==> s0.options.compression is None);
                }
            }
            assert(slots_fit(self.streams.overrides@));
        }
        let ghost before = *self;
        flush_override(&mut self.streams, &mut self.sink, idx, false);
        proof {
            assert(before.bytes() == old(self).bytes() + old(self).spec_header_part());
            assert(pushed(old(self).override_streams()[channel_id as int]->Some_0, p, channel_id, sequence, log_time,
                publish_time, data@));
            assert forall|j: int| 0 <= j < self.streams.overrides@.len() implies
                (#[trigger] self.streams.overrides@[j] matches Some(s2) ==> s2.options.compression is None && state_fits(s2)) by {
                assert(before.streams.overrides@[j] matches Some(s0) ==> s0.options.compression is None && state_fits(s0));
            }
            assert(slots_fit(self.streams.overrides@));
            if spec_should_flush(p, false) {
                let i3 = self.streams.indexes@;
                empty_str_fits();
                assert forall|k: int| 0 <= k < i3.len() implies str_fits(#[trigger] i3[k].compression@) by {
                    if k < i3.len() - 1 {
                        assert(i3.drop_last()[k] == i3[k]);
                    }
                }
            }
        }
        Ok(())
    }

    /// Whether the stream a channel writer's messages go to can take a
    /// message of `n` bytes.
    pub fn can_buffer(&self, cw: &ChannelWriter, n: usize) -> (r: bool)
        ensures
            r == buffer_room(*self, *cw, n as nat),
    {
        let target = if cw.has_chunk_override {
            if (cw.channel_id as usize) >= self.streams.overrides.len() {
                return false;
            }
            &self.streams.overrides[cw.channel_id as usize]
        } else {
            &self.streams.default
        };
        match target {
            Some(st) => {
                let len = st.records.len() as u64;
                len <= u64::MAX - 80 && (n as u64) <= u64::MAX - 80 - len
            },
            None => true,
        }
    }

    /// Whether the header fits its length fields.
    fn header_fits_now(&self) -> (r: bool)
        ensures
            r == header_fits(self.header),
    {
        let mut scratch: Vec<u8> = Vec::new();
        push_len_prefixed_str(&mut scratch, &self.header.profile).is_ok()
            && push_len_prefixed_str(&mut scratch, &self.header.library).is_ok()
            && push_metadata_map(&mut scratch, &self.header.metadata).is_ok()
    }

    /// Copy a top-level Message record (not re-chunked) and count it in the statistics.
    pub fn copy_message_record(&mut self, message: &Message) -> (r: Result<()>)
        requires
            old(self).well_formed(),
            message.payload.well_formed(),
        ensures
            final(self).well_formed(),
            r is Ok <==> old(self).spec_prelude_ok(),
            r is Err ==> *final(self) == *old(self) && r->Err_0 is InvalidRecord,
            r is Ok ==> {
                &&& opened_keep(*old(self), *final(self))
                &&& final(self).bytes() == old(self).bytes() + old(self).spec_prelude()
                    + spec_message_record(message.channel_id, message.sequence, message.log_time,
                        message.publish_time, message.payload@)
                &&& final(self).stats() == spec_update_stats(old(self).stats(), message.channel_id, message.log_time)
                &&& final(self).schemas() == old(self).schemas()
                &&& final(self).channels() == old(self).channels()
                &&& final(self).attachment_indexes() == old(self).attachment_indexes()
                &&& final(self).metadata_indexes() == old(self).metadata_indexes()
            },
    {
        self.open_for_write()?;
        update_channel_stats(&mut self.channel_stats, message.channel_id, message.log_time);
        assert(self.channel_stats@.len() <= 65536);
        let data = message.data();
        let mut rec: Vec<u8> = Vec::new();
        crate::chunk::push_message_prefix(&mut rec, message.channel_id, message.sequence, message.log_time,
            message.publish_time, data.len());
        rec.extend_from_slice(data);
        assert(rec@ =~= spec_message_record(message.channel_id, message.sequence, message.log_time,
            message.publish_time, message.payload@));
        self.sink.append(rec.as_slice());
        Ok(())
    }

    /// Copy an attachment from another file.
    pub fn copy_attachment(
        &mut self,
        log_time: u64,
        create_time: u64,
        name: &String,
        media_type: &String,
        data: &[u8],
    ) -> (r: Result<()>)
        requires
            old(self).well_formed(),
        ensures
            final(self).well_formed(),
            r is Ok <==> old(self).spec_prelude_ok() && attachment_fits(name@, media_type@, data@),
            r matches Err(e) ==> e is InvalidRecord,
            !old(self).spec_prelude_ok() ==> *final(self) == *old(self),
            old(self).spec_prelude_ok() ==> attachment_written(*old(self), *final(self), log_time, create_time,
                name@, media_type@, data@),
    {
        self.write_attachment(log_time, create_time, name, media_type, data)
    }

    /// Copy an Attachment record (its fields and data) from another file.
    pub fn copy_attachment_record(&mut self, att: &Attachment) -> (r: Result<()>)
        requires
            old(self).well_formed(),
        ensures
            final(self).well_formed(),
            r is Ok <==> old(self).spec_prelude_ok() && attachment_fits(att.name@, att.media_type@, att.data@),
            r matches Err(e) ==> e is InvalidRecord,
            !old(self).spec_prelude_ok() ==> *final(self) == *old(self),
            old(self).spec_prelude_ok() ==> attachment_written(*old(self), *final(self), att.log_time,
                att.create_time, att.name@, att.media_type@, att.data@),
    {
        self.write_attachment(att.log_time, att.create_time, &att.name, &att.media_type, att.data.as_slice())
    }

    /// Count the messages of `msgs` (channel, log time) in the statistics, in order.
    fn count_messages(&mut self, msgs: &Vec<(u16, u64)>)
        requires
            old(self).well_formed(),
        ensures
            final(self).well_formed(),
            final(self).stats() == spec_update_stats_all(old(self).stats(), msgs@),
            final(self).bytes() == old(self).bytes(),
            final(self).sink == old(self).sink,
            final(self).streams == old(self).streams,
            final(self).same_except_stats(*old(self)),
    {
        let mut stats: Vec<ChannelStats> = Vec::new();
        std::mem::swap(&mut stats, &mut self.channel_stats);
        let mut i: usize = 0;
        assert(msgs@.skip(0) =~= msgs@);
        while i < msgs.len()
            invariant
                i <= msgs@.len(),
                stats@.len() <= 65536,
                spec_update_stats_all(old(self).stats(), msgs@) == spec_update_stats_all(stats@, msgs@.skip(i as int)),
            decreases msgs@.len() - i,
        {
            let (ch, t) = msgs[i];
            update_channel_stats(&mut stats, ch, t);
            assert(msgs@.skip(i as int).drop_first() =~= msgs@.skip(i + 1));
            i += 1;
        }
        assert(msgs@.skip(i as int) =~= Seq::<(u16, u64)>::empty());
        self.channel_stats = stats;
    }

    /// Every field but the output and the statistics is unchanged.
    pub closed spec fn same_except_stats(&self, other: Writer) -> bool {
        &&& self.header == other.header
        &&& self.wrote_header == other.wrote_header
        &&& self.finished == other.finished
        &&& self.next_schema_id == other.next_schema_id
        &&& self.next_channel_id == other.next_channel_id
        &&& self.validation == other.validation
        &&& self.always_write_summary == other.always_write_summary
        &&& self.schemas == other.schemas
        &&& self.channels == other.channels
        &&& self.attachment_indexes == other.attachment_indexes
        &&& self.metadata_indexes == other.metadata_indexes
        &&& self.schema_ids_by_key == other.schema_ids_by_key
    }

    /// Copy a Chunk record without re-encoding its records, index it, and
    /// count its messages when the records are uncompressed.
    #[verifier::rlimit(40)]
    pub fn copy_chunk_record(&mut self, chunk: &Chunk) -> (r: Result<()>)
        requires
            old(self).well_formed(),
        ensures
            final(self).well_formed(),
            r is Ok <==> old(self).spec_prelude_ok() && chunk_fits(*chunk),
            r matches Err(e) ==> e is InvalidRecord,
            !old(self).spec_prelude_ok() ==> *final(self) == *old(self),
            old(self).spec_prelude_ok() ==> {
                &&& final(self).header_written()
                &&& final(self).file_header() == old(self).file_header()
                &&& final(self).is_finished() == old(self).is_finished()
                &&& final(self).start_position() == old(self).start_position()
                &&& final(self).schemas() == old(self).schemas()
                &&& final(self).channels() == old(self).channels()
                &&& final(self).attachment_indexes() == old(self).attachment_indexes()
                &&& final(self).metadata_indexes() == old(self).metadata_indexes()
                &&& exists|mid: Writer| {
                    &&& #[trigger] streams_flushed(*old(self), mid, false,
                        old(self).start_position() + (old(self).bytes() + old(self).spec_header_part()).len())
                    &&& final(self).default_stream() == mid.default_stream()
                    &&& final(self).override_streams() == mid.override_streams()
                    &&& if chunk_fits(*chunk) {
                        let info = final(self).chunk_indexes().last();
                        &&& final(self).bytes() == old(self).bytes() + old(self).spec_prelude()
                            + spec_copied_chunk_record(*chunk)
                        &&& final(self).chunk_indexes().drop_last() == mid.chunk_indexes()
                        &&& final(self).chunk_indexes().len() == mid.chunk_indexes().len() + 1
                        &&& info.message_start_time == chunk.message_start_time
                        &&& info.message_end_time == chunk.message_end_time
                        &&& info.chunk_start_offset == sat(old(self).start_position()
                            + (old(self).bytes() + old(self).spec_prelude()).len())
                        &&& info.chunk_length == spec_copied_chunk_record(*chunk).len()
                        &&& info.compression@ == chunk.compression@
                        &&& info.compressed_size == chunk.records@.len()
                        &&& info.uncompressed_size == chunk.uncompressed_size
                        &&& final(self).stats() == (if uncompressed_name(chunk.compression@) {
                            spec_update_stats_all(old(self).stats(), spec_scan_messages(chunk.records@, 0))
                        } else {
                            old(self).stats()
                        })
                    } else {
                        &&& final(self).bytes() == old(self).bytes() + old(self).spec_prelude()
                        &&& final(self).chunk_indexes() == mid.chunk_indexes()
                        &&& final(self).stats() == old(self).stats()
                    }
                }
            },
            old(self).is_finished() ==> (r matches Err(e) && invalid_with(e, "cannot write chunk after finish"@)),
    {
        if self.finished {
            return Err(invalid("cannot write chunk after finish"));
        }
        self.open_for_write()?;
        let ghost mid = *self;
        let start = self.sink.position();
        let mut fixed: Vec<u8> = Vec::new();
        push_le_u64(&mut fixed, chunk.message_start_time);
        push_le_u64(&mut fixed, chunk.message_end_time);
        push_le_u64(&mut fixed, chunk.uncompressed_size);
        push_le_u32(&mut fixed, chunk.uncompressed_crc);
        let comp_ok = push_len_prefixed_str(&mut fixed, &chunk.compression);
        if comp_ok.is_err() {
            return Err(invalid("chunk compression length exceeds u32"));
        }
        proof {
            crate::decode::lemma_le_fields_round_trip(Seq::empty(), Seq::empty(), 0, chunk.uncompressed_crc,
                chunk.message_start_time);
            crate::decode::lemma_le_fields_round_trip(Seq::empty(), Seq::empty(), 0,
                str_bytes(chunk.compression@).len() as u32, chunk.message_end_time);
            crate::decode::lemma_le_fields_round_trip(Seq::empty(), Seq::empty(), 0, 0, chunk.uncompressed_size);
            crate::decode::lemma_le_fields_round_trip(Seq::empty(), Seq::empty(), 0, 0, chunk.records@.len() as u64);
            assert(fixed@.len() == 32 + str_bytes(chunk.compression@).len());
        }
        let fixed_len = fixed.len() as u64;
        let payload_len = match (fixed_len + 8).checked_add(chunk.records.len() as u64) {
            Some(l) => l,
            None => return Err(invalid("chunk length overflow")),
        };
        let chunk_len = match 9u64.checked_add(payload_len) {
            Some(l) => l,
            None => return Err(invalid("chunk length overflow")),
        };
        push_le_u64(&mut fixed, chunk.records.len() as u64);
        assert(fixed@ =~= spec_chunk_fields(chunk.message_start_time, chunk.message_end_time, chunk.uncompressed_size,
            chunk.uncompressed_crc, chunk.compression@, chunk.records@.len() as u64));
        let ghost i0 = self.streams.indexes@;
        self.streams.indexes.push(ChunkIndexInfo {
            message_start_time: chunk.message_start_time,
            message_end_time: chunk.message_end_time,
            chunk_start_offset: start,
            chunk_length: chunk_len,
            compression: chunk.compression.clone(),
            compressed_size: chunk.records.len() as u64,
            uncompressed_size: chunk.uncompressed_size,
        });
        proof {
            assert(self.streams.indexes@.drop_last() =~= i0);
            assert forall|k: int| 0 <= k < self.streams.indexes@.len() implies
                str_fits(#[trigger] self.streams.indexes@[k].compression@) by {
                if k < i0.len() {
                    assert(self.streams.indexes@[k] == i0[k]);
                    assert(str_fits(i0[k].compression@));
                }
            }
        }
        if is_uncompressed_name(&chunk.compression) {
            let msgs = crate::decode::scan_messages(chunk.records.as_slice());
            self.count_messages(&msgs);
        }
        let mut rec: Vec<u8> = Vec::new();
        push_record_header(&mut rec, Opcode::Chunk, payload_len);
        rec.extend_from_slice(fixed.as_slice());
        rec.extend_from_slice(chunk.records.as_slice());
        proof {
            assert(rec@ =~= spec_copied_chunk_record(*chunk));
            crate::decode::lemma_le_fields_round_trip(Seq::empty(), Seq::empty(), 0, 0, payload_len);
            assert(rec@.len() == 9 + fixed@.len() + chunk.records@.len());
            assert(chunk_len == spec_copied_chunk_record(*chunk).len());
        }
        self.sink.append(rec.as_slice());
        proof {
            assert(streams_flushed(*old(self), mid, false,
                old(self).start_position() + (old(self).bytes() + old(self).spec_header_part()).len()));
            assert(self.default_stream() == mid.default_stream());
            assert(self.override_streams() == mid.override_streams());
            assert(self.chunk_indexes().drop_last() == mid.chunk_indexes());
        }
        Ok(())
    }

    /// Record what the summary needs to know of a raw record copied at `start`.
    #[verifier::rlimit(60)]
    fn register_raw(&mut self, opcode: Opcode, payload: &[u8], start: u64) -> (r: Result<()>)
        requires
            old(self).well_formed(),
        ensures
            final(self).well_formed(),
            r is Ok <==> raw_ok(opcode, payload@),
            r is Err ==> *final(self) == *old(self) && r->Err_0 is InvalidRecord,
            r is Ok ==> raw_registered(*old(self), *final(self), opcode, payload@, start),
            final(self).sink == old(self).sink,
    {
        match opcode {
            Opcode::Schema => {
                let schema = parse_schema_record(payload)?;
                let _check = encode_schema_payload(&schema)?;
                let bumped = schema.id.saturating_add(1);
                if self.next_schema_id < bumped {
                    self.next_schema_id = bumped;
                }
                let ghost sv0 = self.schemas@;
                let ghost x = schema;
                Self::upsert_schema_vec(&mut self.schemas, schema);
                proof {
                    assert forall|i: int| 0 <= i < self.schemas@.len() implies schema_fits(#[trigger] self.schemas@[i]) by {
                        if self.schemas@[i] != x {
                            let k = choose|k: int| 0 <= k < sv0.len() && sv0[k] == self.schemas@[i];
                            assert(schema_fits(sv0[k]));
                        }
                    }
                }
            },
            Opcode::Channel => {
                let channel = parse_channel_record(payload)?;
                let _check = encode_channel_payload(&channel)?;
                let bumped = channel.id.saturating_add(1);
                if self.next_channel_id < bumped {
                    self.next_channel_id = bumped;
                }
                let ghost cv0 = self.channels@;
                let ghost x = channel;
                Self::upsert_channel_vec(&mut self.channels, channel);
                proof {
                    assert forall|i: int| 0 <= i < self.channels@.len() implies channel_fits(#[trigger] self.channels@[i]) by {
                        if self.channels@[i] != x {
                            let k = choose|k: int| 0 <= k < cv0.len() && cv0[k] == self.channels@[i];
                            assert(channel_fits(cv0[k]));
                        }
                    }
                }
            },
            Opcode::Message => {
                let header = parse_message_header_from_content(payload)?;
                update_channel_stats(&mut self.channel_stats, header.channel_id, header.log_time);
                assert(self.channel_stats@.len() <= 65536);
            },
            Opcode::Chunk => {
                if payload.len() as u64 > u64::MAX - 9 {
                    return Err(invalid("chunk length overflow"));
                }
                let chunk = parse_chunk_record(payload)?;
                let mut scratch: Vec<u8> = Vec::new();
                if push_len_prefixed_str(&mut scratch, &chunk.compression).is_err() {
                    return Err(invalid("chunk compression length exceeds u32"));
                }
                let ghost i0 = self.streams.indexes@;
                self.streams.indexes.push(ChunkIndexInfo {
                    message_start_time: chunk.message_start_time,
                    message_end_time: chunk.message_end_time,
                    chunk_start_offset: start,
                    chunk_length: 9 + payload.len() as u64,
                    compression: chunk.compression.clone(),
                    compressed_size: chunk.records.len() as u64,
                    uncompressed_size: chunk.uncompressed_size,
                });
                proof {
                    assert(self.streams.indexes@.drop_last() =~= i0);
                    assert forall|k: int| 0 <= k < self.streams.indexes@.len() implies
                        str_fits(#[trigger] self.streams.indexes@[k].compression@) by {
                        if k < i0.len() {
                            assert(self.streams.indexes@[k] == i0[k]);
                            assert(str_fits(i0[k].compression@));
                        }
                    }
                }
                if is_uncompressed_name(&chunk.compression) {
                    let msgs = crate::decode::scan_messages(chunk.records.as_slice());
                    self.count_messages(&msgs);
                }
            },
            Opcode::Attachment => {
                if payload.len() as u64 > u64::MAX - 9 {
                    return Err(invalid("attachment length overflow"));
                }
                let (log_time, create_time, name, media_type, data_size) = parse_attachment_index_fields(payload)?;
                let mut scratch: Vec<u8> = Vec::new();
                if push_len_prefixed_str(&mut scratch, &name).is_err()
                    || push_len_prefixed_str(&mut scratch, &media_type).is_err() {
                    return Err(invalid("attachment name length exceeds u32"));
                }
                let ghost a0 = self.attachment_indexes@;
                self.attachment_indexes.push(AttachmentIndexInfo {
                    offset: start,
                    length: 9 + payload.len() as u64,
                    log_time,
                    create_time,
                    data_size,
                    name,
                    media_type,
                });
                proof {
                    assert(self.attachment_indexes@.drop_last() =~= a0);
                    assert forall|k: int| 0 <= k < self.attachment_indexes@.len() implies
                        attachment_info_fits(#[trigger] self.attachment_indexes@[k]) by {
                        if k < a0.len() {
                            assert(self.attachment_indexes@[k] == a0[k]);
                            assert(attachment_info_fits(a0[k]));
                        }
                    }
                }
            },
            Opcode::Metadata => {
                if payload.len() as u64 > u64::MAX - 9 {
                    return Err(invalid("metadata length overflow"));
                }
                let name = parse_metadata_name(payload)?;
                let mut scratch: Vec<u8> = Vec::new();
                if push_len_prefixed_str(&mut scratch, &name).is_err() {
                    return Err(invalid("metadata name length exceeds u32"));
                }
                let ghost m0 = self.metadata_indexes@;
                self.metadata_indexes.push(MetadataIndexInfo { offset: start, length: 9 + payload.len() as u64, name });
                proof {
                    assert(self.metadata_indexes@.drop_last() =~= m0);
                    assert forall|k: int| 0 <= k < self.metadata_indexes@.len() implies
                        str_fits(#[trigger] self.metadata_indexes@[k].name@) by {
                        if k < m0.len() {
                            assert(self.metadata_indexes@[k] == m0[k]);
                            assert(str_fits(m0[k].name@));
                        }
                    }
                }
            },
            _ => {},
        }
        Ok(())
    }

    /// Copy a raw record payload as-is into the data section, updating the
    /// bookkeeping the summary needs. The writer still writes its own DataEnd,
    /// summary, Footer and magic at finish.
    pub fn copy_raw_record(&mut self, opcode: Opcode, payload: &[u8]) -> (r: Result<()>)
        requires
            old(self).well_formed(),
        ensures
            final(self).well_formed(),
            r is Ok <==> old(self).spec_prelude_ok() && raw_ok(opcode, payload@),
            r matches Err(e) ==> e is InvalidRecord,
            !old(self).spec_prelude_ok() ==> *final(self) == *old(self),
            old(self).spec_prelude_ok() ==> exists|mid: Writer| {
                &&& #[trigger] opened_keep(*old(self), mid)
                &&& same_registry(*old(self), mid)
                &&& mid.attachment_indexes() == old(self).attachment_indexes()
                &&& mid.metadata_indexes() == old(self).metadata_indexes()
                &&& mid.bytes() == old(self).bytes() + old(self).spec_prelude()
                &&& if raw_ok(opcode, payload@) {
                    &&& raw_registered(mid, *final(self), opcode, payload@,
                        sat(old(self).start_position() + mid.bytes().len()))
                    &&& final(self).bytes() == mid.bytes() + spec_record(opcode.byte(), payload@)
                } else {
                    *final(self) == mid
                }
            },
            old(self).is_finished() ==> (r matches Err(e) && invalid_with(e, "cannot write record after finish"@)),
    {
        if self.finished {
            return Err(invalid("cannot write record after finish"));
        }
        self.open_for_write()?;
        let ghost mid = *self;
        let start = self.sink.position();
        self.register_raw(opcode, payload, start)?;
        let mut rec: Vec<u8> = Vec::new();
        write_record(&mut rec, opcode, payload);
        self.sink.append(rec.as_slice());
        proof {
            assert(opened_keep(*old(self), mid));
            assert(same_registry(*old(self), mid));
        }
        Ok(())
    }

    /// Copy a complete record (header and payload) as-is into the data
    /// section, updating the bookkeeping the summary needs.
    pub fn copy_raw_record_bytes(&mut self, record: &[u8]) -> (r: Result<()>)
        requires
            old(self).well_formed(),
        ensures
            final(self).well_formed(),
            r is Ok <==> {
                &&& old(self).spec_prelude_ok()
                &&& spec_record_header_of(record@) matches Some(h)
                &&& Opcode::spec_from_byte(h.0) is Some
                &&& 9 + h.1 == record@.len()
                &&& raw_ok(Opcode::spec_from_byte(h.0)->Some_0, record@.subrange(9, record@.len() as int))
            },
            r matches Err(e) ==> e is InvalidRecord,
            (old(self).is_finished() || !(spec_record_header_of(record@) matches Some(h)
                && Opcode::spec_from_byte(h.0) is Some && 9 + h.1 == record@.len())) ==> *final(self) == *old(self),
            r is Ok ==> exists|mid: Writer| {
                &&& #[trigger] opened_keep(*old(self), mid)
                &&& mid.bytes() == old(self).bytes() + old(self).spec_prelude()
                &&& raw_registered(mid, *final(self), Opcode::spec_from_byte(record@[0])->Some_0,
                    record@.subrange(9, record@.len() as int), sat(old(self).start_position() + mid.bytes().len()))
                &&& final(self).bytes() == mid.bytes() + record@
            },
            old(self).is_finished() ==> (r matches Err(e) && invalid_with(e, "cannot write record after finish"@)),
    {
        if self.finished {
            return Err(invalid("cannot write record after finish"));
        }
        if record.len() < 9 {
            return Err(invalid("raw record is smaller than record header"));
        }
        let (opcode, length) = crate::decode::decode_record_header(record)?;
        if length > u64::MAX - 9 || 9 + length != record.len() as u64 {
            return Err(invalid("raw record length mismatch"));
        }
        self.open_for_write()?;
        let ghost mid = *self;
        let start = self.sink.position();
        let payload = vstd::slice::slice_subrange(record, 9, record.len());
        self.register_raw(opcode, payload, start)?;
        self.sink.append(record);
        proof {
            assert(spec_record_header_of(record@) == Some((opcode.byte(), length)));
            crate::format::lemma_opcode_byte_round_trip(opcode);
            assert(opened_keep(*old(self), mid));
        }
        Ok(())
    }

    /// Copy a parsed record into the output, updating the bookkeeping the
    /// summary needs. Header records are skipped (the writer writes its own),
    /// and so are index, statistics, footer and other summary records.
    pub fn copy_record(&mut self, record: &Record) -> (r: Result<()>)
        requires
            old(self).well_formed(),
            record matches Record::Message(m) ==> m.payload.well_formed(),
        ensures
            final(self).well_formed(),
            match record {
                Record::Schema(x) => r is Ok <==> old(self).spec_prelude_ok() && x.id != 0 && schema_fits(*x),
                Record::Channel(x) => r is Ok <==> old(self).spec_prelude_ok() && channel_fits(*x),
                Record::Message(_) => r is Ok <==> old(self).spec_prelude_ok(),
                Record::Chunk(x) => r is Ok <==> old(self).spec_prelude_ok() && chunk_fits(*x),
                Record::Attachment(x) => r is Ok <==> old(self).spec_prelude_ok()
                    && attachment_fits(x.name@, x.media_type@, x.data@),
                Record::Metadata(x) => r is Ok <==> old(self).spec_prelude_ok() && metadata_fits(*x),
                _ => r is Ok && *final(self) == *old(self),
            },
    {
        match record {
            Record::Schema(x) => self.copy_schema(x),
            Record::Channel(x) => {
                let _cw = self.copy_channel(x)?;
                Ok(())
            },
            Record::Message(x) => self.copy_message_record(x),
            Record::Chunk(x) => self.copy_chunk_record(x),
            Record::Attachment(x) => self.copy_attachment_record(x),
            Record::Metadata(x) => self.copy_metadata(x),
            _ => Ok(()),
        }
    }

    /// A copy of the registered channel with id `id`, if any.
    pub fn channel_by_id(&self, id: u16) -> (r: Option<Channel>)
        ensures
            match r {
                Some(c) => c.id == id && self.channels().contains(channel_view(c)),
                None => forall|i: int| 0 <= i < self.channels().len() ==> (#[trigger] self.channels()[i]).0 != id,
            },
    {
        let mut i: usize = 0;
        while i < self.channels.len()
            invariant
                i <= self.channels@.len(),
                forall|k: int| 0 <= k < i ==> (#[trigger] self.channels@[k]).id != id,
            decreases self.channels@.len() - i,
        {
            if self.channels[i].id == id {
                let c = Self::copy_channel_value(&self.channels[i]);
                assert(self.channels()[i as int] == channel_view(c));
                return Some(c);
            }
            i += 1;
        }
        proof {
            assert forall|k: int| 0 <= k < self.channels().len() implies (#[trigger] self.channels()[k]).0 != id by {
                assert(self.channels@[k].id != id);
            }
        }
        None
    }

    /// A copy of the registered schema with id `id`, if any.
    pub fn schema_by_id(&self, id: u16) -> (r: Option<Schema>)
        ensures
            match r {
                Some(s) => s.id == id && self.schemas().contains(schema_view(s)),
                None => forall|i: int| 0 <= i < self.schemas().len() ==> (#[trigger] self.schemas()[i]).0 != id,
            },
    {
        let mut i: usize = 0;
        while i < self.schemas.len()
            invariant
                i <= self.schemas@.len(),
                forall|k: int| 0 <= k < i ==> (#[trigger] self.schemas@[k]).id != id,
            decreases self.schemas@.len() - i,
        {
            if self.schemas[i].id == id {
                let s = Self::copy_schema_value(&self.schemas[i]);
                assert(self.schemas()[i as int] == schema_view(s));
                return Some(s);
            }
            i += 1;
        }
        proof {
            assert forall|k: int| 0 <= k < self.schemas().len() implies (#[trigger] self.schemas()[k]).0 != id by {
                assert(self.schemas@[k].id != id);
            }
        }
        None
    }

    /// Register a dedicated chunk stream for an already known channel id,
    /// replacing any stream registered for it before.
    pub fn register_channel_override(&mut self, channel_id: u16, options: ChunkOptions) -> (r: Result<()>)
        requires
            old(self).well_formed(),
        ensures
            final(self).well_formed(),
            options.compression is Some ==> r == Err::<(), Error>(Error::UnsupportedCompression) && *final(self) == *old(self),
            options.compression is None ==> r is Ok && {
                &&& final(self).bytes() == old(self).bytes()
                &&& final(self).default_stream() == old(self).default_stream()
                &&& final(self).chunk_indexes() == old(self).chunk_indexes()
                &&& slot_registered(old(self).override_streams(), final(self).override_streams(), channel_id as int, options)
                &&& same_registry(*old(self), *final(self))
                &&& final(self).header_written() == old(self).header_written()
                &&& final(self).is_finished() == old(self).is_finished()
                &&& final(self).start_position() == old(self).start_position()
                &&& final(self).file_header() == old(self).file_header()
            },
    {
        if options.compression.is_some() {
            return Err(Error::UnsupportedCompression);
        }
        self.set_override_slot(channel_id, options);
        Ok(())
    }

    /// Bytes buffered in the default chunk stream, not yet written.
    pub fn buffered_len(&self) -> (r: u64)
        ensures
            r == match self.default_stream() {
                Some(st) => sat(st.records@.len() as int),
                None => 0,
            },
    {
        match &self.streams.default {
            Some(st) => st.records.len() as u64,
            None => 0,
        }
    }

    /// Create an attachment writer.
    pub fn attachment_writer(&mut self) -> (r: AttachmentWriter)
        ensures
            *final(self) == *old(self),
    {
        AttachmentWriter {}
    }

    /// Every field but the output is unchanged.
    pub closed spec fn same_except_output(&self, other: Writer) -> bool {
        &&& self.same_except_streams(other)
        &&& self.streams == other.streams
    }

    /// Every field but the output and the chunk streams is unchanged.
    pub closed spec fn same_except_streams(&self, other: Writer) -> bool {
        &&& self.header == other.header
        &&& self.wrote_header == other.wrote_header
        &&& self.finished == other.finished
        &&& self.next_schema_id == other.next_schema_id
        &&& self.next_channel_id == other.next_channel_id
        &&& self.validation == other.validation
        &&& self.always_write_summary == other.always_write_summary
        &&& self.schemas == other.schemas
        &&& self.channels == other.channels
        &&& self.channel_stats == other.channel_stats
        &&& self.attachment_indexes == other.attachment_indexes
        &&& self.metadata_indexes == other.metadata_indexes
        &&& self.schema_ids_by_key == other.schema_ids_by_key
    }

    /// Flush the due override streams in slot order, then the default stream if due.
    fn flush_due(&mut self, force: bool)
        requires
            old(self).well_formed(),
        ensures
            final(self).well_formed(),
            final(self).sink.taken_len() == old(self).sink.taken_len(),
            final(self).bytes() == old(self).bytes() + spec_flush_bytes(old(self).override_streams(), old(self).default_stream(), force),
            final(self).sink.start() == old(self).sink.start(),
            streams_flushed(*old(self), *final(self), force, old(self).sink.start() + old(self).bytes().len()),
            final(self).same_except_streams(*old(self)),
    {
        let ghost ov0 = self.streams.overrides@;
        let ghost d0 = self.streams.default;
        let ghost i0 = self.streams.indexes@;
        let ghost b0 = self.sink.bytes();
        let ghost base = self.sink.start() + self.sink.bytes().len();
        flush_overrides_all(&mut self.streams, &mut self.sink, force);
        let ghost i1 = self.streams.indexes@;
        let ghost b1 = self.sink.bytes();
        flush_default(&mut self.streams, &mut self.sink, force);
        proof {
            let ovs = spec_ov_flushed(ov0, 0, force);
            let added1 = i1.subrange(i0.len() as int, i1.len() as int);
            let i2 = self.streams.indexes@;
            assert(b1 == b0 + concat_records(ovs));
            match d0 {
                Some(st) => {
                    if spec_should_flush(st, force) {
                        assert(i2.drop_last() == i1);
                        lemma_indexes_describe_push(added1, ovs, base, i2.last(), st);
                        assert(i2.subrange(i0.len() as int, i2.len() as int) =~= added1.push(i2.last()));
                        assert(ovs + default_flushed(d0, force) =~= ovs.push(st));
                        assert(i2.subrange(0, i0.len() as int) =~= i0) by {
                            assert forall|k: int| 0 <= k < i0.len() implies i2[k] == i0[k] by {
                                assert(i1.subrange(0, i0.len() as int)[k] == i0[k]);
                            }
                        }
                    } else {
                        assert(ovs + default_flushed(d0, force) =~= ovs);
                    }
                },
                None => {
                    assert(ovs + default_flushed(d0, force) =~= ovs);
                },
            }
            assert(self.sink.bytes() =~= b0 + spec_flush_bytes(ov0, d0, force));
            assert forall|j: int| 0 <= j < self.streams.overrides@.len() implies
                (#[trigger] self.streams.overrides@[j] matches Some(st) ==> st.options.compression is None
                    && state_fits(st)) by {
                assert(ov0[j] matches Some(s0) ==> s0.options.compression is None && state_fits(s0));
            }
            assert(slots_fit(self.streams.overrides@));
            let i3 = self.streams.indexes@;
            let flushed = spec_ov_flushed(ov0, 0, force) + default_flushed(d0, force);
            crate::streams::lemma_described_uncompressed(i3.subrange(i0.len() as int, i3.len() as int), flushed, base);
            empty_str_fits();
            assert forall|k: int| 0 <= k < i3.len() implies str_fits(#[trigger] i3[k].compression@) by {
                if k < i0.len() {
                    assert(i3.subrange(0, i0.len() as int)[k] == i3[k]);
                } else {
                    assert(i3.subrange(i0.len() as int, i3.len() as int)[k - i0.len()] == i3[k]);
                }
            }
        }
    }

    /// Every field but the output, header flag and finished flag is unchanged.
    pub closed spec fn same_state_except_output(&self, other: Writer) -> bool {
        &&& self.header == other.header
        &&& self.finished == other.finished
        &&& self.next_schema_id == other.next_schema_id
        &&& self.next_channel_id == other.next_channel_id
        &&& self.validation == other.validation
        &&& self.always_write_summary == other.always_write_summary
        &&& self.streams == other.streams
        &&& self.schemas == other.schemas
        &&& self.channels == other.channels
        &&& self.channel_stats == other.channel_stats
        &&& self.attachment_indexes == other.attachment_indexes
        &&& self.metadata_indexes == other.metadata_indexes
        &&& self.schema_ids_by_key == other.schema_ids_by_key
    }
}

/// The pending bytes of a well-formed buffer are the tail of everything produced.
proof fn reveal_sink_well_formed(s: &OutputBuffer)
    requires
        s.well_formed(),
    ensures
        s.bytes().len() >= s.pending().len(),
        s.pending() == s.bytes().subrange(s.bytes().len() - s.pending().len(), s.bytes().len() as int),
{
    crate::sink::lemma_pending_is_tail(s);
}

/// The empty string fits any length field.
proof fn empty_str_fits()
    ensures
        str_fits(Seq::<char>::empty()),
{
    vstd::utf8::encode_utf8_valid_utf8(Seq::<char>::empty());
    assert(crate::format::str_bytes(Seq::<char>::empty()) =~= Seq::<u8>::empty());
}

/// After a flush pass no override slot is due any more (without forcing).
proof fn lemma_flushed_slots_idle(ova: Seq<Option<ChunkState>>, ovb: Seq<Option<ChunkState>>, i: int)
    requires
        slots_after_flush(ova, ovb, false),
    ensures
        spec_ov_flushed(ovb, i, false) == Seq::<ChunkState>::empty(),
    decreases ovb.len() - i,
{
    if 0 <= i < ovb.len() {
        lemma_flushed_slots_idle(ova, ovb, i + 1);
        assert(ova[i] is Some && spec_should_flush(ova[i]->Some_0, false) ==> (ovb[i] matches Some(n) && spec_flushed(ova[i]->Some_0, n)));
    }
}

/// Opening an operation twice in a row writes nothing the second time: the
/// header is written and no chunk is due any more.
pub proof fn lemma_prelude_idempotent(a: Writer, b: Writer)
    requires
        opened_keep(a, b),
    ensures
        b.spec_prelude() == Seq::<u8>::empty(),
{
    lemma_flushed_slots_idle(a.override_streams(), b.override_streams(), 0);
    assert(concat_records(Seq::<ChunkState>::empty()) =~= Seq::<u8>::empty());
    assert(b.spec_prelude() =~= Seq::<u8>::empty());
}

/// A flush pass over a writer whose chunks are not due changes no chunk stream.
proof fn lemma_idle_flush_keeps(x: Writer, a: Writer, b: Writer, base: int)
    requires
        opened_keep(x, a),
        streams_flushed(a, b, false, base),
    ensures
        b.override_streams() == a.override_streams(),
        b.default_stream() == a.default_stream(),
        b.chunk_indexes() == a.chunk_indexes(),
{
    lemma_flushed_slots_idle(x.override_streams(), a.override_streams(), 0);
    assert forall|j: int| 0 <= j < a.override_streams().len() implies
        !(#[trigger] a.override_streams()[j] is Some && spec_should_flush(a.override_streams()[j]->Some_0, false)) by {
        lemma_flushed_slots_idle(x.override_streams(), a.override_streams(), j);
        if a.override_streams()[j] is Some && spec_should_flush(a.override_streams()[j]->Some_0, false) {
            assert(spec_ov_flushed(a.override_streams(), j, false).len() > 0);
        }
    }
    assert(b.override_streams() =~= a.override_streams());
    assert(spec_ov_flushed(a.override_streams(), 0, false) + default_flushed(a.default_stream(), false)
        =~= Seq::<ChunkState>::empty());
    let added = b.chunk_indexes().subrange(a.chunk_indexes().len() as int, b.chunk_indexes().len() as int);
    assert(added.len() == 0);
    assert(b.chunk_indexes() =~= a.chunk_indexes());
}

/// Every schema a well-formed writer knows fits its length fields.
pub proof fn lemma_schema_views_fit(w: Writer, k: int)
    requires
        w.well_formed(),
        0 <= k < w.schemas().len(),
    ensures
        str_fits(w.schemas()[k].1) && str_fits(w.schemas()[k].2) && w.schemas()[k].3.len() <= u32::MAX,
{
    assert(schema_fits(w.schemas@[k]));
}

/// Every channel a well-formed writer knows fits its length fields.
pub proof fn lemma_channel_views_fit(w: Writer, k: int)
    requires
        w.well_formed(),
        0 <= k < w.channels().len(),
    ensures
        str_fits(w.channels()[k].2) && str_fits(w.channels()[k].3) && map_fits(w.channels()[k].4),
{
    assert(channel_fits(w.channels@[k]));
}

/// Two channels of a well-formed writer with the same id are the same channel.
pub proof fn lemma_channel_ids_unique(w: Writer, a: int, b: int)
    requires
        w.well_formed(),
        0 <= a < w.channels().len(),
        0 <= b < w.channels().len(),
        w.channels()[a].0 == w.channels()[b].0,
    ensures
        w.channels()[a] == w.channels()[b],
{
    if a < b {
        assert(w.channels@[a].id != w.channels@[b].id);
    } else if b < a {
        assert(w.channels@[b].id != w.channels@[a].id);
    }
}

/// The channel stored by `upsert_channel` is among the channels afterwards.
pub proof fn lemma_upsert_channel_holds(c: Seq<ChannelView>, x: ChannelView)
    ensures
        exists|k: int| 0 <= k < upsert_channel(c, x).len() && upsert_channel(c, x)[k] == x,
{
    if exists|i: int| 0 <= i < c.len() && (#[trigger] c[i]).0 == x.0 {
        let i = choose|i: int| 0 <= i < c.len() && (#[trigger] c[i]).0 == x.0;
        assert(upsert_channel(c, x)[i] == x);
    } else {
        assert(upsert_channel(c, x)[c.len() as int] == x);
    }
}

/// A file opens with the MCAP magic: the header bytes begin with it.
pub proof fn lemma_header_starts_with_magic(h: Header)
    ensures
        spec_header_bytes(h).len() >= 8,
        spec_header_bytes(h).take(8) == spec_magic(),
{
    assert(spec_header_bytes(h).take(8) =~= spec_magic());
}

/// A finished file closes with the MCAP magic, and its footer never places
/// the summary offsets before the summary.
pub proof fn lemma_finish_tail_ends_with_magic(w: Writer, base: int)
    requires
        0 <= base,
    ensures
        spec_finish_tail(w, base).len() >= 8,
        spec_finish_tail(w, base).subrange(spec_finish_tail(w, base).len() - 8, spec_finish_tail(w, base).len() as int)
            == spec_magic(),
        sat(base) <= sat(base + spec_summary_records(w).len()),
{
    let t = spec_finish_tail(w, base);
    assert(t.subrange(t.len() - 8, t.len() as int) =~= spec_magic());
}

} // verus!
