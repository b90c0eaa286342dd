//! The summary section of a file: Schema and Channel records, Statistics,
//! the chunk, attachment and metadata indexes, and the SummaryOffset records
//! that point at each group.

use vstd::prelude::*;
use crate::decode::{spec_schema_payload, spec_channel_payload};
use crate::encode::{le16, le32, le64, spec_record, spec_str, spec_len_prefixed, str_fits, map_fits,
    push_le_u16, push_le_u32, push_le_u64, push_len_prefixed_str, push_len_prefixed_bytes, push_metadata_map,
    write_record};
use crate::error::{Result, invalid};
use crate::format::Opcode;
use crate::sink::sat;
use crate::streams::ChunkIndexInfo;
use crate::types::{Schema, Channel};
use crate::writer::{ChannelStats, AttachmentIndexInfo, MetadataIndexInfo};

verus! {

/// A schema whose strings and data fit their length fields.
pub open spec fn schema_fits(s: Schema) -> bool {
    str_fits(s.name@) && str_fits(s.encoding@) && s.data@.len() <= u32::MAX
}

/// A channel whose strings and metadata fit their length fields.
pub open spec fn channel_fits(c: Channel) -> bool {
    str_fits(c.topic@) && str_fits(c.message_encoding@) && map_fits(c.metadata@)
}

/// A schema as plain values: id, name, encoding, data.
pub type SchemaView = (u16, Seq<char>, Seq<char>, Seq<u8>);

/// A channel as plain values: id, schema id, topic, message encoding, metadata.
pub type ChannelView = (u16, u16, Seq<char>, Seq<char>, Seq<(Seq<char>, Seq<char>)>);

/// The plain values of a schema.
pub open spec fn schema_view(s: Schema) -> SchemaView {
    (s.id, s.name@, s.encoding@, s.data@)
}

/// The plain values of a channel.
pub open spec fn channel_view(c: Channel) -> ChannelView {
    (c.id, c.schema_id, c.topic@, c.message_encoding@, c.metadata@)
}

/// The plain values of a sequence of schemas.
pub open spec fn schema_views(s: Seq<Schema>) -> Seq<SchemaView> {
    Seq::new(s.len(), |i: int| schema_view(s[i]))
}

/// The plain values of a sequence of channels.
pub open spec fn channel_views(c: Seq<Channel>) -> Seq<ChannelView> {
    Seq::new(c.len(), |i: int| channel_view(c[i]))
}

/// The Schema record of a schema.
pub open spec fn spec_schema_record(s: SchemaView) -> Seq<u8> {
    spec_record(Opcode::Schema.byte(), spec_schema_payload(s.0, s.1, s.2, s.3))
}

/// The Channel record of a channel.
pub open spec fn spec_channel_record(c: ChannelView) -> Seq<u8> {
    spec_record(Opcode::Channel.byte(), spec_channel_payload(c.0, c.1, c.2, c.3, c.4))
}

/// Encode a Schema record payload; fails when a field does not fit.
pub fn encode_schema_payload(s: &Schema) -> (r: Result<Vec<u8>>)
    ensures
        match r {
            Ok(p) => schema_fits(*s) && p@ == spec_schema_payload(s.id, s.name@, s.encoding@, s.data@),
            Err(e) => e is InvalidRecord && !schema_fits(*s),
        },
{
    let mut payload: Vec<u8> = Vec::new();
    push_le_u16(&mut payload, s.id);
    if push_len_prefixed_str(&mut payload, &s.name).is_err() {
        return Err(invalid("schema name length exceeds u32"));
    }
    if push_len_prefixed_str(&mut payload, &s.encoding).is_err() {
        return Err(invalid("schema encoding length exceeds u32"));
    }
    if push_len_prefixed_bytes(&mut payload, s.data.as_slice()).is_err() {
        return Err(invalid("schema data length exceeds u32"));
    }
    assert(payload@ =~= spec_schema_payload(s.id, s.name@, s.encoding@, s.data@));
    Ok(payload)
}

/// Encode a Channel record payload; fails when a field does not fit.
pub fn encode_channel_payload(c: &Channel) -> (r: Result<Vec<u8>>)
    ensures
        match r {
            Ok(p) => channel_fits(*c) && p@ == spec_channel_payload(c.id, c.schema_id, c.topic@, c.message_encoding@, c.metadata@),
            Err(e) => e is InvalidRecord && !channel_fits(*c),
        },
{
    let mut payload: Vec<u8> = Vec::new();
    push_le_u16(&mut payload, c.id);
    push_le_u16(&mut payload, c.schema_id);
    if push_len_prefixed_str(&mut payload, &c.topic).is_err() {
        return Err(invalid("channel topic length exceeds u32"));
    }
    if push_len_prefixed_str(&mut payload, &c.message_encoding).is_err() {
        return Err(invalid("channel message encoding length exceeds u32"));
    }
    if push_metadata_map(&mut payload, &c.metadata).is_err() {
        return Err(invalid("channel metadata length exceeds u32"));
    }
    assert(payload@ =~= spec_channel_payload(c.id, c.schema_id, c.topic@, c.message_encoding@, c.metadata@));
    Ok(payload)
}

/// The ChunkIndex record payload (no message index offsets).
pub open spec fn spec_chunk_index_payload(i: ChunkIndexInfo) -> Seq<u8> {
    le64(i.message_start_time) + le64(i.message_end_time) + le64(i.chunk_start_offset) + le64(i.chunk_length)
        + le32(0) + le64(0) + spec_str(i.compression@) + le64(i.compressed_size) + le64(i.uncompressed_size)
}

/// A ChunkIndex payload, read back by the reader, gives the index's start
/// and end times (in that order) and its chunk's file offset, with no
/// message index entries.
pub proof fn lemma_chunk_index_reads_back(i: ChunkIndexInfo)
    ensures
        crate::decode::spec_parse_chunk_index_offsets(spec_chunk_index_payload(i))
            == Some((i.message_start_time, i.message_end_time, i.chunk_start_offset, Seq::<(u16, u64)>::empty())),
{
    let p = spec_chunk_index_payload(i);
    let tail = le64(0) + spec_str(i.compression@) + le64(i.compressed_size) + le64(i.uncompressed_size);
    let a = le64(i.message_start_time);
    let b = le64(i.message_end_time);
    let c = le64(i.chunk_start_offset);
    let d = le64(i.chunk_length);
    let z = le32(0);
    crate::decode::lemma_le_fields_round_trip(Seq::empty(), b + c + d + z + tail, 0, 0, i.message_start_time);
    crate::decode::lemma_le_fields_round_trip(a, c + d + z + tail, 0, 0, i.message_end_time);
    crate::decode::lemma_le_fields_round_trip(a + b, d + z + tail, 0, 0, i.chunk_start_offset);
    crate::decode::lemma_le_fields_round_trip(a + b + c, z + tail, 0, 0, i.chunk_length);
    crate::decode::lemma_le_fields_round_trip(a + b + c + d, tail, 0, 0, 0);
    assert(p =~= Seq::<u8>::empty() + a + (b + c + d + z + tail));
    assert(p =~= a + b + (c + d + z + tail));
    assert(p =~= a + b + c + (d + z + tail));
    assert(p =~= a + b + c + d + z + tail);
    assert((a + b).len() == 16);
    assert((a + b + c + d).len() == 32);
    assert(p.len() >= 36);
    assert(crate::decode::spec_chunk_index_entries(p, 0) =~= Seq::<(u16, u64)>::empty());
}

/// The ChunkIndex written for a chunk flushed at `pos` agrees with the
/// Chunk record it indexes: read back, both give the same start and end
/// times, and the index gives `pos` as the chunk's offset.
pub proof fn lemma_chunk_index_matches_chunk(i: ChunkIndexInfo, st: crate::chunk::ChunkState, pos: u64)
    requires
        crate::streams::info_is(i, st, pos),
        crate::streams::state_fits(st),
    ensures
        ({
            let rec = crate::chunk::spec_chunk_record(st);
            let ci = crate::decode::spec_parse_chunk_index_offsets(spec_chunk_index_payload(i));
            let ch = crate::decode::spec_parse_chunk(rec.subrange(9, rec.len() as int));
            &&& ci matches Some(x) && ch matches Some(y) && x.0 == y.0 && x.1 == y.1 && x.2 == pos
        }),
{
    lemma_chunk_index_reads_back(i);
    let r = st.records@;
    let rec = crate::chunk::spec_chunk_record(st);
    let fields = crate::decode::spec_chunk_fields(st.message_start_time, st.message_end_time, r.len() as u64,
        crate::chunk::spec_chunk_crc(st), Seq::empty(), r.len() as u64);
    crate::decode::lemma_le_fields_round_trip(seq![Opcode::Chunk.byte()], Seq::empty(), 0, 0, (40 + r.len()) as u64);
    assert(rec.subrange(9, rec.len() as int) =~= fields + r);
    assert(str_fits(Seq::<char>::empty())) by {
        assert(crate::format::str_bytes(Seq::<char>::empty()) =~= Seq::<u8>::empty());
    }
    crate::decode::lemma_chunk_round_trip(st.message_start_time, st.message_end_time, r.len() as u64,
        crate::chunk::spec_chunk_crc(st), Seq::empty(), r);
}

/// The AttachmentIndex record payload.
pub open spec fn spec_attachment_index_payload(i: AttachmentIndexInfo) -> Seq<u8> {
    le64(i.offset) + le64(i.length) + le64(i.log_time) + le64(i.create_time) + le64(i.data_size)
        + spec_str(i.name@) + spec_str(i.media_type@)
}

/// The MetadataIndex record payload.
pub open spec fn spec_metadata_index_payload(i: MetadataIndexInfo) -> Seq<u8> {
    le64(i.offset) + le64(i.length) + spec_str(i.name@)
}

/// The Schema records of `s`, in order.
pub open spec fn schemas_bytes(s: Seq<SchemaView>) -> Seq<u8>
    decreases s.len(),
{
    if s.len() == 0 { Seq::empty() } else { schemas_bytes(s.drop_last()) + spec_schema_record(s.last()) }
}

/// The Channel records of `c`, in order.
pub open spec fn channels_bytes(c: Seq<ChannelView>) -> Seq<u8>
    decreases c.len(),
{
    if c.len() == 0 { Seq::empty() } else { channels_bytes(c.drop_last()) + spec_channel_record(c.last()) }
}

/// The ChunkIndex records of `c`, in order.
pub open spec fn chunk_indexes_bytes(c: Seq<ChunkIndexInfo>) -> Seq<u8>
    decreases c.len(),
{
    if c.len() == 0 {
        Seq::empty()
    } else {
        chunk_indexes_bytes(c.drop_last()) + spec_record(Opcode::ChunkIndex.byte(), spec_chunk_index_payload(c.last()))
    }
}

/// The AttachmentIndex records of `a`, in order.
pub open spec fn attachment_indexes_bytes(a: Seq<AttachmentIndexInfo>) -> Seq<u8>
    decreases a.len(),
{
    if a.len() == 0 {
        Seq::empty()
    } else {
        attachment_indexes_bytes(a.drop_last())
            + spec_record(Opcode::AttachmentIndex.byte(), spec_attachment_index_payload(a.last()))
    }
}

/// The MetadataIndex records of `m`, in order.
pub open spec fn metadata_indexes_bytes(m: Seq<MetadataIndexInfo>) -> Seq<u8>
    decreases m.len(),
{
    if m.len() == 0 {
        Seq::empty()
    } else {
        metadata_indexes_bytes(m.drop_last())
            + spec_record(Opcode::MetadataIndex.byte(), spec_metadata_index_payload(m.last()))
    }
}

/// Append the Schema records of `schemas`.
pub fn push_schema_records(out: &mut Vec<u8>, schemas: &Vec<Schema>)
    requires
        forall|i: int| 0 <= i < schemas@.len() ==> schema_fits(#[trigger] schemas@[i]),
    ensures
        final(out)@ == old(out)@ + schemas_bytes(schema_views(schemas@)),
{
    let mut i: usize = 0;
    assert(schemas@.take(0) =~= Seq::<Schema>::empty());
    while i < schemas.len()
        invariant
            i <= schemas@.len(),
            forall|k: int| 0 <= k < schemas@.len() ==> schema_fits(#[trigger] schemas@[k]),
            out@ == old(out)@ + schemas_bytes(schema_views(schemas@.take(i as int))),
        decreases schemas.len() - i,
    {
        let payload = match encode_schema_payload(&schemas[i]) {
            Ok(p) => p,
            Err(_) => {
                assert(schema_fits(schemas@[i as int]));
                return;
            },
        };
        write_record(out, Opcode::Schema, payload.as_slice());
        assert(schema_views(schemas@.take(i + 1)).drop_last() =~= schema_views(schemas@.take(i as int)));
        i += 1;
    }
    assert(schemas@.take(i as int) =~= schemas@);
}

/// Append the Channel records of `channels`.
pub fn push_channel_records(out: &mut Vec<u8>, channels: &Vec<Channel>)
    requires
        forall|i: int| 0 <= i < channels@.len() ==> channel_fits(#[trigger] channels@[i]),
    ensures
        final(out)@ == old(out)@ + channels_bytes(channel_views(channels@)),
{
    let mut i: usize = 0;
    assert(channels@.take(0) =~= Seq::<Channel>::empty());
    while i < channels.len()
        invariant
            i <= channels@.len(),
            forall|k: int| 0 <= k < channels@.len() ==> channel_fits(#[trigger] channels@[k]),
            out@ == old(out)@ + channels_bytes(channel_views(channels@.take(i as int))),
        decreases channels.len() - i,
    {
        let payload = match encode_channel_payload(&channels[i]) {
            Ok(p) => p,
            Err(_) => {
                assert(channel_fits(channels@[i as int]));
                return;
            },
        };
        write_record(out, Opcode::Channel, payload.as_slice());
        assert(channel_views(channels@.take(i + 1)).drop_last() =~= channel_views(channels@.take(i as int)));
        i += 1;
    }
    assert(channels@.take(i as int) =~= channels@);
}

/// Append the ChunkIndex records of `infos`.
pub fn push_chunk_index_records(out: &mut Vec<u8>, infos: &Vec<ChunkIndexInfo>)
    requires
        forall|i: int| 0 <= i < infos@.len() ==> str_fits(#[trigger] infos@[i].compression@),
    ensures
        final(out)@ == old(out)@ + chunk_indexes_bytes(infos@),
{
    let mut i: usize = 0;
    assert(infos@.take(0) =~= Seq::<ChunkIndexInfo>::empty());
    while i < infos.len()
        invariant
            i <= infos@.len(),
            forall|k: int| 0 <= k < infos@.len() ==> str_fits(#[trigger] infos@[k].compression@),
            out@ == old(out)@ + chunk_indexes_bytes(infos@.take(i as int)),
        decreases infos.len() - i,
    {
        let info = &infos[i];
        let mut payload: Vec<u8> = Vec::new();
        push_le_u64(&mut payload, info.message_start_time);
        push_le_u64(&mut payload, info.message_end_time);
        push_le_u64(&mut payload, info.chunk_start_offset);
        push_le_u64(&mut payload, info.chunk_length);
        push_le_u32(&mut payload, 0);
        push_le_u64(&mut payload, 0);
        if push_len_prefixed_str(&mut payload, &info.compression).is_err() {
            assert(str_fits(infos@[i as int].compression@));
            return;
        }
        push_le_u64(&mut payload, info.compressed_size);
        push_le_u64(&mut payload, info.uncompressed_size);
        assert(payload@ =~= spec_chunk_index_payload(infos@[i as int]));
        write_record(out, Opcode::ChunkIndex, payload.as_slice());
        assert(infos@.take(i + 1).drop_last() =~= infos@.take(i as int));
        i += 1;
    }
    assert(infos@.take(i as int) =~= infos@);
}

/// An attachment index entry whose strings fit their length fields.
pub open spec fn attachment_info_fits(i: AttachmentIndexInfo) -> bool {
    str_fits(i.name@) && str_fits(i.media_type@)
}

/// Append the AttachmentIndex records of `infos`.
pub fn push_attachment_index_records(out: &mut Vec<u8>, infos: &Vec<AttachmentIndexInfo>)
    requires
        forall|i: int| 0 <= i < infos@.len() ==> attachment_info_fits(#[trigger] infos@[i]),
    ensures
        final(out)@ == old(out)@ + attachment_indexes_bytes(infos@),
{
    let mut i: usize = 0;
    assert(infos@.take(0) =~= Seq::<AttachmentIndexInfo>::empty());
    while i < infos.len()
        invariant
            i <= infos@.len(),
            forall|k: int| 0 <= k < infos@.len() ==> attachment_info_fits(#[trigger] infos@[k]),
            out@ == old(out)@ + attachment_indexes_bytes(infos@.take(i as int)),
        decreases infos.len() - i,
    {
        let info = &infos[i];
        assert(attachment_info_fits(infos@[i as int]));
        let mut payload: Vec<u8> = Vec::new();
        push_le_u64(&mut payload, info.offset);
        push_le_u64(&mut payload, info.length);
        push_le_u64(&mut payload, info.log_time);
        push_le_u64(&mut payload, info.create_time);
        push_le_u64(&mut payload, info.data_size);
        if push_len_prefixed_str(&mut payload, &info.name).is_err() {
            return;
        }
        if push_len_prefixed_str(&mut payload, &info.media_type).is_err() {
            return;
        }
        assert(payload@ =~= spec_attachment_index_payload(infos@[i as int]));
        write_record(out, Opcode::AttachmentIndex, payload.as_slice());
        assert(infos@.take(i + 1).drop_last() =~= infos@.take(i as int));
        i += 1;
    }
    assert(infos@.take(i as int) =~= infos@);
}

/// Append the MetadataIndex records of `infos`.
pub fn push_metadata_index_records(out: &mut Vec<u8>, infos: &Vec<MetadataIndexInfo>)
    requires
        forall|i: int| 0 <= i < infos@.len() ==> str_fits(#[trigger] infos@[i].name@),
    ensures
        final(out)@ == old(out)@ + metadata_indexes_bytes(infos@),
{
    let mut i: usize = 0;
    assert(infos@.take(0) =~= Seq::<MetadataIndexInfo>::empty());
    while i < infos.len()
        invariant
            i <= infos@.len(),
            forall|k: int| 0 <= k < infos@.len() ==> str_fits(#[trigger] infos@[k].name@),
            out@ == old(out)@ + metadata_indexes_bytes(infos@.take(i as int)),
        decreases infos.len() - i,
    {
        let info = &infos[i];
        assert(str_fits(infos@[i as int].name@));
        let mut payload: Vec<u8> = Vec::new();
        push_le_u64(&mut payload, info.offset);
        push_le_u64(&mut payload, info.length);
        if push_len_prefixed_str(&mut payload, &info.name).is_err() {
            return;
        }
        assert(payload@ =~= spec_metadata_index_payload(infos@[i as int]));
        write_record(out, Opcode::MetadataIndex, payload.as_slice());
        assert(infos@.take(i + 1).drop_last() =~= infos@.take(i as int));
        i += 1;
    }
    assert(infos@.take(i as int) =~= infos@);
}

/// Totals over the statistics of channels `1..n` (channel 0 is never counted):
/// message count (saturating), earliest start, latest end, and the encoded
/// `(channel id, count)` entries of the channels with messages, by channel id.
pub open spec fn stats_fold(stats: Seq<ChannelStats>, n: int) -> (u64, u64, u64, Seq<u8>)
    decreases n,
{
    if n <= 1 {
        (0, u64::MAX, 0, Seq::empty())
    } else {
        let (t, e, l, b) = stats_fold(stats, n - 1);
        let s = stats[n - 1];
        if s.has_messages {
            (
                sat(t + s.message_count),
                if s.message_start_time < e { s.message_start_time } else { e },
                if s.message_end_time > l { s.message_end_time } else { l },
                b + le16((n - 1) as u16) + le64(s.message_count),
            )
        } else {
            (t, e, l, b)
        }
    }
}

/// The Statistics record payload.
pub open spec fn spec_statistics_payload(
    schema_count: nat,
    channel_count: nat,
    attachment_count: nat,
    metadata_count: nat,
    chunk_count: nat,
    stats: Seq<ChannelStats>,
) -> Seq<u8> {
    let (total, earliest, latest, body) = stats_fold(stats, stats.len() as int);
    le64(total) + le16(schema_count as u16) + le32(channel_count as u32) + le32(attachment_count as u32)
        + le32(metadata_count as u32) + le32(chunk_count as u32)
        + le64(if earliest == u64::MAX { 0 } else { earliest }) + le64(latest) + spec_len_prefixed(body)
}

/// The earliest and latest times gathered over channels `1..n` are the
/// least start time and the greatest end time of the channels with
/// messages (the unset values when none has any).
proof fn lemma_stats_fold_times(stats: Seq<ChannelStats>, n: int)
    requires
        n <= stats.len(),
    ensures
        ({
            let (_t, e, l, _b) = stats_fold(stats, n);
            &&& forall|i: int| 1 <= i < n && (#[trigger] stats[i]).has_messages
                ==> e <= stats[i].message_start_time && stats[i].message_end_time <= l
            &&& (exists|i: int| 1 <= i < n && (#[trigger] stats[i]).has_messages) ==> {
                &&& exists|j: int| 1 <= j < n && (#[trigger] stats[j]).has_messages
                    && (e == stats[j].message_start_time || (e == u64::MAX && stats[j].message_start_time == u64::MAX))
                &&& exists|j: int| 1 <= j < n && (#[trigger] stats[j]).has_messages && l == stats[j].message_end_time
            }
            &&& (forall|i: int| 1 <= i < n ==> !(#[trigger] stats[i]).has_messages) ==> e == u64::MAX && l == 0
        }),
    decreases n,
{
    if n > 1 {
        lemma_stats_fold_times(stats, n - 1);
        let (_t0, e0, l0, _b0) = stats_fold(stats, n - 1);
        let s = stats[n - 1];
        let (_t, e, l, _b) = stats_fold(stats, n);
        if s.has_messages {
            if exists|i: int| 1 <= i < n - 1 && (#[trigger] stats[i]).has_messages {
                let j1 = choose|j: int| 1 <= j < n - 1 && (#[trigger] stats[j]).has_messages
                    && (e0 == stats[j].message_start_time || (e0 == u64::MAX && stats[j].message_start_time == u64::MAX));
                let j2 = choose|j: int| 1 <= j < n - 1 && (#[trigger] stats[j]).has_messages && l0 == stats[j].message_end_time;
                if s.message_start_time < e0 {
                    assert(stats[n - 1].has_messages && e == stats[n - 1].message_start_time);
                } else {
                    assert(stats[j1].has_messages && (e == stats[j1].message_start_time
                        || (e == u64::MAX && stats[j1].message_start_time == u64::MAX)));
                }
                if s.message_end_time > l0 {
                    assert(stats[n - 1].has_messages && l == stats[n - 1].message_end_time);
                } else {
                    assert(stats[j2].has_messages && l == stats[j2].message_end_time);
                }
            } else {
                assert(e0 == u64::MAX && l0 == 0);
                assert(stats[n - 1].has_messages && (e == stats[n - 1].message_start_time
                    || (e == u64::MAX && stats[n - 1].message_start_time == u64::MAX)));
                assert(stats[n - 1].has_messages && l == stats[n - 1].message_end_time);
            }
        } else {
            if exists|i: int| 1 <= i < n && (#[trigger] stats[i]).has_messages {
                let i = choose|i: int| 1 <= i < n && (#[trigger] stats[i]).has_messages;
                assert(i < n - 1);
            }
            if forall|i: int| 1 <= i < n ==> !(#[trigger] stats[i]).has_messages {
                assert forall|i: int| 1 <= i < n - 1 implies !(#[trigger] stats[i]).has_messages by {}
            }
        }
    }
}

/// The time span of a Statistics record covers its channels: the start
/// time it records is no later than the start time of any channel with
/// messages (channel ids from 1), and the end time no earlier than any such
/// channel's end time; the start time is the earliest channel's start time
/// (or 0 when that is the largest time there is), the end time the latest
/// channel's end time; with no messages both are 0.
pub proof fn lemma_statistics_times(
    schema_count: nat,
    channel_count: nat,
    attachment_count: nat,
    metadata_count: nat,
    chunk_count: nat,
    stats: Seq<ChannelStats>,
)
    ensures
        ({
            let p = spec_statistics_payload(schema_count, channel_count, attachment_count, metadata_count, chunk_count, stats);
            let start = crate::decode::u64_at(p, 26);
            let end = crate::decode::u64_at(p, 34);
            &&& forall|i: int| 1 <= i < stats.len() && (#[trigger] stats[i]).has_messages
                ==> start <= stats[i].message_start_time && stats[i].message_end_time <= end
            &&& (exists|i: int| 1 <= i < stats.len() && (#[trigger] stats[i]).has_messages
                && stats[i].message_start_time < u64::MAX)
                ==> exists|j: int| 1 <= j < stats.len() && (#[trigger] stats[j]).has_messages
                    && start == stats[j].message_start_time
            &&& (exists|i: int| 1 <= i < stats.len() && (#[trigger] stats[i]).has_messages)
                ==> exists|j: int| 1 <= j < stats.len() && (#[trigger] stats[j]).has_messages
                    && end == stats[j].message_end_time
            &&& (forall|i: int| 1 <= i < stats.len() ==> !(#[trigger] stats[i]).has_messages) ==> start == 0 && end == 0
        }),
{
    let n = stats.len() as int;
    lemma_stats_fold_times(stats, n);
    let (total, earliest, latest, body) = stats_fold(stats, n);
    let e = if earliest == u64::MAX { 0 } else { earliest };
    let a = le64(total) + le16(schema_count as u16) + le32(channel_count as u32) + le32(attachment_count as u32)
        + le32(metadata_count as u32) + le32(chunk_count as u32);
    crate::decode::lemma_le_fields_round_trip(Seq::empty(), Seq::empty(), schema_count as u16, channel_count as u32, total);
    crate::decode::lemma_le_fields_round_trip(Seq::empty(), Seq::empty(), 0, attachment_count as u32, 0);
    crate::decode::lemma_le_fields_round_trip(Seq::empty(), Seq::empty(), 0, metadata_count as u32, 0);
    crate::decode::lemma_le_fields_round_trip(Seq::empty(), Seq::empty(), 0, chunk_count as u32, 0);
    assert(a.len() == 26);
    let rest = le64(latest) + spec_len_prefixed(body);
    crate::decode::lemma_le_fields_round_trip(a, rest, 0, 0, e);
    crate::decode::lemma_le_fields_round_trip(a + le64(e), spec_len_prefixed(body), 0, 0, latest);
    let p = spec_statistics_payload(schema_count, channel_count, attachment_count, metadata_count, chunk_count, stats);
    assert(p =~= a + le64(e) + rest);
    assert(p =~= (a + le64(e)) + le64(latest) + spec_len_prefixed(body));
    if exists|i: int| 1 <= i < stats.len() && (#[trigger] stats[i]).has_messages && stats[i].message_start_time < u64::MAX {
        let i = choose|i: int| 1 <= i < stats.len() && (#[trigger] stats[i]).has_messages && stats[i].message_start_time < u64::MAX;
        assert(earliest <= stats[i].message_start_time);
        assert(earliest != u64::MAX);
    }
}

/// The encoded entries grow by ten bytes per channel with messages.
proof fn lemma_stats_body_len(stats: Seq<ChannelStats>, n: int)
    requires
        0 <= n <= stats.len(),
    ensures
        stats_fold(stats, n).3.len() <= 10 * n,
    decreases n,
{
    if n > 1 {
        lemma_stats_body_len(stats, n - 1);
        let s = stats[n - 1];
        crate::decode::lemma_le_fields_round_trip(Seq::empty(), Seq::empty(), (n - 1) as u16, 0, s.message_count);
    }
}

/// Encode the Statistics record payload.
pub fn encode_statistics_payload(
    schema_count: usize,
    channel_count: usize,
    attachment_count: usize,
    metadata_count: usize,
    chunk_count: usize,
    stats: &Vec<ChannelStats>,
) -> (r: Vec<u8>)
    requires
        stats@.len() <= 65536,
    ensures
        r@ == spec_statistics_payload(
            schema_count as nat,
            channel_count as nat,
            attachment_count as nat,
            metadata_count as nat,
            chunk_count as nat,
            stats@,
        ),
{
    let mut total: u64 = 0;
    let mut earliest: u64 = u64::MAX;
    let mut latest: u64 = 0;
    let mut body: Vec<u8> = Vec::new();
    let n = stats.len();
    let mut idx: usize = 1;
    if n == 0 {
        idx = 0;
    }
    while idx < n
        invariant
            n == stats@.len(),
            n <= 65536,
            (n == 0 && idx == 0) || (1 <= idx <= n),
            (total, earliest, latest, body@) == stats_fold(stats@, idx as int),
        decreases n - idx,
    {
        let s = stats[idx];
        if s.has_messages {
            total = total.saturating_add(s.message_count);
            if s.message_start_time < earliest {
                earliest = s.message_start_time;
            }
            if s.message_end_time > latest {
                latest = s.message_end_time;
            }
            push_le_u16(&mut body, idx as u16);
            push_le_u64(&mut body, s.message_count);
        }
        idx += 1;
    }
    proof {
        lemma_stats_body_len(stats@, n as int);
    }
    let mut payload: Vec<u8> = Vec::new();
    push_le_u64(&mut payload, total);
    push_le_u16(&mut payload, schema_count as u16);
    push_le_u32(&mut payload, channel_count as u32);
    push_le_u32(&mut payload, attachment_count as u32);
    push_le_u32(&mut payload, metadata_count as u32);
    push_le_u32(&mut payload, chunk_count as u32);
    push_le_u64(&mut payload, if earliest == u64::MAX { 0 } else { earliest });
    push_le_u64(&mut payload, latest);
    let ghost before = payload@;
    let r = push_len_prefixed_bytes(&mut payload, body.as_slice());
    assert(r is Ok);
    assert(payload@ =~= spec_statistics_payload(
        schema_count as nat,
        channel_count as nat,
        attachment_count as nat,
        metadata_count as nat,
        chunk_count as nat,
        stats@,
    ));
    payload
}

} // verus!
