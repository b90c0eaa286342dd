//! The decisions of record-level streams over the records of a file: the
//! stream of every record (with a filter on record kinds) and the stream of
//! chunks. The caller reads each record block and hands it over, with the
//! record filter's answer for the block's opcode.

use vstd::prelude::*;
use crate::decode::{get_record_location, parse_message_header_from_content, spec_record_at, parse_channel_record, parse_chunk_record, parse_data_end_record, parse_footer_record,
    parse_header_record, parse_message_index_record, parse_message_record, parse_schema_record, spec_parse_channel,
    spec_parse_chunk, spec_parse_footer, spec_parse_header, spec_parse_message_header, spec_parse_message_index,
    spec_parse_schema};
use crate::decode::{attachment_index_decodes, chunk_index_decodes, metadata_index_decodes, parse_attachment_record,
    parse_metadata_record, spec_attachment_index_decodes, spec_chunk_index_decodes, spec_metadata_index_decodes,
    spec_parse_attachment, spec_parse_metadata, spec_statistics_decodes, spec_summary_offset_decodes, statistics_decodes};
use crate::error::{invalid, Error, Result};
use crate::format::Opcode;
use crate::message_stream::{block_view, opt_block_view, BlockView, RecordBlock};
use crate::stream::{chunk_overlaps_time_range, spec_chunk_overlaps};
use crate::summary::{channel_view, schema_view, ChannelView, SchemaView};
use crate::types::{Attachment, Channel, Chunk, Metadata, MessageMetadata, RecordMetadata, RecordSource, Schema};
use vstd::string::StrSliceExecFns;

verus! {

/// Which records a record-level stream yields.
#[derive(Debug, Clone, Copy, PartialEq, Eq, Structural)]
pub enum RecordStreamKind {
    /// Every record of the file, up to and including the Footer, as the
    /// record filter lets through.
    Records,
    /// The chunks of the data section whose time span meets the range.
    Chunks,
}

/// What one step of a record-level stream gives.
pub enum RecordStep {
    /// A record: its opcode and payload.
    Record(u8, Vec<u8>),
    /// A chunk.
    Chunk(Chunk),
    /// The next record block is needed.
    NeedBlock,
    /// The stream has ended.
    Done,
    /// A record could not be decoded.
    Failed(Error),
}

/// A chunk as plain values: start and end times, uncompressed size and CRC,
/// compression, records.
pub type ChunkView = (u64, u64, u64, u32, Seq<char>, Seq<u8>);

/// A record-level step as plain values.
pub enum RecordStepView {
    Record(u8, Seq<u8>),
    Chunk(ChunkView),
    NeedBlock,
    Done,
    Failed,
}

/// The plain value of a record-level step.
pub open spec fn record_step_view(s: RecordStep) -> RecordStepView {
    match s {
        RecordStep::Record(op, d) => RecordStepView::Record(op, d@),
        RecordStep::Chunk(c) => RecordStepView::Chunk((c.message_start_time, c.message_end_time,
            c.uncompressed_size, c.uncompressed_crc, c.compression@, c.records@)),
        RecordStep::NeedBlock => RecordStepView::NeedBlock,
        RecordStep::Done => RecordStepView::Done,
        RecordStep::Failed(_) => RecordStepView::Failed,
    }
}

/// The state of a record-level stream as plain values.
pub struct RecordStreamView {
    pub kind: RecordStreamKind,
    pub done: bool,
    pub time_range: Option<(u64, u64)>,
    pub schemas: Seq<SchemaView>,
    pub channels: Seq<ChannelView>,
    pub attachments: Seq<AttachmentView>,
    pub metadata: Seq<MetadataView>,
}

/// An attachment as plain values: log and create times, name, media type, data.
pub type AttachmentView = (u64, u64, Seq<char>, Seq<char>, Seq<u8>);

/// A metadata record as plain values: its name and entries.
pub type MetadataView = (Seq<char>, Seq<(Seq<char>, Seq<char>)>);

/// The plain value of an attachment.
pub open spec fn attachment_view(a: Attachment) -> AttachmentView {
    (a.log_time, a.create_time, a.name@, a.media_type@, a.data@)
}

/// The plain value of a metadata record.
pub open spec fn metadata_view(m: Metadata) -> MetadataView {
    (m.name@, m.metadata@)
}

/// Whether the payload `data` of a record with opcode `op` decodes. A
/// record of an unknown kind is taken as it is.
pub open spec fn spec_record_decodes(op: u8, data: Seq<u8>) -> bool {
    if op == Opcode::Header.byte() {
        spec_parse_header(data) is Some
    } else if op == Opcode::Footer.byte() {
        spec_parse_footer(data) is Some
    } else if op == Opcode::Schema.byte() {
        spec_parse_schema(data) is Some
    } else if op == Opcode::Channel.byte() {
        spec_parse_channel(data) is Some
    } else if op == Opcode::Message.byte() {
        spec_parse_message_header(data) is Some
    } else if op == Opcode::Chunk.byte() {
        spec_parse_chunk(data) is Some
    } else if op == Opcode::MessageIndex.byte() {
        spec_parse_message_index(data) is Some
    } else if op == Opcode::DataEnd.byte() {
        data.len() >= 4
    } else if op == Opcode::ChunkIndex.byte() {
        spec_chunk_index_decodes(data)
    } else if op == Opcode::Attachment.byte() {
        spec_parse_attachment(data) is Some
    } else if op == Opcode::AttachmentIndex.byte() {
        spec_attachment_index_decodes(data)
    } else if op == Opcode::Statistics.byte() {
        spec_statistics_decodes(data)
    } else if op == Opcode::Metadata.byte() {
        spec_parse_metadata(data) is Some
    } else if op == Opcode::MetadataIndex.byte() {
        spec_metadata_index_decodes(data)
    } else if op == Opcode::SummaryOffset.byte() {
        spec_summary_offset_decodes(data)
    } else {
        true
    }
}

/// The stream of every record: a record the filter refuses is passed over;
/// a record that does not decode gives an error; a Schema, Channel,
/// Attachment or Metadata record is cached as it is yielded; the stream
/// ends after the Footer.
pub open spec fn spec_records_block(st: RecordStreamView, b: BlockView, wanted: bool) -> (RecordStreamView, RecordStepView) {
    let (op, data, _probes) = b;
    if !wanted {
        (st, RecordStepView::NeedBlock)
    } else if !spec_record_decodes(op, data) {
        (st, RecordStepView::Failed)
    } else if op == Opcode::Schema.byte() {
        (RecordStreamView { schemas: st.schemas.push(spec_parse_schema(data)->Some_0), ..st }, RecordStepView::Record(op, data))
    } else if op == Opcode::Channel.byte() {
        (RecordStreamView { channels: st.channels.push(spec_parse_channel(data)->Some_0), ..st }, RecordStepView::Record(op, data))
    } else if op == Opcode::Attachment.byte() {
        (RecordStreamView { attachments: st.attachments.push(spec_parse_attachment(data)->Some_0), ..st },
            RecordStepView::Record(op, data))
    } else if op == Opcode::Metadata.byte() {
        (RecordStreamView { metadata: st.metadata.push(spec_parse_metadata(data)->Some_0), ..st },
            RecordStepView::Record(op, data))
    } else if op == Opcode::Footer.byte() {
        (RecordStreamView { done: true, ..st }, RecordStepView::Record(op, data))
    } else {
        (st, RecordStepView::Record(op, data))
    }
}

/// The stream of chunks: DataEnd ends it; schemas and channels are cached;
/// a chunk that does not decode gives an error; a chunk whose time span
/// misses the range is passed over; other records are passed over.
pub open spec fn spec_chunks_block(st: RecordStreamView, b: BlockView) -> (RecordStreamView, RecordStepView) {
    let (op, data, _probes) = b;
    if op == Opcode::DataEnd.byte() {
        (RecordStreamView { done: true, ..st }, RecordStepView::Done)
    } else if op == Opcode::Schema.byte() {
        match spec_parse_schema(data) {
            Some(s) => (RecordStreamView { schemas: st.schemas.push(s), ..st }, RecordStepView::NeedBlock),
            None => (st, RecordStepView::NeedBlock),
        }
    } else if op == Opcode::Channel.byte() {
        match spec_parse_channel(data) {
            Some(c) => (RecordStreamView { channels: st.channels.push(c), ..st }, RecordStepView::NeedBlock),
            None => (st, RecordStepView::NeedBlock),
        }
    } else if op == Opcode::Chunk.byte() {
        match spec_parse_chunk(data) {
            None => (st, RecordStepView::Failed),
            Some(c) => if spec_chunk_overlaps(st.time_range, c.0, c.1) {
                (st, RecordStepView::Chunk(c))
            } else {
                (st, RecordStepView::NeedBlock)
            },
        }
    } else {
        (st, RecordStepView::NeedBlock)
    }
}

/// One step of a record-level stream: nothing after the end; the end of the
/// file ends it; otherwise the block's step for the stream's kind.
/// `wanted` is the record filter's answer for the block's opcode (`true`
/// when no filter is set); the stream of chunks does not read it.
pub open spec fn spec_record_stream_step(st: RecordStreamView, block: Option<BlockView>, wanted: bool)
    -> (RecordStreamView, RecordStepView)
{
    if st.done {
        (st, RecordStepView::Done)
    } else {
        match block {
            None => (RecordStreamView { done: true, ..st }, RecordStepView::Done),
            Some(b) => match st.kind {
                RecordStreamKind::Records => spec_records_block(st, b, wanted),
                RecordStreamKind::Chunks => spec_chunks_block(st, b),
            },
        }
    }
}

/// The state of a record-level stream over the records of a file.
pub struct RecordStreamState {
    kind: RecordStreamKind,
    done: bool,
    time_range: Option<(u64, u64)>,
    schemas: Vec<Schema>,
    channels: Vec<Channel>,
    attachments: Vec<Attachment>,
    metadata: Vec<Metadata>,
}

impl View for RecordStreamState {
    type V = RecordStreamView;

    closed spec fn view(&self) -> RecordStreamView {
        RecordStreamView {
            kind: self.kind,
            done: self.done,
            time_range: self.time_range,
            schemas: Seq::new(self.schemas@.len(), |i: int| schema_view(self.schemas@[i])),
            channels: Seq::new(self.channels@.len(), |i: int| channel_view(self.channels@[i])),
            attachments: Seq::new(self.attachments@.len(), |i: int| attachment_view(self.attachments@[i])),
            metadata: Seq::new(self.metadata@.len(), |i: int| metadata_view(self.metadata@[i])),
        }
    }
}

impl RecordStreamState {
    /// A stream of `kind` at the start of the file's records.
    pub fn new(kind: RecordStreamKind, time_range: Option<(u64, u64)>) -> (r: RecordStreamState)
        ensures
            r@ == (RecordStreamView { kind, done: false, time_range, schemas: Seq::empty(), channels: Seq::empty(),
                attachments: Seq::empty(), metadata: Seq::empty() }),
    {
        let r = RecordStreamState { kind, done: false, time_range, schemas: Vec::new(), channels: Vec::new(),
            attachments: Vec::new(), metadata: Vec::new() };
        assert(r@.schemas =~= Seq::<SchemaView>::empty());
        assert(r@.channels =~= Seq::<ChannelView>::empty());
        assert(r@.attachments =~= Seq::<AttachmentView>::empty());
        assert(r@.metadata =~= Seq::<MetadataView>::empty());
        r
    }

    /// The schemas cached so far, in the order they were read.
    pub fn schemas(&self) -> (r: &Vec<Schema>)
        ensures
            r@.len() == self@.schemas.len(),
            forall|i: int| 0 <= i < r@.len() ==> schema_view(#[trigger] r@[i]) == self@.schemas[i],
    {
        &self.schemas
    }

    /// The channels cached so far, in the order they were read.
    pub fn channels(&self) -> (r: &Vec<Channel>)
        ensures
            r@.len() == self@.channels.len(),
            forall|i: int| 0 <= i < r@.len() ==> channel_view(#[trigger] r@[i]) == self@.channels[i],
    {
        &self.channels
    }

    /// The attachments cached so far, in the order they were read.
    pub fn attachments(&self) -> (r: &Vec<Attachment>)
        ensures
            r@.len() == self@.attachments.len(),
            forall|i: int| 0 <= i < r@.len() ==> attachment_view(#[trigger] r@[i]) == self@.attachments[i],
    {
        &self.attachments
    }

    /// The metadata records cached so far, in the order they were read.
    pub fn metadata(&self) -> (r: &Vec<Metadata>)
        ensures
            r@.len() == self@.metadata.len(),
            forall|i: int| 0 <= i < r@.len() ==> metadata_view(#[trigger] r@[i]) == self@.metadata[i],
    {
        &self.metadata
    }

    fn cache_attachment(&mut self, a: Attachment)
        ensures
            final(self)@ == (RecordStreamView { attachments: old(self)@.attachments.push(attachment_view(a)), ..old(self)@ }),
    {
        let ghost v0 = self@;
        self.attachments.push(a);
        assert(self@.attachments =~= v0.attachments.push(attachment_view(a)));
    }

    fn cache_metadata(&mut self, m: Metadata)
        ensures
            final(self)@ == (RecordStreamView { metadata: old(self)@.metadata.push(metadata_view(m)), ..old(self)@ }),
    {
        let ghost v0 = self@;
        self.metadata.push(m);
        assert(self@.metadata =~= v0.metadata.push(metadata_view(m)));
    }

    fn cache_schema(&mut self, sc: Schema)
        ensures
            final(self)@ == (RecordStreamView { schemas: old(self)@.schemas.push(schema_view(sc)), ..old(self)@ }),
    {
        let ghost v0 = self@;
        self.schemas.push(sc);
        assert(self@.schemas =~= v0.schemas.push(schema_view(sc)));
    }

    fn cache_channel(&mut self, c: Channel)
        ensures
            final(self)@ == (RecordStreamView { channels: old(self)@.channels.push(channel_view(c)), ..old(self)@ }),
    {
        let ghost v0 = self@;
        self.channels.push(c);
        assert(self@.channels =~= v0.channels.push(channel_view(c)));
    }
}

/// Whether the payload of a record decodes, and the error when it does not.
fn check_record(op: u8, data: &[u8]) -> (r: Option<Error>)
    requires
        data@.len() <= u32::MAX,
    ensures
        r is None <==> spec_record_decodes(op, data@),
{
    proof {
        crate::format::lemma_opcode_byte_round_trip(Opcode::Header);
        crate::format::lemma_opcode_byte_round_trip(Opcode::Footer);
        crate::format::lemma_opcode_byte_round_trip(Opcode::Schema);
        crate::format::lemma_opcode_byte_round_trip(Opcode::Channel);
        crate::format::lemma_opcode_byte_round_trip(Opcode::Message);
        crate::format::lemma_opcode_byte_round_trip(Opcode::Chunk);
        crate::format::lemma_opcode_byte_round_trip(Opcode::MessageIndex);
        crate::format::lemma_opcode_byte_round_trip(Opcode::DataEnd);
        crate::format::lemma_opcode_byte_round_trip(Opcode::ChunkIndex);
        crate::format::lemma_opcode_byte_round_trip(Opcode::Attachment);
        crate::format::lemma_opcode_byte_round_trip(Opcode::AttachmentIndex);
        crate::format::lemma_opcode_byte_round_trip(Opcode::Statistics);
        crate::format::lemma_opcode_byte_round_trip(Opcode::Metadata);
        crate::format::lemma_opcode_byte_round_trip(Opcode::MetadataIndex);
        crate::format::lemma_opcode_byte_round_trip(Opcode::SummaryOffset);
    }
    if op == Opcode::Header.as_u8() {
        match parse_header_record(data) { Ok(_) => None, Err(e) => Some(e) }
    } else if op == Opcode::Footer.as_u8() {
        match parse_footer_record(data) { Ok(_) => None, Err(e) => Some(e) }
    } else if op == Opcode::Schema.as_u8() {
        match parse_schema_record(data) { Ok(_) => None, Err(e) => Some(e) }
    } else if op == Opcode::Channel.as_u8() {
        match parse_channel_record(data) { Ok(_) => None, Err(e) => Some(e) }
    } else if op == Opcode::Message.as_u8() {
        match parse_message_record(data) { Ok(_) => None, Err(e) => Some(e) }
    } else if op == Opcode::Chunk.as_u8() {
        match parse_chunk_record(data) { Ok(_) => None, Err(e) => Some(e) }
    } else if op == Opcode::MessageIndex.as_u8() {
        match parse_message_index_record(data) { Ok(_) => None, Err(e) => Some(e) }
    } else if op == Opcode::DataEnd.as_u8() {
        match parse_data_end_record(data) { Ok(_) => None, Err(e) => Some(e) }
    } else if op == Opcode::ChunkIndex.as_u8() {
        if chunk_index_decodes(data) { None } else { Some(invalid("invalid chunk index record")) }
    } else if op == Opcode::Attachment.as_u8() {
        match parse_attachment_record(data) { Ok(_) => None, Err(e) => Some(e) }
    } else if op == Opcode::AttachmentIndex.as_u8() {
        if attachment_index_decodes(data) { None } else { Some(invalid("invalid attachment index record")) }
    } else if op == Opcode::Statistics.as_u8() {
        if statistics_decodes(data) { None } else { Some(invalid("invalid statistics record")) }
    } else if op == Opcode::Metadata.as_u8() {
        match parse_metadata_record(data) { Ok(_) => None, Err(e) => Some(e) }
    } else if op == Opcode::MetadataIndex.as_u8() {
        if metadata_index_decodes(data) { None } else { Some(invalid("invalid metadata index record")) }
    } else if op == Opcode::SummaryOffset.as_u8() {
        if data.len() >= 17 { None } else { Some(invalid("summary offset record is truncated")) }
    } else {
        None
    }
}

/// One step of a record-level stream (see `spec_record_stream_step`): the
/// caller hands over the next record block when the previous step asked
/// for one, with the record filter's answer for its opcode.
pub fn record_stream_step(st: &mut RecordStreamState, block: Option<RecordBlock>, wanted: bool) -> (r: RecordStep)
    requires
        block matches Some(b) ==> b.data@.len() <= u32::MAX,
    ensures
        (final(st)@, record_step_view(r)) == spec_record_stream_step(old(st)@, opt_block_view(block), wanted),
{
    if st.done {
        return RecordStep::Done;
    }
    let b = match block {
        None => {
            st.done = true;
            return RecordStep::Done;
        },
        Some(b) => b,
    };
    proof {
        crate::format::lemma_opcode_byte_round_trip(Opcode::Schema);
        crate::format::lemma_opcode_byte_round_trip(Opcode::Channel);
        crate::format::lemma_opcode_byte_round_trip(Opcode::Footer);
        crate::format::lemma_opcode_byte_round_trip(Opcode::Chunk);
        crate::format::lemma_opcode_byte_round_trip(Opcode::DataEnd);
    }
    let op = b.opcode;
    match st.kind {
        RecordStreamKind::Records => {
            if !wanted {
                return RecordStep::NeedBlock;
            }
            match check_record(op, b.data.as_slice()) {
                Some(e) => return RecordStep::Failed(e),
                None => {},
            }
            if op == Opcode::Schema.as_u8() {
                match parse_schema_record(b.data.as_slice()) {
                    Ok(sc) => st.cache_schema(sc),
                    Err(_) => {},
                }
            } else if op == Opcode::Channel.as_u8() {
                match parse_channel_record(b.data.as_slice()) {
                    Ok(c) => st.cache_channel(c),
                    Err(_) => {},
                }
            } else if op == Opcode::Attachment.as_u8() {
                match parse_attachment_record(b.data.as_slice()) {
                    Ok(a) => st.cache_attachment(a),
                    Err(_) => {},
                }
            } else if op == Opcode::Metadata.as_u8() {
                match parse_metadata_record(b.data.as_slice()) {
                    Ok(m) => st.cache_metadata(m),
                    Err(_) => {},
                }
            } else if op == Opcode::Footer.as_u8() {
                st.done = true;
            }
            RecordStep::Record(op, b.data)
        },
        RecordStreamKind::Chunks => {
            if op == Opcode::DataEnd.as_u8() {
                st.done = true;
                RecordStep::Done
            } else if op == Opcode::Schema.as_u8() {
                match parse_schema_record(b.data.as_slice()) {
                    Ok(sc) => st.cache_schema(sc),
                    Err(_) => {},
                }
                RecordStep::NeedBlock
            } else if op == Opcode::Channel.as_u8() {
                match parse_channel_record(b.data.as_slice()) {
                    Ok(c) => st.cache_channel(c),
                    Err(_) => {},
                }
                RecordStep::NeedBlock
            } else if op == Opcode::Chunk.as_u8() {
                match parse_chunk_record(b.data.as_slice()) {
                    Err(e) => RecordStep::Failed(e),
                    Ok(c) => if chunk_overlaps_time_range(st.time_range, c.message_start_time, c.message_end_time) {
                        RecordStep::Chunk(c)
                    } else {
                        RecordStep::NeedBlock
                    },
                }
            } else {
                RecordStep::NeedBlock
            }
        },
    }
}

/// What one step of a record metadata stream gives.
pub enum RecordMetaStep {
    /// The metadata of the next record.
    Meta(RecordMetadata),
    /// The next record block is needed.
    NeedBlock,
    /// The stream has ended.
    Done,
    /// A record could not be read.
    Failed(Error),
}

/// A record metadata step as plain values.
pub enum RecordMetaView {
    Meta(RecordMetadata),
    NeedBlock,
    Done,
    Failed,
}

/// The plain value of a record metadata step.
pub open spec fn record_meta_view(s: RecordMetaStep) -> RecordMetaView {
    match s {
        RecordMetaStep::Meta(m) => RecordMetaView::Meta(m),
        RecordMetaStep::NeedBlock => RecordMetaView::NeedBlock,
        RecordMetaStep::Done => RecordMetaView::Done,
        RecordMetaStep::Failed(_) => RecordMetaView::Failed,
    }
}

/// The state of a record metadata stream as plain values: whether it has
/// ended, whether it descends into chunks and decodes message headers, and
/// the chunk being walked (its records, the walk's position, its offset).
pub struct RecordMetaStateView {
    pub done: bool,
    pub chunk_messages: bool,
    pub message_metadata: bool,
    pub chunk: Option<(Seq<u8>, int, u64)>,
}

/// The metadata of the message record of a chunk that starts at `pos`, its
/// content at `cs..nx`; `None` when its header is wanted and does not decode.
pub open spec fn spec_chunk_message_meta(st: RecordMetaStateView, d: Seq<u8>, pos: int, cs: int, nx: int, chunk_offset: u64)
    -> Option<RecordMetadata>
{
    let len = (nx - cs) as u64;
    let message = if st.message_metadata {
        match spec_parse_message_header(d.subrange(cs, nx)) {
            Some(h) => Some(Some(MessageMetadata { channel_id: h.channel_id, sequence: h.sequence,
                log_time: h.log_time, publish_time: h.publish_time, data_size: h.data_size })),
            None => None,
        }
    } else {
        Some(None)
    };
    match message {
        Some(mm) => Some(RecordMetadata { opcode: Opcode::Message, length: len, total_len: (9 + len) as u64,
            offset: pos as u64, source: RecordSource::Chunk { chunk_offset }, message: mm }),
        None => None,
    }
}

/// The next message record of the chunk being walked, from the walk's
/// position: its metadata or a failure, and the position after it; `None`
/// when no message record is left or a record is truncated.
pub open spec fn spec_walk_chunk_meta(st: RecordMetaStateView, d: Seq<u8>, pos: int, chunk_offset: u64)
    -> Option<(Option<RecordMetadata>, int)>
    decreases d.len() - pos,
{
    match spec_record_at(d, pos) {
        None => None,
        Some((op, cs, nx)) => if pos < nx <= d.len() {
            if op == Opcode::Message.byte() {
                Some((spec_chunk_message_meta(st, d, pos, cs, nx, chunk_offset), nx))
            } else {
                spec_walk_chunk_meta(st, d, nx, chunk_offset)
            }
        } else {
            None
        },
    }
}

/// The metadata of a top-level record: its opcode, length and offset, and
/// the message header when it is a message and headers are wanted; `None`
/// when the opcode is unknown or a wanted header does not decode.
pub open spec fn spec_top_record_meta(st: RecordMetaStateView, op: u8, data: Seq<u8>, offset: u64) -> Option<RecordMetadata> {
    match Opcode::spec_from_byte(op) {
        None => None,
        Some(o) => {
            let len = data.len() as u64;
            if o == Opcode::Message && st.message_metadata {
                match spec_parse_message_header(data) {
                    Some(h) => Some(RecordMetadata { opcode: o, length: len, total_len: (9 + len) as u64, offset,
                        source: RecordSource::File, message: Some(MessageMetadata { channel_id: h.channel_id,
                            sequence: h.sequence, log_time: h.log_time, publish_time: h.publish_time, data_size: h.data_size }) }),
                    None => None,
                }
            } else {
                Some(RecordMetadata { opcode: o, length: len, total_len: (9 + len) as u64, offset,
                    source: RecordSource::File, message: None })
            }
        },
    }
}

/// The step of the chunk walk: the next message's metadata (ending the
/// stream when it cannot be read), or the chunk dropped when none is left.
pub open spec fn spec_chunk_meta_step(st: RecordMetaStateView) -> (RecordMetaStateView, Option<RecordMetaView>) {
    match st.chunk {
        None => (st, None),
        Some((d, pos, co)) => match spec_walk_chunk_meta(st, d, pos, co) {
            None => (RecordMetaStateView { chunk: None, ..st }, None),
            Some((Some(m), nx)) => (RecordMetaStateView { chunk: Some((d, nx, co)), ..st }, Some(RecordMetaView::Meta(m))),
            Some((None, _)) => (RecordMetaStateView { chunk: None, done: true, ..st }, Some(RecordMetaView::Failed)),
        },
    }
}

/// One record block of a record metadata stream. `wanted` and
/// `messages_wanted` are the record filter's answers for the block's opcode
/// and for messages. A chunk whose messages are wanted is walked (a
/// malformed or compressed chunk ends the stream); a record that is not
/// wanted is passed over; otherwise its metadata is given.
pub open spec fn spec_record_meta_block(st: RecordMetaStateView, b: BlockView, offset: u64, wanted: bool, messages_wanted: bool)
    -> (RecordMetaStateView, RecordMetaView)
{
    let (op, data, _probes) = b;
    if op == Opcode::Chunk.byte() && st.chunk_messages && messages_wanted {
        match spec_parse_chunk(data) {
            None => (RecordMetaStateView { done: true, ..st }, RecordMetaView::Failed),
            Some((_s, _e, _size, _crc, comp, records)) => if comp.len() != 0 {
                (RecordMetaStateView { done: true, ..st }, RecordMetaView::Failed)
            } else {
                let st1 = RecordMetaStateView { chunk: Some((records, 0, offset)), ..st };
                if wanted {
                    (st1, RecordMetaView::Meta(RecordMetadata { opcode: Opcode::Chunk, length: data.len() as u64,
                        total_len: (9 + data.len()) as u64, offset, source: RecordSource::File, message: None }))
                } else {
                    let (st2, e) = spec_chunk_meta_step(st1);
                    match e {
                        Some(v) => (st2, v),
                        None => (st2, RecordMetaView::NeedBlock),
                    }
                }
            },
        }
    } else if !wanted {
        (st, RecordMetaView::NeedBlock)
    } else {
        match spec_top_record_meta(st, op, data, offset) {
            Some(m) => (st, RecordMetaView::Meta(m)),
            None => (RecordMetaStateView { done: true, ..st }, RecordMetaView::Failed),
        }
    }
}

/// One step of a record metadata stream: nothing after the end; the
/// messages of the chunk being walked first; then the block's step; the end
/// of the file ends it.
pub open spec fn spec_record_meta_step(st: RecordMetaStateView, block: Option<(BlockView, u64)>, wanted: bool,
    messages_wanted: bool) -> (RecordMetaStateView, RecordMetaView)
{
    if st.done {
        (st, RecordMetaView::Done)
    } else {
        let (st1, e) = spec_chunk_meta_step(st);
        match e {
            Some(v) => (st1, v),
            None => match block {
                None => (RecordMetaStateView { done: true, ..st1 }, RecordMetaView::Done),
                Some((b, off)) => spec_record_meta_block(st1, b, off, wanted, messages_wanted),
            },
        }
    }
}

/// The state of a record metadata stream over the records of a file.
pub struct RecordMetaState {
    done: bool,
    chunk_messages: bool,
    message_metadata: bool,
    chunk: Option<(Vec<u8>, usize, u64)>,
}

impl View for RecordMetaState {
    type V = RecordMetaStateView;

    closed spec fn view(&self) -> RecordMetaStateView {
        RecordMetaStateView {
            done: self.done,
            chunk_messages: self.chunk_messages,
            message_metadata: self.message_metadata,
            chunk: match self.chunk { Some((d, p, o)) => Some((d@, p as int, o)), None => None },
        }
    }
}

impl RecordMetaState {
    /// A stream at the start of the file's records; `chunk_messages` makes it
    /// descend into chunks, `message_metadata` makes it decode message headers.
    pub fn new(chunk_messages: bool, message_metadata: bool) -> (r: RecordMetaState)
        ensures
            r.well_formed(),
            r@ == (RecordMetaStateView { done: false, chunk_messages, message_metadata, chunk: None }),
    {
        RecordMetaState { done: false, chunk_messages, message_metadata, chunk: None }
    }

    /// The chunk being walked fits the payload bounds.
    pub closed spec fn well_formed(&self) -> bool {
        self.chunk matches Some((d, p, _o)) ==> d@.len() <= u32::MAX && p <= d@.len()
    }

    /// The next message record of the chunk being walked.
    fn walk(&mut self) -> (r: Option<RecordMetaStep>)
        requires
            old(self).well_formed(),
        ensures
            final(self).well_formed(),
            (final(self)@, match r { Some(x) => Some(record_meta_view(x)), None => None }) == spec_chunk_meta_step(old(self)@),
    {
        let taken = self.chunk.take();
        let (d, start, co) = match taken {
            None => return None,
            Some(c) => c,
        };
        let ghost st0 = old(self)@;
        proof { crate::format::lemma_opcode_byte_round_trip(Opcode::Message); }
        let mut pos = start;
        while pos < d.len()
            invariant
                d@.len() <= u32::MAX,
                self.chunk is None,
                self.done == old(self).done,
                self.chunk_messages == old(self).chunk_messages,
                self.message_metadata == old(self).message_metadata,
                st0 == old(self)@,
                st0.chunk == Some((d@, start as int, co)),
                spec_walk_chunk_meta(st0, d@, start as int, co) == spec_walk_chunk_meta(st0, d@, pos as int, co),
                Opcode::spec_from_byte(Opcode::Message.byte()) == Some(Opcode::Message),
            decreases d@.len() - pos,
        {
            let loc = match get_record_location(d.as_slice(), pos) {
                Some(l) => l,
                None => return None,
            };
            if loc.opcode == 5 {
                let len = (loc.next_record_start - loc.content_start) as u64;
                let content = &d.as_slice()[loc.content_start..loc.next_record_start];
                assert(content@ =~= d@.subrange(loc.content_start as int, loc.next_record_start as int));
                let message = if self.message_metadata {
                    match parse_message_header_from_content(content) {
                        Ok(h) => Some(MessageMetadata { channel_id: h.channel_id, sequence: h.sequence,
                            log_time: h.log_time, publish_time: h.publish_time, data_size: h.data_size }),
                        Err(e) => {
                            self.done = true;
                            return Some(RecordMetaStep::Failed(e));
                        },
                    }
                } else {
                    None
                };
                let m = RecordMetadata { opcode: Opcode::Message, length: len, total_len: 9 + len, offset: pos as u64,
                    source: RecordSource::Chunk { chunk_offset: co }, message };
                let nx = loc.next_record_start;
                self.chunk = Some((d, nx, co));
                return Some(RecordMetaStep::Meta(m));
            }
            pos = loc.next_record_start;
        }
        proof { assert(spec_record_at(d@, pos as int) is None); }
        None
    }
}

/// The metadata of a top-level record (see `spec_top_record_meta`).
fn top_record_meta(message_metadata: bool, op: u8, data: &[u8], offset: u64) -> (r: Result<RecordMetadata>)
    requires
        data@.len() <= u32::MAX,
    ensures
        match r {
            Ok(m) => spec_top_record_meta(RecordMetaStateView { done: false, chunk_messages: false, message_metadata,
                chunk: None }, op, data@, offset) == Some(m),
            Err(_) => spec_top_record_meta(RecordMetaStateView { done: false, chunk_messages: false, message_metadata,
                chunk: None }, op, data@, offset) is None,
        },
{
    let o = match Opcode::from_repr(op) {
        None => return Err(crate::error::invalid("unknown record opcode")),
        Some(o) => o,
    };
    let len = data.len() as u64;
    if o == Opcode::Message && message_metadata {
        let h = parse_message_header_from_content(data)?;
        Ok(RecordMetadata { opcode: o, length: len, total_len: 9 + len, offset, source: RecordSource::File,
            message: Some(MessageMetadata { channel_id: h.channel_id, sequence: h.sequence, log_time: h.log_time,
                publish_time: h.publish_time, data_size: h.data_size }) })
    } else {
        Ok(RecordMetadata { opcode: o, length: len, total_len: 9 + len, offset, source: RecordSource::File, message: None })
    }
}

/// The plain value of an optional record block with its file offset.
pub open spec fn opt_block_at(b: Option<RecordBlock>) -> Option<(BlockView, u64)> {
    match b {
        Some(x) => Some((block_view(x), x.offset)),
        None => None,
    }
}

/// One step of a record metadata stream (see `spec_record_meta_step`): the
/// caller hands over the next record block when the previous step asked
/// for one, with the record filter's answers for the block's opcode and
/// for messages (`true` when no filter is set).
pub fn record_metadata_step(st: &mut RecordMetaState, block: Option<RecordBlock>, wanted: bool, messages_wanted: bool)
    -> (r: RecordMetaStep)
    requires
        old(st).well_formed(),
        block matches Some(b) ==> b.data@.len() <= u32::MAX,
    ensures
        final(st).well_formed(),
        (final(st)@, record_meta_view(r)) == spec_record_meta_step(old(st)@, opt_block_at(block), wanted, messages_wanted),
{
    if st.done {
        return RecordMetaStep::Done;
    }
    match st.walk() {
        Some(x) => return x,
        None => {},
    }
    let b = match block {
        None => {
            st.done = true;
            return RecordMetaStep::Done;
        },
        Some(b) => b,
    };
    proof { crate::format::lemma_opcode_byte_round_trip(Opcode::Chunk); }
    let op = b.opcode;
    if op == Opcode::Chunk.as_u8() && st.chunk_messages && messages_wanted {
        let chunk = match parse_chunk_record(b.data.as_slice()) {
            Ok(c) => c,
            Err(e) => {
                st.done = true;
                return RecordMetaStep::Failed(e);
            },
        };
        if chunk.compression.as_str().unicode_len() != 0 {
            st.done = true;
            return RecordMetaStep::Failed(Error::UnsupportedCompression);
        }
        let len = b.data.len() as u64;
        st.chunk = Some((chunk.records, 0, b.offset));
        if wanted {
            RecordMetaStep::Meta(RecordMetadata { opcode: Opcode::Chunk, length: len, total_len: 9 + len,
                offset: b.offset, source: RecordSource::File, message: None })
        } else {
            match st.walk() {
                Some(x) => x,
                None => RecordMetaStep::NeedBlock,
            }
        }
    } else if !wanted {
        RecordMetaStep::NeedBlock
    } else {
        match top_record_meta(st.message_metadata, op, b.data.as_slice(), b.offset) {
            Ok(m) => RecordMetaStep::Meta(m),
            Err(e) => {
                st.done = true;
                RecordMetaStep::Failed(e)
            },
        }
    }
}

} // verus!
