//! MCAP record types and data structures.

use vstd::prelude::*;
use crate::format::{Opcode, RECORD_HEADER_SIZE, str_bytes};
use crate::kv::StringMap;
use crate::error::{Result, invalid};

verus! {

/// Timestamp in nanoseconds since epoch.
pub type Timestamp = u64;

/// Metadata about a chunk (without compressed data).
///
/// Used for filtering chunks before decompression.
#[derive(Debug, Clone)]
pub struct ChunkMetadata {
    /// Start time of messages in this chunk.
    pub message_start_time: Timestamp,
    /// End time of messages in this chunk.
    pub message_end_time: Timestamp,
    /// Uncompressed size of chunk data.
    pub uncompressed_size: u64,
    /// CRC32 of uncompressed chunk data.
    pub uncompressed_crc: u32,
    /// Compression algorithm used.
    pub compression: String,
    /// Size of compressed data.
    pub compressed_size: u64,
}

/// Header of a message (without payload data).
#[derive(Debug, Clone, Copy, PartialEq, Eq, Structural)]
pub struct MessageHeader {
    /// Channel ID.
    pub channel_id: u16,
    /// Sequence number.
    pub sequence: u32,
    /// Log timestamp.
    pub log_time: Timestamp,
    /// Publish timestamp.
    pub publish_time: Timestamp,
    /// Size of the message data payload.
    pub data_size: u64,
}

/// Metadata about a message (without payload bytes).
#[derive(Debug, Clone, Copy, PartialEq, Eq, Structural)]
pub struct MessageMetadata {
    /// Channel ID.
    pub channel_id: u16,
    /// Sequence number.
    pub sequence: u32,
    /// Log timestamp.
    pub log_time: Timestamp,
    /// Publish timestamp.
    pub publish_time: Timestamp,
    /// Size of the message data payload in bytes.
    pub data_size: u64,
}

impl MessageMetadata {
    /// The metadata carried by a message header.
    pub fn from_header(header: MessageHeader) -> (r: MessageMetadata)
        ensures
            r.channel_id == header.channel_id,
            r.sequence == header.sequence,
            r.log_time == header.log_time,
            r.publish_time == header.publish_time,
            r.data_size == header.data_size,
    {
        MessageMetadata {
            channel_id: header.channel_id,
            sequence: header.sequence,
            log_time: header.log_time,
            publish_time: header.publish_time,
            data_size: header.data_size,
        }
    }
}

/// MCAP file header information.
#[derive(Debug, Clone)]
pub struct Header {
    /// Profile name (e.g., "ros1", "ros2", "").
    pub profile: String,
    /// Library that created the file (free-form).
    pub library: String,
    /// Arbitrary metadata about the file.
    pub metadata: StringMap,
}

/// Footer with summary section offsets and CRC.
#[derive(Debug, Clone, Copy, PartialEq, Eq, Structural)]
pub struct Footer {
    /// Start offset of the summary section.
    pub summary_start: u64,
    /// Start offset of the SummaryOffset record.
    pub summary_offset_start: u64,
    /// CRC32 of the summary section.
    pub summary_crc: u32,
}

/// Schema definition for message encoding.
#[derive(Debug, Clone)]
pub struct Schema {
    /// Unique schema identifier.
    pub id: u16,
    /// Schema name.
    pub name: String,
    /// Encoding format (e.g., "protobuf", "ros1msg", "jsonschema").
    pub encoding: String,
    /// Schema data.
    pub data: Vec<u8>,
}

/// Channel represents a stream of messages.
#[derive(Debug, Clone)]
pub struct Channel {
    /// Unique channel identifier.
    pub id: u16,
    /// Channel topic name.
    pub topic: String,
    /// Message encoding (e.g., "protobuf", "ros1", "cdr").
    pub message_encoding: String,
    /// Schema ID (0 if no schema).
    pub schema_id: u16,
    /// Arbitrary metadata about the channel.
    pub metadata: StringMap,
}

/// Message payload bytes: a `start..end` window onto a backing buffer.
#[derive(Debug, Clone)]
pub struct Payload {
    backing: Vec<u8>,
    start: u32,
    end: u32,
}

impl View for Payload {
    type V = Seq<u8>;

    closed spec fn view(&self) -> Seq<u8> {
        self.backing@.subrange(self.start as int, self.end as int)
    }
}

impl Payload {
    /// The window lies inside the backing buffer.
    pub closed spec fn well_formed(&self) -> bool {
        self.start <= self.end && self.end <= self.backing@.len()
    }

    /// Create a payload backed directly by these bytes. The window is addressed
    /// by 32-bit offsets, so at most `u32::MAX` bytes can be held.
    pub fn from_bytes(bytes: Vec<u8>) -> (r: Payload)
        requires
            bytes@.len() <= u32::MAX,
        ensures
            r.well_formed(),
            r@ == bytes@,
    {
        let len = bytes.len() as u32;
        let r = Payload { backing: bytes, start: 0, end: len };
        assert(r@ =~= r.backing@);
        r
    }

    /// Create a payload that references `start..end` of a backing buffer. The
    /// window is addressed by 32-bit offsets, so `end` is at most `u32::MAX`.
    pub fn from_backing_range(backing: Vec<u8>, start: usize, end: usize) -> (r: Payload)
        requires
            start <= end,
            end <= backing@.len(),
            end <= u32::MAX,
        ensures
            r.well_formed(),
            r@ == backing@.subrange(start as int, end as int),
    {
        Payload { backing, start: start as u32, end: end as u32 }
    }

    /// Return the payload as a borrowed byte slice.
    pub fn as_slice(&self) -> (r: &[u8])
        requires
            self.well_formed(),
        ensures
            r@ == self@,
    {
        let s = self.start as usize;
        let e = self.end as usize;
        &self.backing.as_slice()[s..e]
    }

    /// Payload length in bytes.
    pub fn len(&self) -> (r: usize)
        requires
            self.well_formed(),
        ensures
            r == self@.len(),
    {
        (self.end - self.start) as usize
    }

    /// Returns true if this payload is empty.
    pub fn is_empty(&self) -> (r: bool)
        requires
            self.well_formed(),
        ensures
            r == (self@.len() == 0),
    {
        self.start == self.end
    }
}

/// A raw message without schema resolution.
#[derive(Debug, Clone)]
pub struct RawMessage {
    /// Channel ID.
    pub channel_id: u16,
    /// Sequence number.
    pub sequence: u32,
    /// Log timestamp.
    pub log_time: Timestamp,
    /// Publish timestamp.
    pub publish_time: Timestamp,
    /// Payload bytes.
    pub payload: Payload,
}

impl RawMessage {
    /// Construct a raw message from the decoded record fields.
    pub fn new(
        channel_id: u16,
        sequence: u32,
        log_time: Timestamp,
        publish_time: Timestamp,
        payload: Payload,
    ) -> (r: RawMessage)
        ensures
            r.channel_id == channel_id,
            r.sequence == sequence,
            r.log_time == log_time,
            r.publish_time == publish_time,
            r.payload == payload,
    {
        RawMessage { channel_id, sequence, log_time, publish_time, payload }
    }

    /// Returns the message payload bytes.
    pub fn data(&self) -> (r: &[u8])
        requires
            self.payload.well_formed(),
        ensures
            r@ == self.payload@,
    {
        self.payload.as_slice()
    }

    /// Message payload length in bytes.
    pub fn data_len(&self) -> (r: usize)
        requires
            self.payload.well_formed(),
        ensures
            r == self.payload@.len(),
    {
        self.payload.len()
    }
}

/// A message with parsed channel and schema information.
#[derive(Debug, Clone)]
pub struct Message {
    /// Channel this message belongs to.
    pub channel_id: u16,
    /// Sequence number within the channel.
    pub sequence: u32,
    /// Message log timestamp.
    pub log_time: Timestamp,
    /// Message publish timestamp.
    pub publish_time: Timestamp,
    /// Payload bytes.
    pub payload: Payload,
}

impl Message {
    /// Construct a message from the decoded record fields.
    pub fn new(
        channel_id: u16,
        sequence: u32,
        log_time: Timestamp,
        publish_time: Timestamp,
        payload: Payload,
    ) -> (r: Message)
        ensures
            r.channel_id == channel_id,
            r.sequence == sequence,
            r.log_time == log_time,
            r.publish_time == publish_time,
            r.payload == payload,
    {
        Message { channel_id, sequence, log_time, publish_time, payload }
    }

    /// A message with the fields of a raw message.
    pub fn from_raw(raw: RawMessage) -> (r: Message)
        ensures
            r.channel_id == raw.channel_id,
            r.sequence == raw.sequence,
            r.log_time == raw.log_time,
            r.publish_time == raw.publish_time,
            r.payload == raw.payload,
    {
        Message {
            channel_id: raw.channel_id,
            sequence: raw.sequence,
            log_time: raw.log_time,
            publish_time: raw.publish_time,
            payload: raw.payload,
        }
    }

    /// Returns the message payload bytes.
    pub fn data(&self) -> (r: &[u8])
        requires
            self.payload.well_formed(),
        ensures
            r@ == self.payload@,
    {
        self.payload.as_slice()
    }

    /// Message payload length in bytes.
    pub fn data_len(&self) -> (r: usize)
        requires
            self.payload.well_formed(),
        ensures
            r == self.payload@.len(),
    {
        self.payload.len()
    }
}

/// A chunk of (possibly compressed) message records.
#[derive(Debug, Clone)]
pub struct Chunk {
    /// Start time of messages in this chunk.
    pub message_start_time: Timestamp,
    /// End time of messages in this chunk.
    pub message_end_time: Timestamp,
    /// Uncompressed size of chunk data.
    pub uncompressed_size: u64,
    /// CRC32 of uncompressed chunk data.
    pub uncompressed_crc: u32,
    /// Compression algorithm used.
    pub compression: String,
    /// Compressed chunk records.
    pub records: Vec<u8>,
}

/// Metadata record: a name and key-value pairs.
#[derive(Debug, Clone)]
pub struct Metadata {
    /// Metadata name.
    pub name: String,
    /// Metadata entries.
    pub metadata: StringMap,
}

/// Attachment (auxiliary file embedded in MCAP).
#[derive(Debug, Clone)]
pub struct Attachment {
    /// Log timestamp.
    pub log_time: Timestamp,
    /// Creation timestamp.
    pub create_time: Timestamp,
    /// Attachment name.
    pub name: String,
    /// Media/MIME type.
    pub media_type: String,
    /// Attachment data.
    pub data: Vec<u8>,
}

/// Message index entry mapping timestamp to file offset.
#[derive(Debug, Clone, Copy, PartialEq, Eq, Structural)]
pub struct MessageIndexEntry {
    /// Message log timestamp.
    pub timestamp: Timestamp,
    /// Offset to message record.
    pub offset: u64,
}

/// Per-channel message index for efficient seeking.
#[derive(Debug, Clone)]
pub struct MessageIndex {
    /// Channel this index applies to.
    pub channel_id: u16,
    /// Indexed message timestamps and offsets.
    pub records: Vec<MessageIndexEntry>,
}

/// Index entry for a chunk.
#[derive(Debug, Clone)]
pub struct ChunkIndex {
    /// Start time of messages in chunk.
    pub message_start_time: Timestamp,
    /// End time of messages in chunk.
    pub message_end_time: Timestamp,
    /// File offset of chunk.
    pub chunk_start_offset: u64,
    /// Length of chunk in bytes.
    pub chunk_length: u64,
    /// Per-channel message index offsets.
    pub message_index_offsets: Vec<(u16, u64)>,
    /// Length of the message index records in bytes.
    pub message_index_length: u64,
    /// Uncompressed size.
    pub uncompressed_size: u64,
    /// Compression algorithm.
    pub compression: String,
}

/// Bytes of a chunk record that are not compressed payload: the record
/// header, the fixed fields and the compression string (saturating at `u64::MAX`).
pub open spec fn chunk_overhead(compression_len: nat) -> int {
    if RECORD_HEADER_SIZE as int + 40 + compression_len > u64::MAX {
        u64::MAX as int
    } else {
        RECORD_HEADER_SIZE as int + 40 + compression_len
    }
}

impl ChunkIndex {
    /// Compute the compressed payload size (excluding record header and fixed fields).
    pub fn compressed_size(&self) -> (r: Result<u64>)
        ensures
            match r {
                Ok(v) => self.chunk_length >= chunk_overhead(str_bytes(self.compression@).len())
                    && v == self.chunk_length - chunk_overhead(str_bytes(self.compression@).len()),
                Err(e) => e is InvalidRecord && self.chunk_length < chunk_overhead(
                    str_bytes(self.compression@).len(),
                ),
            },
    {
        let compression_len = self.compression.as_str().as_bytes().len() as u64;
        let fixed: u64 = 49;
        let overhead = fixed.saturating_add(compression_len);
        if self.chunk_length < overhead {
            return Err(invalid("chunk_length smaller than header overhead"));
        }
        Ok(self.chunk_length - overhead)
    }
}

/// Message count for a channel, as stored in a `Statistics` record.
#[derive(Debug, Clone, Copy, PartialEq, Eq, Structural)]
pub struct ChannelMessageCount {
    /// Channel ID.
    pub channel_id: u16,
    /// Number of messages on this channel.
    pub message_count: u64,
}

/// File-level statistics (record opcode 0x0B).
#[derive(Debug, Clone)]
pub struct Statistics {
    /// Total number of `Message` records in the file.
    pub message_count: u64,
    /// Number of schemas in the file.
    pub schema_count: u16,
    /// Number of channels in the file.
    pub channel_count: u32,
    /// Number of attachments in the file.
    pub attachment_count: u32,
    /// Number of metadata records in the file.
    pub metadata_count: u32,
    /// Number of chunks in the file.
    pub chunk_count: u32,
    /// Earliest message timestamp.
    pub message_start_time: Timestamp,
    /// Latest message timestamp.
    pub message_end_time: Timestamp,
    /// Message counts per channel.
    pub channel_message_counts: Vec<ChannelMessageCount>,
}

/// MetadataIndex record (opcode 0x0D).
#[derive(Debug, Clone)]
pub struct MetadataIndex {
    /// File offset of the metadata record.
    pub offset: u64,
    /// Length of the metadata record.
    pub length: u64,
    /// Name of the metadata record.
    pub name: String,
}

/// AttachmentIndex record (opcode 0x0A).
#[derive(Debug, Clone)]
pub struct AttachmentIndex {
    /// File offset of the attachment record.
    pub offset: u64,
    /// Length of the attachment record.
    pub length: u64,
    /// Log timestamp of the attachment.
    pub log_time: Timestamp,
    /// Creation timestamp of the attachment.
    pub create_time: Timestamp,
    /// Size of the attachment data.
    pub data_size: u64,
    /// Attachment name.
    pub name: String,
    /// Attachment media type.
    pub media_type: String,
}

/// Raw record bytes with opcode metadata.
#[derive(Debug, Clone)]
pub struct RawRecord {
    /// Record opcode.
    pub opcode: Opcode,
    /// Full record bytes including the 9-byte record header and the payload.
    pub data: Vec<u8>,
    /// Total record length in bytes, including header + payload.
    pub total_len: u64,
    /// Byte offset of the record header within the source.
    pub offset: u64,
}

impl RawRecord {
    /// Returns the full record bytes (header + payload).
    pub fn bytes(&self) -> (r: &Vec<u8>)
        ensures
            r@ == self.data@,
    {
        &self.data
    }

    /// Returns just the record payload bytes (excluding the 9-byte record header).
    pub fn payload(&self) -> (r: Vec<u8>)
        requires
            self.data@.len() >= RECORD_HEADER_SIZE,
        ensures
            r@ == self.data@.subrange(RECORD_HEADER_SIZE as int, self.data@.len() as int),
    {
        let n = self.data.len();
        vstd::slice::slice_to_vec(&self.data.as_slice()[RECORD_HEADER_SIZE..n])
    }
}

/// Metadata record with its file offset and length.
#[derive(Debug, Clone)]
pub struct MetadataEntry {
    /// The metadata record.
    pub metadata: Metadata,
    /// File offset of the record.
    pub offset: u64,
    /// Length of the record.
    pub length: u64,
}

/// Attachment record summary with its file offset and size metadata.
#[derive(Debug, Clone)]
pub struct AttachmentEntry {
    /// Attachment name.
    pub name: String,
    /// Attachment media type.
    pub media_type: String,
    /// Log timestamp.
    pub log_time: Timestamp,
    /// Creation timestamp.
    pub create_time: Timestamp,
    /// Size of the attachment data.
    pub data_size: u64,
    /// File offset of the record.
    pub offset: u64,
}

/// Origin of a record metadata entry.
#[derive(Debug, Clone, Copy, PartialEq, Eq, Structural)]
pub enum RecordSource {
    /// Record lives in the file data section; offset is file-relative.
    File,
    /// Record lives inside a chunk payload; offset is chunk-relative.
    Chunk { chunk_offset: u64 },
}

/// Record header metadata without parsing the payload.
#[derive(Debug, Clone, Copy, PartialEq, Eq, Structural)]
pub struct RecordMetadata {
    /// Record opcode.
    pub opcode: Opcode,
    /// Payload length.
    pub length: u64,
    /// Total length including the record header.
    pub total_len: u64,
    /// Offset of the record header.
    pub offset: u64,
    /// Source location for the record metadata.
    pub source: RecordSource,
    /// Message metadata when available (only for message records).
    pub message: Option<MessageMetadata>,
}

/// Represents any record type in an MCAP file.
#[derive(Debug, Clone)]
pub enum Record {
    Header(Header),
    Footer(Footer),
    Schema(Schema),
    Channel(Channel),
    Message(Message),
    Chunk(Chunk),
    MessageIndex(MessageIndex),
    ChunkIndex(ChunkIndex),
    Attachment(Attachment),
    AttachmentIndex(AttachmentIndex),
    Statistics(Statistics),
    Metadata(Metadata),
    MetadataIndex(MetadataIndex),
    SummaryOffset,
    DataEnd,
}

} // verus!
