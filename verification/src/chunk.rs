//! Buffering of Message records into Chunk records.

use vstd::prelude::*;
use crate::crc::{crc32, spec_crc32};
use crate::decode::{spec_message_record, spec_chunk_fields};
use crate::encode::{push_le_u16, push_le_u32, push_le_u64, push_record_header, spec_record_header};
use crate::format::{Opcode, MESSAGE_HEADER_SIZE};

verus! {

/// Default size at which a chunk is flushed.
pub const DEFAULT_CHUNK_MAX_UNCOMPRESSED_BYTES: usize = 4194304;

/// Chunk compression algorithms.
#[derive(Debug, Clone, Copy, PartialEq, Eq, Structural)]
pub enum Compression {
    /// Zstandard.
    Zstd,
    /// LZ4 frame format.
    Lz4,
}

impl Compression {
    /// The name written in the Chunk record's compression field.
    pub fn as_str(&self) -> (r: &'static str)
        ensures
            r@ == (match self {
                Compression::Zstd => "zstd"@,
                Compression::Lz4 => "lz4"@,
            }),
    {
        match self {
            Compression::Zstd => "zstd",
            Compression::Lz4 => "lz4",
        }
    }
}

/// Configuration for chunked message writing.
#[derive(Debug, Clone, Copy, PartialEq, Eq, Structural)]
pub struct ChunkOptions {
    /// Compression algorithm to apply to chunk record bodies.
    pub compression: Option<Compression>,
    /// Flush chunk when uncompressed buffer reaches this size.
    pub max_uncompressed_bytes: usize,
    /// Include CRC32 checksums in chunk records (default: `true`).
    ///
    /// When `false`, the chunk `uncompressed_crc` field is written as `0`.
    pub include_crc: bool,
}

impl ChunkOptions {
    /// Uncompressed chunks of 4 MiB with CRCs.
    pub fn default() -> (r: ChunkOptions)
        ensures
            r.compression is None,
            r.max_uncompressed_bytes == DEFAULT_CHUNK_MAX_UNCOMPRESSED_BYTES,
            r.include_crc,
    {
        ChunkOptions {
            compression: None,
            max_uncompressed_bytes: DEFAULT_CHUNK_MAX_UNCOMPRESSED_BYTES,
            include_crc: true,
        }
    }
}

/// Message records waiting to be written as one Chunk record.
#[derive(Debug)]
pub struct ChunkState {
    /// Options of this chunk stream.
    pub options: ChunkOptions,
    /// The Message records of the chunk, back to back.
    pub records: Vec<u8>,
    /// Earliest log time in the chunk.
    pub message_start_time: u64,
    /// Latest log time in the chunk.
    pub message_end_time: u64,
    /// Whether any message has been buffered since the last flush.
    pub has_messages: bool,
}

/// Everything needed to write one Chunk record.
pub struct ChunkFlushData {
    /// Options of the chunk stream.
    pub options: ChunkOptions,
    /// Earliest log time in the chunk.
    pub message_start_time: u64,
    /// Latest log time in the chunk.
    pub message_end_time: u64,
    /// The Message records of the chunk.
    pub records: Vec<u8>,
    /// Length of the records.
    pub uncompressed_size: u64,
    /// CRC32 of the records, or 0 when CRCs are disabled.
    pub uncompressed_crc: u32,
}

/// Whether a chunk state would be flushed (forced, or at its size threshold).
pub open spec fn spec_should_flush(st: ChunkState, force: bool) -> bool {
    st.has_messages && (force || st.records@.len() >= st.options.max_uncompressed_bytes)
}

/// The checksum written for a chunk's records.
pub open spec fn spec_chunk_crc(st: ChunkState) -> u32 {
    if st.options.include_crc {
        spec_crc32(st.records@)
    } else {
        0
    }
}

/// The Chunk record written for an uncompressed chunk state.
pub open spec fn spec_chunk_record(st: ChunkState) -> Seq<u8> {
    spec_record_header(Opcode::Chunk.byte(), (40 + st.records@.len()) as u64)
        + spec_chunk_fields(
        st.message_start_time,
        st.message_end_time,
        st.records@.len() as u64,
        spec_chunk_crc(st),
        Seq::empty(),
        st.records@.len() as u64,
    ) + st.records@
}

/// The state after its buffered records have been taken for a flush.
pub open spec fn spec_flushed(old_st: ChunkState, new_st: ChunkState) -> bool {
    &&& new_st.options == old_st.options
    &&& new_st.records@ == Seq::<u8>::empty()
    &&& !new_st.has_messages
    &&& new_st.message_start_time == old_st.message_start_time
    &&& new_st.message_end_time == old_st.message_end_time
}

/// The earliest and latest log time after adding a message at `t`.
pub open spec fn spec_time_range_after(had: bool, start: u64, end: u64, t: u64) -> (u64, u64) {
    if !had {
        (t, t)
    } else {
        (if t < start { t } else { start }, if t > end { t } else { end })
    }
}

/// Append the header and fixed fields of a Message record.
pub fn push_message_prefix(
    out: &mut Vec<u8>,
    channel_id: u16,
    sequence: u32,
    log_time: u64,
    publish_time: u64,
    data_len: usize,
)
    ensures
        final(out)@ == old(out)@ + crate::decode::spec_message_prefix(
            channel_id,
            sequence,
            log_time,
            publish_time,
            data_len as nat,
        ),
{
    let ghost start = out@;
    let payload_len = (MESSAGE_HEADER_SIZE as u64).wrapping_add(data_len as u64);
    assert(payload_len == (MESSAGE_HEADER_SIZE + data_len) as u64) by (bit_vector)
        requires payload_len == (22u64).wrapping_add(data_len as u64);
    push_record_header(out, Opcode::Message, payload_len);
    push_le_u16(out, channel_id);
    push_le_u32(out, sequence);
    push_le_u64(out, log_time);
    push_le_u64(out, publish_time);
    assert(out@ =~= start + crate::decode::spec_message_prefix(
        channel_id,
        sequence,
        log_time,
        publish_time,
        data_len as nat,
    ));
}

impl ChunkState {
    /// An empty chunk stream with the given options.
    pub fn new(options: ChunkOptions) -> (r: ChunkState)
        ensures
            r.options == options,
            r.records@ == Seq::<u8>::empty(),
            !r.has_messages,
            r.message_start_time == 0,
            r.message_end_time == 0,
    {
        ChunkState {
            options,
            records: Vec::new(),
            message_start_time: 0,
            message_end_time: 0,
            has_messages: false,
        }
    }

    /// Whether the chunk should be written now.
    pub fn should_flush(&self, force: bool) -> (r: bool)
        ensures
            r == spec_should_flush(*self, force),
    {
        self.has_messages && (force || self.records.len() >= self.options.max_uncompressed_bytes)
    }

    /// Append a Message record to the chunk and widen its time range.
    pub fn push_message(
        &mut self,
        channel_id: u16,
        sequence: u32,
        log_time: u64,
        publish_time: u64,
        payload: &[u8],
    )
        ensures
            final(self).options == old(self).options,
            final(self).records@ == old(self).records@ + spec_message_record(
                channel_id,
                sequence,
                log_time,
                publish_time,
                payload@,
            ),
            final(self).has_messages,
            (final(self).message_start_time, final(self).message_end_time) == spec_time_range_after(
                old(self).has_messages,
                old(self).message_start_time,
                old(self).message_end_time,
                log_time,
            ),
    {
        push_message_prefix(&mut self.records, channel_id, sequence, log_time, publish_time, payload.len());
        self.records.extend_from_slice(payload);
        if !self.has_messages {
            self.message_start_time = log_time;
            self.message_end_time = log_time;
            self.has_messages = true;
        } else {
            if log_time < self.message_start_time {
                self.message_start_time = log_time;
            }
            if log_time > self.message_end_time {
                self.message_end_time = log_time;
            }
        }
    }

    /// Take the buffered records for writing, leaving the chunk empty.
    pub fn take_for_flush(&mut self) -> (r: ChunkFlushData)
        ensures
            spec_flushed(*old(self), *final(self)),
            r.options == old(self).options,
            r.message_start_time == old(self).message_start_time,
            r.message_end_time == old(self).message_end_time,
            r.records@ == old(self).records@,
            r.uncompressed_size == old(self).records@.len(),
            r.uncompressed_crc == spec_chunk_crc(*old(self)),
    {
        let mut records: Vec<u8> = Vec::new();
        std::mem::swap(&mut records, &mut self.records);
        let uncompressed_crc = if self.options.include_crc {
            crc32(records.as_slice())
        } else {
            0
        };
        self.has_messages = false;
        ChunkFlushData {
            options: self.options,
            message_start_time: self.message_start_time,
            message_end_time: self.message_end_time,
            uncompressed_size: records.len() as u64,
            records,
            uncompressed_crc,
        }
    }
}

/// Header and fixed fields of a Chunk record, and its index entry.
pub struct PreparedChunk {
    /// Record header of the Chunk record.
    pub record_header: Vec<u8>,
    /// Fixed fields of the Chunk record, up to its records.
    pub record_prefix: Vec<u8>,
    /// File offset of the record.
    pub chunk_start_offset: u64,
    /// Total length of the record.
    pub chunk_length: u64,
}

/// Lay out an uncompressed Chunk record for `flush`, to be written at `sink_position`.
pub fn prepare_chunk_for_write(sink_position: u64, flush: &ChunkFlushData) -> (r: PreparedChunk)
    requires
        flush.uncompressed_size == flush.records@.len(),
        flush.records@.len() + 49 <= u64::MAX,
    ensures
        r.record_header@ == spec_record_header(Opcode::Chunk.byte(), (40 + flush.records@.len()) as u64),
        r.record_prefix@ == spec_chunk_fields(
            flush.message_start_time,
            flush.message_end_time,
            flush.uncompressed_size,
            flush.uncompressed_crc,
            Seq::empty(),
            flush.uncompressed_size,
        ),
        r.chunk_start_offset == sink_position,
        r.chunk_length == 49 + flush.records@.len(),
{
    let payload_len: u64 = 40 + flush.uncompressed_size;
    let mut record_header: Vec<u8> = Vec::new();
    push_record_header(&mut record_header, Opcode::Chunk, payload_len);
    let mut record_prefix: Vec<u8> = Vec::new();
    push_le_u64(&mut record_prefix, flush.message_start_time);
    push_le_u64(&mut record_prefix, flush.message_end_time);
    push_le_u64(&mut record_prefix, flush.uncompressed_size);
    push_le_u32(&mut record_prefix, flush.uncompressed_crc);
    push_le_u32(&mut record_prefix, 0);
    push_le_u64(&mut record_prefix, flush.uncompressed_size);
    proof {
        vstd::utf8::encode_utf8_valid_utf8(Seq::<char>::empty());
        assert(crate::format::str_bytes(Seq::<char>::empty()) =~= Seq::<u8>::empty());
    }
    assert(record_prefix@ =~= spec_chunk_fields(
        flush.message_start_time,
        flush.message_end_time,
        flush.uncompressed_size,
        flush.uncompressed_crc,
        Seq::empty(),
        flush.uncompressed_size,
    ));
    PreparedChunk {
        record_header,
        record_prefix,
        chunk_start_offset: sink_position,
        chunk_length: 9 + payload_len,
    }
}

} // verus!
