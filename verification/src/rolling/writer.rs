//! The rolling writer: one MCAP file at a time, split into a new file when a
//! trigger fires. The caller owns the sinks: it drains the output, and at a
//! split it closes the old sink and opens the new one between
//! [`RollingWriter::begin_split`] and [`RollingWriter::complete_split`].

use vstd::prelude::*;
use crate::chunk::ChunkOptions;
use crate::error::{Error, Result, invalid};
use crate::rolling::time::{Duration, SystemTime};
use crate::rolling::trigger::SplitTrigger;
use crate::rolling::types::{TriggerState, SplitContext, ClosedFileContext};
use crate::sink::sat;
use crate::summary::{SchemaView, ChannelView, schema_view, channel_view};
use crate::types::{Schema, Channel, Metadata, Header};
use crate::summary::{schema_fits, channel_fits, schemas_bytes, channels_bytes};
use crate::writer::{spec_header_bytes, header_fits, attachment_written, metadata_fits, opened_keep};
use crate::writer::{Writer, WriterBuilder, ChannelWriter, ChannelSpec, message_write_outcome, unsupported_override, upsert_channel, lemma_upsert_channel_holds, lemma_channel_ids_unique};

verus! {

/// Log-time statistics of the current file.
#[derive(Debug, Clone, Copy, PartialEq, Eq, Structural)]
pub struct FileStats {
    /// Messages written to the current file.
    pub message_count: u64,
    /// Earliest log time in the current file.
    pub log_time_start: u64,
    /// Latest log time in the current file.
    pub log_time_end: u64,
    /// Whether any message was written to the current file.
    pub has_messages: bool,
}

/// Statistics of an empty file.
pub open spec fn empty_file_stats() -> FileStats {
    FileStats { message_count: 0, log_time_start: 0, log_time_end: 0, has_messages: false }
}

/// The statistics after one more message at `log_time`.
pub open spec fn stats_after(s: FileStats, log_time: u64) -> FileStats {
    FileStats {
        message_count: sat(s.message_count + 1),
        log_time_start: if !s.has_messages || log_time < s.log_time_start { log_time } else { s.log_time_start },
        log_time_end: if !s.has_messages || log_time > s.log_time_end { log_time } else { s.log_time_end },
        has_messages: true,
    }
}

/// The log-time range of a file, if it has messages.
pub open spec fn range_of(s: FileStats) -> Option<(u64, u64)> {
    if s.has_messages { Some((s.log_time_start, s.log_time_end)) } else { None }
}

/// What a split hands back: the last bytes of the closed file, what is known
/// of the closed file, and the context for creating the next one.
pub struct SplitTail {
    /// Bytes of the closed file not yet taken out.
    pub bytes: Vec<u8>,
    /// The closed file.
    pub closed: ClosedFileContext,
    /// The file about to be created.
    pub next: SplitContext,
}

/// A channel writer that stays valid across file splits.
pub struct RollingChannelWriter {
    inner: ChannelWriter,
}

impl RollingChannelWriter {
    /// The channel writer used in every file.
    pub closed spec fn channel(&self) -> ChannelWriter {
        self.inner
    }

    /// Returns the stable channel id used across all files.
    pub fn channel_id(&self) -> (r: u16)
        ensures
            r == self.channel().id(),
    {
        self.inner.channel_id()
    }

    /// Whether the channel's messages go to its own chunk stream.
    pub fn has_chunk_override(&self) -> (r: bool)
        ensures
            r == self.channel().overridden(),
    {
        self.inner.has_chunk_override()
    }

    /// Set the starting sequence number (default is 0).
    pub fn starting_sequence(self, sequence: u32) -> (r: RollingChannelWriter)
        ensures
            r.channel().id() == self.channel().id(),
            r.channel().overridden() == self.channel().overridden(),
            r.channel().next_seq() == sequence,
    {
        RollingChannelWriter { inner: self.inner.starting_sequence(sequence) }
    }
}

/// A writer that splits its output across several MCAP files.
pub struct RollingWriter<T: SplitTrigger> {
    writer: Writer,
    trigger: T,
    builder: WriterBuilder,
    registered_schemas: Vec<Schema>,
    registered_channels: Vec<Channel>,
    registered_overrides: Vec<(u16, ChunkOptions)>,
    file_index: usize,
    stats: FileStats,
    awaiting_sink: bool,
    finished: bool,
}

impl<T: SplitTrigger> RollingWriter<T> {
    /// The writer of the current file.
    pub closed spec fn current(&self) -> Writer {
        self.writer
    }

    /// The split trigger.
    pub closed spec fn split_trigger(&self) -> T {
        self.trigger
    }

    /// Index of the current file.
    pub closed spec fn index(&self) -> usize {
        self.file_index
    }

    /// Statistics of the current file.
    pub closed spec fn file_stats(&self) -> FileStats {
        self.stats
    }

    /// Whether a split has begun and the next file's sink is awaited.
    pub closed spec fn between_files(&self) -> bool {
        self.awaiting_sink
    }

    /// Whether the rolling writer has been finished.
    pub closed spec fn is_finished(&self) -> bool {
        self.finished
    }

    /// Schemas re-emitted into every new file.
    pub closed spec fn registered_schema_views(&self) -> Seq<SchemaView> {
        Seq::new(self.registered_schemas@.len(), |i: int| schema_view(self.registered_schemas@[i]))
    }

    /// Channels re-emitted into every new file.
    pub closed spec fn registered_channel_views(&self) -> Seq<ChannelView> {
        Seq::new(self.registered_channels@.len(), |i: int| channel_view(self.registered_channels@[i]))
    }

    /// The header every file is written with.
    pub closed spec fn file_header(&self) -> Header {
        self.builder.built_header()
    }

    /// Internal consistency.
    pub closed spec fn well_formed(&self) -> bool {
        &&& self.writer.well_formed()
        &&& self.builder.well_formed()
        &&& !(self.builder.chunking() matches Some(o) && o.compression is Some)
        &&& forall|i: int| 0 <= i < self.registered_overrides@.len()
            ==> (#[trigger] self.registered_overrides@[i]).1.compression is None
        &&& forall|i: int| 0 <= i < self.registered_schemas@.len()
            ==> schema_fits(#[trigger] self.registered_schemas@[i]) && self.registered_schemas@[i].id != 0
        &&& forall|i: int| 0 <= i < self.registered_channels@.len() ==> channel_fits(#[trigger] self.registered_channels@[i])
        &&& self.awaiting_sink ==> self.writer.is_finished() && self.file_index < usize::MAX
    }

    /// The split context of the first file.
    pub fn initial_context(now: SystemTime) -> (r: SplitContext)
        ensures
            r.file_index == 0,
            r.trigger_name is None,
            r.split_time == now,
            r.prev_log_time_range is None,
    {
        SplitContext { file_index: 0, trigger_name: None, split_time: now, prev_log_time_range: None }
    }

    /// Start a rolling writer whose first file's sink is at `start_position`.
    pub fn new(builder: WriterBuilder, trigger: T, start_position: u64) -> (r: Result<RollingWriter<T>>)
        requires
            builder.well_formed(),
        ensures
            builder.chunking() matches Some(o) && o.compression is Some
                ==> r == Err::<RollingWriter<T>, Error>(Error::UnsupportedCompression),
            !(builder.chunking() matches Some(o) && o.compression is Some) ==> r is Ok,
            r matches Ok(w) ==> {
                &&& w.well_formed()
                &&& w.split_trigger() == trigger
                &&& w.index() == 0
                &&& w.file_stats() == empty_file_stats()
                &&& !w.is_finished()
                &&& !w.between_files()
                &&& w.current().bytes() == Seq::<u8>::empty()
                &&& w.current().start_position() == start_position
                &&& w.registered_schema_views() == Seq::<SchemaView>::empty()
                &&& w.registered_channel_views() == Seq::<ChannelView>::empty()
            },
    {
        let writer = builder.copy().build(start_position)?;
        let r = RollingWriter {
            writer,
            trigger,
            builder,
            registered_schemas: Vec::new(),
            registered_channels: Vec::new(),
            registered_overrides: Vec::new(),
            file_index: 0,
            stats: FileStats { message_count: 0, log_time_start: 0, log_time_end: 0, has_messages: false },
            awaiting_sink: false,
            finished: false,
        };
        assert(r.registered_schema_views() =~= Seq::<SchemaView>::empty());
        assert(r.registered_channel_views() =~= Seq::<ChannelView>::empty());
        Ok(r)
    }

    /// Take the bytes of the current file produced since the last call.
    pub fn take_output(&mut self) -> (r: Vec<u8>)
        requires
            old(self).well_formed(),
        ensures
            final(self).well_formed(),
            final(self).current().bytes() == old(self).current().bytes(),
            old(self).current().bytes().len() >= r@.len(),
            r@ == old(self).current().bytes().subrange(
                old(self).current().bytes().len() - r@.len(), old(self).current().bytes().len() as int),
            r@ == old(self).current().pending_output(),
            final(self).current().pending_output() == Seq::<u8>::empty(),
            final(self).index() == old(self).index(),
            final(self).file_stats() == old(self).file_stats(),
            final(self).split_trigger() == old(self).split_trigger(),
    {
        self.writer.take_output()
    }

    /// Estimated size of the current file: bytes written plus bytes buffered
    /// in the default chunk stream (saturating).
    pub fn estimated_file_size(&self) -> (r: u64)
        requires
            self.well_formed(),
        ensures
            r == sat(self.current().spec_position() + match self.current().default_stream() {
                Some(st) => sat(st.records@.len() as int) as int,
                None => 0,
            }),
    {
        self.writer.position().saturating_add(self.writer.buffered_len())
    }

    /// The state the trigger is asked about before writing a message at `current_log_time`.
    pub fn trigger_state(&self, current_log_time: u64, wall_elapsed: Duration) -> (r: TriggerState)
        requires
            self.well_formed(),
        ensures
            r.estimated_file_size == sat(self.current().spec_position() + match self.current().default_stream() {
                Some(st) => sat(st.records@.len() as int) as int,
                None => 0,
            }),
            r.message_count == self.file_stats().message_count,
            r.wall_elapsed == wall_elapsed,
            r.log_time_span == (if self.file_stats().has_messages {
                sat(self.file_stats().log_time_end - self.file_stats().log_time_start)
            } else {
                0
            }),
            r.current_log_time == current_log_time,
    {
        let log_time_span = if self.stats.has_messages {
            self.stats.log_time_end.saturating_sub(self.stats.log_time_start)
        } else {
            0
        };
        TriggerState {
            estimated_file_size: self.estimated_file_size(),
            message_count: self.stats.message_count,
            wall_elapsed,
            log_time_span,
            current_log_time,
        }
    }

    /// Ask the trigger whether to split before writing a message at
    /// `current_log_time`; `wall_elapsed` is the time since the current file opened.
    pub fn check_split(&mut self, current_log_time: u64, wall_elapsed: Duration) -> (r: bool)
        requires
            old(self).well_formed(),
        ensures
            final(self).well_formed(),
            old(self).split_trigger().answers(old(self).trigger_state_spec(current_log_time, wall_elapsed), r),
            final(self).current() == old(self).current(),
            final(self).index() == old(self).index(),
            final(self).file_stats() == old(self).file_stats(),
            final(self).is_finished() == old(self).is_finished(),
            final(self).between_files() == old(self).between_files(),
            old(self).split_trigger().check_keeps() ==> final(self).split_trigger().check_keeps()
                && final(self).split_trigger().label() == old(self).split_trigger().label()
                && forall|s: TriggerState, f: bool| #[trigger] final(self).split_trigger().answers(s, f)
                    == old(self).split_trigger().answers(s, f),
    {
        let state = self.trigger_state(current_log_time, wall_elapsed);
        assert(state == old(self).trigger_state_spec(current_log_time, wall_elapsed));
        self.trigger.should_split(&state)
    }

    /// The trigger state for a message at `current_log_time`.
    pub open spec fn trigger_state_spec(&self, current_log_time: u64, wall_elapsed: Duration) -> TriggerState {
        TriggerState {
            estimated_file_size: sat(self.current().spec_position() + match self.current().default_stream() {
                Some(st) => sat(st.records@.len() as int) as int,
                None => 0,
            }),
            message_count: self.file_stats().message_count,
            wall_elapsed,
            log_time_span: if self.file_stats().has_messages {
                sat(self.file_stats().log_time_end - self.file_stats().log_time_start)
            } else {
                0
            },
            current_log_time,
        }
    }
}

impl<T: SplitTrigger> RollingWriter<T> {
    /// Returns the zero-based index of the current file.
    pub fn current_file_index(&self) -> (r: usize)
        ensures
            r == self.index(),
    {
        self.file_index
    }

    /// Returns the number of messages written to the current file.
    pub fn current_file_message_count(&self) -> (r: u64)
        ensures
            r == self.file_stats().message_count,
    {
        self.stats.message_count
    }

    /// Whether the current file has a dedicated chunk stream for channel `id`.
    pub fn has_override_stream(&self, id: u16) -> (r: bool)
        ensures
            r == ((id as int) < self.current().override_streams().len()
                && self.current().override_streams()[id as int] is Some),
    {
        self.writer.has_override_stream(id)
    }

    /// Register a channel (and its schema) in the current file and in every
    /// file to come; returns a writer for its messages, valid across splits.
    #[verifier::rlimit(60)]
    pub fn add_channel(&mut self, spec: ChannelSpec) -> (r: Result<RollingChannelWriter>)
        requires
            old(self).well_formed(),
            spec.metadata.well_formed(),
        ensures
            final(self).well_formed(),
            old(self).is_finished() ==> r is Err && *final(self) == *old(self),
            final(self).index() == old(self).index(),
            final(self).file_stats() == old(self).file_stats(),
            final(self).is_finished() == old(self).is_finished(),
            final(self).between_files() == old(self).between_files(),
            !old(self).is_finished() && unsupported_override(spec.chunk_override)
                ==> r == Err::<RollingChannelWriter, Error>(Error::UnsupportedCompression),
            r matches Ok(cw) ==> {
                &&& cw.channel().id() == old(self).current().next_channel()
                &&& cw.channel().next_seq() == 0
                &&& cw.channel().overridden() == spec.chunk_override is Some
                &&& final(self).registered_channel_views().len() == old(self).registered_channel_views().len() + 1
                &&& final(self).registered_channel_views().drop_last() == old(self).registered_channel_views()
                &&& final(self).registered_channel_views().last().0 == cw.channel().id()
                &&& final(self).registered_channel_views().last().2 == spec.topic@
                &&& final(self).registered_channel_views().last().3 == spec.message_encoding@
                &&& final(self).registered_channel_views().last().4 == spec.metadata@
            },
            final(self).split_trigger() == old(self).split_trigger(),
    {
        if self.finished {
            return Err(invalid("cannot add channel to a finished rolling writer"));
        }
        let override_opts = spec.chunk_override;
        let ghost topic = spec.topic@;
        let ghost encoding = spec.message_encoding@;
        let ghost metadata = spec.metadata@;
        let ghost w0 = self.writer;
        let cw = self.writer.add_channel(spec)?;
        let id = cw.channel_id();
        let channel = match self.writer.channel_by_id(id) {
            Some(c) => c,
            None => {
                return Err(invalid("added channel is missing"));
            },
        };
        proof {
            let cs = self.writer.channels();
            let cv = choose|cv: ChannelView| upsert_channel(w0.channels(), cv) == cs
                && cv.0 == id && cv.2 == topic && cv.3 == encoding && cv.4 == metadata;
            lemma_upsert_channel_holds(w0.channels(), cv);
            let m = choose|m: int| 0 <= m < cs.len() && cs[m] == cv;
            let k = choose|k: int| 0 <= k < cs.len() && cs[k] == channel_view(channel);
            lemma_channel_ids_unique(self.writer, k, m);
        }
        if channel.schema_id != 0 {
            match self.writer.schema_by_id(channel.schema_id) {
                Some(schema) => {
                    let mut known = false;
                    let mut i: usize = 0;
                    while i < self.registered_schemas.len()
                        invariant
                            i <= self.registered_schemas@.len(),
                        decreases self.registered_schemas@.len() - i,
                    {
                        if self.registered_schemas[i].id == schema.id {
                            known = true;
                        }
                        i += 1;
                    }
                    if !known {
                        proof {
                            let k = choose|k: int| 0 <= k < self.writer.schemas().len() && self.writer.schemas()[k] == schema_view(schema);
                            assert(schema_fits(schema)) by {
                                crate::writer::lemma_schema_views_fit(self.writer, k);
                            }
                        }
                        let ghost s0 = self.registered_schemas@;
                        self.registered_schemas.push(schema);
                        proof {
                            assert forall|i: int| 0 <= i < self.registered_schemas@.len() implies
                                schema_fits(#[trigger] self.registered_schemas@[i]) && self.registered_schemas@[i].id != 0 by {
                                if i < s0.len() {
                                    assert(self.registered_schemas@[i] == s0[i]);
                                }
                            }
                        }
                    }
                },
                None => {},
            }
        }
        proof {
            let k = choose|k: int| 0 <= k < self.writer.channels().len() && self.writer.channels()[k] == channel_view(channel);
            crate::writer::lemma_channel_views_fit(self.writer, k);
        }
        let ghost c0 = self.registered_channels@;
        self.registered_channels.push(channel);
        proof {
            assert forall|i: int| 0 <= i < self.registered_channels@.len() implies
                channel_fits(#[trigger] self.registered_channels@[i]) by {
                if i < c0.len() {
                    assert(self.registered_channels@[i] == c0[i]);
                }
            }
            assert(self.registered_channel_views().drop_last() =~= old(self).registered_channel_views());
        }
        match override_opts {
            Some(opts) => {
                let ghost o0 = self.registered_overrides@;
                self.registered_overrides.push((id, opts));
                proof {
                    assert forall|i: int| 0 <= i < self.registered_overrides@.len() implies
                        (#[trigger] self.registered_overrides@[i]).1.compression is None by {
                        if i < o0.len() {
                            assert(self.registered_overrides@[i] == o0[i]);
                        }
                    }
                }
            },
            None => {},
        }
        Ok(RollingChannelWriter { inner: cw })
    }
}

/// The bytes a new file starts with: the header, then the Schema and
/// Channel records of everything registered — nothing when nothing is registered.
pub open spec fn spec_new_file_bytes(h: Header, schemas: Seq<SchemaView>, channels: Seq<ChannelView>) -> Seq<u8> {
    if schemas.len() == 0 && channels.len() == 0 {
        Seq::empty()
    } else {
        spec_header_bytes(h) + schemas_bytes(schemas) + channels_bytes(channels)
    }
}

/// A writer whose chunk streams hold nothing: no override stream, and the
/// default stream (if any) has no message.
pub open spec fn streams_idle(w: Writer) -> bool {
    &&& w.override_streams().len() == 0
    &&& w.default_stream() matches Some(st) ==> !st.has_messages
}

/// A flush pass over idle chunk streams changes nothing.
proof fn lemma_idle_keeps(a: Writer, b: Writer, base: int)
    requires
        streams_idle(a),
        crate::writer::streams_flushed(a, b, false, base),
    ensures
        b.override_streams() == a.override_streams(),
        b.default_stream() == a.default_stream(),
        b.chunk_indexes() == a.chunk_indexes(),
        a.spec_prelude() == a.spec_header_part(),
{
    assert(b.override_streams() =~= a.override_streams());
    assert(crate::streams::spec_ov_flushed(a.override_streams(), 0, false) =~= Seq::<crate::chunk::ChunkState>::empty());
    assert(crate::streams::spec_ov_flushed(a.override_streams(), 0, false) + crate::writer::default_flushed(a.default_stream(), false)
        =~= Seq::<crate::chunk::ChunkState>::empty());
    let added = b.chunk_indexes().subrange(a.chunk_indexes().len() as int, b.chunk_indexes().len() as int);
    assert(added.len() == 0);
    assert(b.chunk_indexes() =~= a.chunk_indexes());
    assert(crate::streams::concat_records(Seq::<crate::chunk::ChunkState>::empty()) =~= Seq::<u8>::empty());
    assert(a.spec_prelude() =~= a.spec_header_part());
}

/// What a write asks of the caller.
#[derive(Debug, Clone, Copy, PartialEq, Eq, Structural)]
pub enum WriteStep {
    /// The trigger fired: nothing was written; split to a new file, then
    /// write the message with [`RollingWriter::write_message`].
    SplitFirst,
    /// The message was written to the current file.
    Written,
}

impl<T: SplitTrigger> RollingWriter<T> {
    /// Write a message, checking the trigger first: when it fires, nothing is
    /// written and the caller is asked to split before writing. A finished
    /// writer refuses without asking the trigger.
    pub fn write_or_split(&mut self, cw: &mut RollingChannelWriter, log_time: u64, publish_time: u64, data: &[u8],
        wall_elapsed: Duration) -> (r: Result<WriteStep>)
        requires
            old(self).well_formed(),
            old(cw).channel().overridden() ==> (old(cw).channel().id() as int) < old(self).current().override_streams().len()
                && old(self).current().override_streams()[old(cw).channel().id() as int] is Some,
        ensures
            final(self).well_formed(),
            final(self).index() == old(self).index(),
            final(self).is_finished() == old(self).is_finished(),
            final(self).between_files() == old(self).between_files(),
            old(self).is_finished() ==> r is Err && final(self).current() == old(self).current()
                && final(self).split_trigger() == old(self).split_trigger(),
            r matches Ok(WriteStep::SplitFirst) ==> {
                &&& old(self).split_trigger().answers(old(self).trigger_state_spec(log_time, wall_elapsed), true)
                &&& final(self).current() == old(self).current()
                &&& final(self).file_stats() == old(self).file_stats()
                &&& *final(cw) == *old(cw)
            },
            !old(self).is_finished() && !(r matches Ok(WriteStep::SplitFirst)) ==> {
                &&& old(self).split_trigger().answers(old(self).trigger_state_spec(log_time, wall_elapsed), false)
                &&& message_write_outcome(old(self).current(), final(self).current(), old(cw).channel(),
                    old(cw).channel().next_seq(), log_time, publish_time, data@,
                    match r { Ok(_) => Ok(()), Err(e) => Err(e) })
                &&& final(self).file_stats() == (if r is Ok { stats_after(old(self).file_stats(), log_time) } else {
                    old(self).file_stats() })
            },
            !old(self).is_finished() && old(self).split_trigger().check_keeps() ==> {
                &&& final(self).split_trigger().label() == old(self).split_trigger().label()
                &&& forall|s: TriggerState, f: bool| #[trigger] final(self).split_trigger().answers(s, f)
                    == old(self).split_trigger().answers(s, f)
            },
    {
        if self.finished {
            return match self.write_message(cw, log_time, publish_time, data) {
                Ok(()) => Ok(WriteStep::Written),
                Err(e) => Err(e),
            };
        }
        if self.check_split(log_time, wall_elapsed) {
            return Ok(WriteStep::SplitFirst);
        }
        let ghost mid = *self;
        match self.write_message(cw, log_time, publish_time, data) {
            Ok(()) => Ok(WriteStep::Written),
            Err(e) => Err(e),
        }
    }

    /// Write a message through `cw` into the current file. The sequence
    /// number advances (wrapping) whether or not the write succeeds.
    pub fn write_message(&mut self, cw: &mut RollingChannelWriter, log_time: u64, publish_time: u64, data: &[u8])
        -> (r: Result<()>)
        requires
            old(self).well_formed(),
            old(cw).channel().overridden() ==> (old(cw).channel().id() as int) < old(self).current().override_streams().len()
                && old(self).current().override_streams()[old(cw).channel().id() as int] is Some,
        ensures
            final(self).well_formed(),
            final(cw).channel().id() == old(cw).channel().id(),
            final(cw).channel().overridden() == old(cw).channel().overridden(),
            final(cw).channel().next_seq() == (if old(cw).channel().next_seq() == u32::MAX { 0 } else {
                (old(cw).channel().next_seq() + 1) as u32 }),
            !old(self).is_finished() ==> message_write_outcome(old(self).current(), final(self).current(),
                old(cw).channel(), old(cw).channel().next_seq(), log_time, publish_time, data@, r),
            old(self).is_finished() ==> final(self).current() == old(self).current(),
            final(self).file_stats() == (if r is Ok { stats_after(old(self).file_stats(), log_time) } else {
                old(self).file_stats() }),
            old(self).is_finished() ==> r is Err,
            final(self).index() == old(self).index(),
            final(self).is_finished() == old(self).is_finished(),
            final(self).between_files() == old(self).between_files(),
            final(self).split_trigger() == old(self).split_trigger(),
    {
        if self.finished {
            cw.inner.skip_sequence();
            return Err(invalid("cannot write to a finished rolling writer"));
        }
        let r = cw.inner.write(&mut self.writer, log_time, publish_time, data);
        if r.is_ok() {
            self.stats.message_count = self.stats.message_count.saturating_add(1);
            if !self.stats.has_messages {
                self.stats.log_time_start = log_time;
                self.stats.log_time_end = log_time;
                self.stats.has_messages = true;
            } else {
                if log_time < self.stats.log_time_start {
                    self.stats.log_time_start = log_time;
                }
                if log_time > self.stats.log_time_end {
                    self.stats.log_time_end = log_time;
                }
            }
        }
        r
    }

    /// Write metadata to the current file only (it is not re-emitted on split).
    pub fn write_metadata(&mut self, metadata: &Metadata) -> (r: Result<()>)
        requires
            old(self).well_formed(),
        ensures
            final(self).well_formed(),
            r is Ok <==> old(self).current().spec_prelude_ok() && metadata_fits(*metadata),
            !old(self).current().spec_prelude_ok() ==> final(self).current() == old(self).current(),
            final(self).index() == old(self).index(),
            final(self).file_stats() == old(self).file_stats(),
            final(self).is_finished() == old(self).is_finished(),
            final(self).between_files() == old(self).between_files(),
            final(self).split_trigger() == old(self).split_trigger(),
    {
        self.writer.copy_metadata(metadata)
    }

    /// Write an attachment to the current file only (it is not re-emitted on split).
    pub fn write_attachment(&mut self, log_time: u64, create_time: u64, name: &String, media_type: &String,
        data: &[u8]) -> (r: Result<()>)
        requires
            old(self).well_formed(),
        ensures
            final(self).well_formed(),
            r is Ok <==> old(self).current().spec_prelude_ok() && crate::writer::attachment_fits(name@, media_type@, data@),
            old(self).current().spec_prelude_ok() ==> attachment_written(old(self).current(), final(self).current(),
                log_time, create_time, name@, media_type@, data@),
            final(self).index() == old(self).index(),
            final(self).file_stats() == old(self).file_stats(),
            final(self).is_finished() == old(self).is_finished(),
            final(self).between_files() == old(self).between_files(),
            final(self).split_trigger() == old(self).split_trigger(),
    {
        self.writer.write_attachment(log_time, create_time, name, media_type, data)
    }

    /// Finalize the current file and report it, and describe the next file;
    /// the caller then writes the returned bytes to the old sink, opens the
    /// new sink and calls [`RollingWriter::complete_split`].
    pub fn begin_split(&mut self, now: SystemTime) -> (r: Result<SplitTail>)
        requires
            old(self).well_formed(),
            old(self).index() < usize::MAX,
        ensures
            final(self).well_formed(),
            r is Ok <==> !old(self).between_files() && (old(self).current().is_finished()
                || old(self).current().header_written() || header_fits(old(self).current().file_header())),
            r is Err ==> final(self).current() == old(self).current() && final(self).between_files() == old(self).between_files(),
            final(self).index() == old(self).index(),
            final(self).file_stats() == old(self).file_stats(),
            final(self).is_finished() == old(self).is_finished(),
            r matches Ok(tail) ==> {
                &&& final(self).between_files()
                &&& final(self).current().is_finished()
                &&& final(self).current().bytes().len() >= tail.bytes@.len()
                &&& tail.bytes@ == final(self).current().bytes().subrange(
                    final(self).current().bytes().len() - tail.bytes@.len(), final(self).current().bytes().len() as int)
                &&& tail.bytes@ == old(self).current().pending_output() + final(self).current().bytes().subrange(
                    old(self).current().bytes().len() as int, final(self).current().bytes().len() as int)
                &&& final(self).current().pending_output() == Seq::<u8>::empty()
                &&& tail.closed.file_index == old(self).index()
                &&& tail.closed.file_size == final(self).current().spec_position()
                &&& tail.closed.message_count == old(self).file_stats().message_count
                &&& tail.closed.log_time_range == range_of(old(self).file_stats())
                &&& tail.next.file_index == old(self).index() + 1
                &&& tail.next.trigger_name matches Some(n) && n@ == old(self).split_trigger().label()
                &&& tail.next.split_time == now
                &&& tail.next.prev_log_time_range == range_of(old(self).file_stats())
            },
            final(self).split_trigger() == old(self).split_trigger(),
    {
        if self.awaiting_sink {
            return Err(invalid("a split is already in progress"));
        }
        self.writer.finish()?;
        let bytes = self.writer.take_output();
        let file_size = self.writer.position();
        let range = if self.stats.has_messages {
            Some((self.stats.log_time_start, self.stats.log_time_end))
        } else {
            None
        };
        let closed = ClosedFileContext {
            file_index: self.file_index,
            file_size,
            message_count: self.stats.message_count,
            log_time_range: range,
        };
        let next = SplitContext {
            file_index: self.file_index + 1,
            trigger_name: Some(self.trigger.name().to_owned()),
            split_time: now,
            prev_log_time_range: range,
        };
        self.awaiting_sink = true;
        Ok(SplitTail { bytes, closed, next })
    }

    /// Start the next file on a sink at `start_position`: a fresh writer that
    /// re-emits every registered schema and channel and re-registers the
    /// dedicated chunk streams; the file's statistics and the trigger are reset.
    pub fn complete_split(&mut self, start_position: u64) -> (r: Result<()>)
        requires
            old(self).well_formed(),
            old(self).between_files(),
        ensures
            final(self).well_formed(),
            r is Ok <==> (old(self).registered_schema_views().len() == 0 && old(self).registered_channel_views().len() == 0)
                || header_fits(old(self).file_header()),
            r matches Ok(()) ==> {
                &&& final(self).index() == old(self).index() + 1
                &&& final(self).file_stats() == empty_file_stats()
                &&& !final(self).between_files()
                &&& !final(self).current().is_finished()
                &&& final(self).current().start_position() == start_position
                &&& final(self).current().bytes() == spec_new_file_bytes(old(self).file_header(),
                    old(self).registered_schema_views(), old(self).registered_channel_views())
                &&& final(self).registered_schema_views() == old(self).registered_schema_views()
                &&& final(self).registered_channel_views() == old(self).registered_channel_views()
                &&& final(self).is_finished() == old(self).is_finished()
            },
            r is Err ==> final(self).split_trigger() == old(self).split_trigger(),
            r is Ok ==> final(self).split_trigger().label() == old(self).split_trigger().label_after_reset()
                && forall|s: TriggerState, f: bool| #[trigger] final(self).split_trigger().answers(s, f)
                    == old(self).split_trigger().answers_after_reset(s, f),
    {
        let mut w = match self.builder.copy().build(start_position) {
            Ok(w) => w,
            Err(e) => return Err(e),
        };
        let ghost h = self.builder.built_header();
        let ghost sv = self.registered_schema_views();
        let ghost cv = self.registered_channel_views();
        let n = self.registered_schemas.len();
        let mut i: usize = 0;
        while i < n
            invariant
                n == self.registered_schemas@.len(),
                sv == self.registered_schema_views(),
                i <= n,
                *self == *old(self),
                self.well_formed(),
                h == self.builder.built_header(),
                w.well_formed(),
                !w.is_finished(),
                w.start_position() == start_position,
                w.file_header().profile@ == h.profile@,
                w.file_header().library@ == h.library@,
                w.file_header().metadata@ == h.metadata@,
                streams_idle(w),
                forall|k: int| 0 <= k < self.registered_schemas@.len()
                    ==> schema_fits(#[trigger] self.registered_schemas@[k]) && self.registered_schemas@[k].id != 0,
                i == 0 ==> w.bytes() == Seq::<u8>::empty() && !w.header_written(),
                i > 0 ==> header_fits(h),
                i > 0 ==> w.header_written() && w.bytes() == spec_header_bytes(h) + schemas_bytes(sv.take(i as int)),
            decreases n - i,
        {
            let ghost w0 = w;
            let res = w.copy_schema(&self.registered_schemas[i]);
            if res.is_err() {
                assert(schema_fits(self.registered_schemas@[i as int]));
                assert(!header_fits(h));
                return Err(invalid("header length exceeds u32"));
            }
            assert(w0.spec_prelude_ok());
            proof {
                lemma_idle_keeps(w0, w, w0.start_position() + (w0.bytes() + w0.spec_header_part()).len());
                assert(sv[i as int] == schema_view(self.registered_schemas@[i as int]));
                assert(sv.take(i + 1).drop_last() =~= sv.take(i as int));
                if i == 0 {
                    assert(schemas_bytes(sv.take(0)) =~= Seq::<u8>::empty());
                }
                assert(w.bytes() =~= spec_header_bytes(h) + schemas_bytes(sv.take(i + 1)));
            }
            i += 1;
        }
        proof {
            assert(sv.take(n as int) =~= sv);
        }
        let m = self.registered_channels.len();
        let mut j: usize = 0;
        while j < m
            invariant
                m == self.registered_channels@.len(),
                cv == self.registered_channel_views(),
                sv == self.registered_schema_views(),
                n == sv.len(),
                j <= m,
                *self == *old(self),
                self.well_formed(),
                h == self.builder.built_header(),
                w.well_formed(),
                !w.is_finished(),
                w.start_position() == start_position,
                w.file_header().profile@ == h.profile@,
                w.file_header().library@ == h.library@,
                w.file_header().metadata@ == h.metadata@,
                streams_idle(w),
                forall|k: int| 0 <= k < self.registered_channels@.len() ==> channel_fits(#[trigger] self.registered_channels@[k]),
                n == 0 && j == 0 ==> w.bytes() == Seq::<u8>::empty() && !w.header_written(),
                n > 0 || j > 0 ==> header_fits(h),
                n > 0 || j > 0 ==> w.header_written()
                    && w.bytes() == spec_header_bytes(h) + schemas_bytes(sv) + channels_bytes(cv.take(j as int)),
            decreases m - j,
        {
            let ghost w0 = w;
            let res = w.copy_channel(&self.registered_channels[j]);
            if res.is_err() {
                assert(channel_fits(self.registered_channels@[j as int]));
                assert(!header_fits(h));
                return Err(invalid("header length exceeds u32"));
            }
            assert(w0.spec_prelude_ok());
            assert(opened_keep(w0, w));
            proof {
                lemma_idle_keeps(w0, w, w0.start_position() + (w0.bytes() + w0.spec_header_part()).len());
                assert(cv[j as int] == channel_view(self.registered_channels@[j as int]));
                assert(cv.take(j + 1).drop_last() =~= cv.take(j as int));
                if j == 0 {
                    assert(channels_bytes(cv.take(0)) =~= Seq::<u8>::empty());
                    assert(schemas_bytes(Seq::<SchemaView>::empty()) =~= Seq::<u8>::empty());
                    assert(n == 0 ==> sv =~= Seq::<SchemaView>::empty());
                }
                assert(w.bytes() =~= spec_header_bytes(h) + schemas_bytes(sv) + channels_bytes(cv.take(j + 1)));
            }
            j += 1;
        }
        proof {
            assert(cv.take(m as int) =~= cv);
            if n == 0 && m == 0 {
                assert(w.bytes() =~= spec_new_file_bytes(h, sv, cv));
            } else {
                if m == 0 {
                    assert(channels_bytes(cv) =~= Seq::<u8>::empty());
                }
                assert(w.bytes() =~= spec_new_file_bytes(h, sv, cv));
            }
        }
        let k = self.registered_overrides.len();
        let mut t: usize = 0;
        while t < k
            invariant
                k == self.registered_overrides@.len(),
                t <= k,
                *self == *old(self),
                self.well_formed(),
                (sv.len() == 0 && cv.len() == 0) || header_fits(h),
                h == self.builder.built_header(),
                w.well_formed(),
                !w.is_finished(),
                w.start_position() == start_position,
                w.bytes() == spec_new_file_bytes(h, sv, cv),
                forall|q: int| 0 <= q < self.registered_overrides@.len()
                    ==> (#[trigger] self.registered_overrides@[q]).1.compression is None,
            decreases k - t,
        {
            let (id, opts) = self.registered_overrides[t];
            let _ = w.register_channel_override(id, opts);
            t += 1;
        }
        self.writer = w;
        self.file_index = self.file_index + 1;
        self.stats = FileStats { message_count: 0, log_time_start: 0, log_time_end: 0, has_messages: false };
        self.trigger.reset();
        self.awaiting_sink = false;
        Ok(())
    }

    /// Finalize the current file and close the rolling writer; no more data
    /// can be written afterwards. Calling it again does nothing.
    pub fn finish(&mut self) -> (r: Result<()>)
        requires
            old(self).well_formed(),
        ensures
            final(self).well_formed(),
            old(self).is_finished() ==> r is Ok && *final(self) == *old(self),
            !old(self).is_finished() ==> (r is Ok <==> (old(self).current().is_finished()
                || old(self).current().header_written() || header_fits(old(self).current().file_header()))),
            r is Ok ==> final(self).is_finished(),
            !old(self).is_finished() && r is Ok ==> final(self).current().is_finished(),
            final(self).index() == old(self).index(),
            final(self).file_stats() == old(self).file_stats(),
            final(self).split_trigger() == old(self).split_trigger(),
    {
        if self.finished {
            return Ok(());
        }
        self.writer.finish()?;
        self.finished = true;
        Ok(())
    }
}

} // verus!
