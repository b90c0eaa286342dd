//! The decisions of a message stream over the records of a file: which
//! record blocks yield messages, which are cached, which end the stream, and
//! how the messages of an uncompressed chunk are walked. The caller reads
//! each record block and hands it over; a step either emits a message, asks
//! for the next block, asks for a channel decision, or ends.

use vstd::prelude::*;
use vstd::string::StrSliceExecFns;
use crate::decode::{get_record_location, spec_record_at, parse_channel_record, parse_chunk_record, parse_message_record, parse_schema_record,
    spec_parse_channel, spec_parse_chunk, spec_parse_message_header, spec_parse_schema};
use crate::error::{Error, Result};
use crate::format::{Opcode, MESSAGE_HEADER_SIZE};
use crate::stream::{cached_decision, chunk_might_have_messages_in_range_via_index, chunk_overlaps_time_range, next_chunk_message,
    passes_common_filters_cached, probe_might_match, record_channel_decision, resize_cache, spec_chunk_overlaps,
    spec_in_time_range, spec_next_chunk_message, FilterStep, IndexProbe};
use crate::summary::{channel_view, schema_view, ChannelView, SchemaView};
use crate::types::{Channel, MessageHeader, MessageMetadata, RawMessage, Schema};

verus! {

/// One record of the data section as read from the file: its opcode byte,
/// its payload, its file offset, and, for a chunk, what its message indexes
/// tell (`None` when the chunk index is unknown).
pub struct RecordBlock {
    pub opcode: u8,
    pub data: Vec<u8>,
    pub offset: u64,
    pub index_probes: Option<Vec<IndexProbe>>,
}

/// What one step of a message stream gives.
pub enum StreamStep {
    /// The next message.
    Emit(RawMessage),
    /// The next record block is needed.
    NeedBlock,
    /// The channel predicate must be asked about this channel; its answer is
    /// recorded with `MessageStreamState::record_channel_answer` before the
    /// next step.
    NeedChannelDecision(u16),
    /// The stream has ended.
    Done,
    /// A record could not be decoded.
    Failed(Error),
}

/// A step as plain values: an emitted message by its header fields and
/// payload bytes.
pub enum StepView {
    Emit(u16, u32, u64, u64, Seq<u8>),
    NeedBlock,
    NeedChannel(u16),
    Done,
    Failed,
}

/// The plain value of a step.
pub open spec fn step_view(s: StreamStep) -> StepView {
    match s {
        StreamStep::Emit(m) => StepView::Emit(m.channel_id, m.sequence, m.log_time, m.publish_time, m.payload@),
        StreamStep::NeedBlock => StepView::NeedBlock,
        StreamStep::NeedChannelDecision(id) => StepView::NeedChannel(id),
        StreamStep::Done => StepView::Done,
        StreamStep::Failed(_) => StepView::Failed,
    }
}

/// The state of a message stream as plain values.
pub struct StreamView {
    pub done: bool,
    pub time_range: Option<(u64, u64)>,
    pub filtering: bool,
    pub decisions: Map<u16, bool>,
    pub pending: Option<Seq<u8>>,
    pub chunk: Option<Seq<u8>>,
    pub position: int,
    pub schemas: Seq<SchemaView>,
    pub channels: Seq<ChannelView>,
}

/// A record block as plain values.
pub type BlockView = (u8, Seq<u8>, Option<Seq<IndexProbe>>);

/// The plain value of a record block.
pub open spec fn block_view(b: RecordBlock) -> BlockView {
    (b.opcode, b.data@, match b.index_probes { Some(p) => Some(p@), None => None })
}

/// What the stream does with a message: passed over when its log time is
/// out of range or its channel was refused, emitted when in range and its
/// channel allowed (or no channel filter is set), and otherwise held until
/// the channel predicate has been asked.
pub open spec fn spec_decide(st: StreamView, h: MessageHeader) -> FilterStep {
    decide_with(st.time_range, st.filtering, st.decisions, h)
}

/// The decision on a message given the time range, whether a channel filter
/// is set, and the channel decisions recorded.
pub open spec fn decide_with(tr: Option<(u64, u64)>, filtering: bool, decisions: Map<u16, bool>, h: MessageHeader)
    -> FilterStep
{
    if !spec_in_time_range(tr, h.log_time) {
        FilterStep::Reject
    } else if !filtering {
        FilterStep::Accept
    } else if decisions.contains_key(h.channel_id) {
        if decisions[h.channel_id] { FilterStep::Accept } else { FilterStep::Reject }
    } else {
        FilterStep::AskPredicate
    }
}

/// The next message at or after `pos` of chunk records `d` that is not
/// passed over: its header, payload start and the next position.
pub open spec fn spec_next_wanted(d: Seq<u8>, pos: int, st: StreamView) -> Option<(MessageHeader, int, int)> {
    next_wanted_with(d, pos, st.time_range, st.filtering, st.decisions)
}

/// `spec_next_wanted` over the parts of the state the decision reads.
pub open spec fn next_wanted_with(d: Seq<u8>, pos: int, tr: Option<(u64, u64)>, filtering: bool,
    decisions: Map<u16, bool>) -> Option<(MessageHeader, int, int)>
    decreases d.len() - pos,
{
    match spec_next_chunk_message(d, pos) {
        None => None,
        Some((h, cs, nx)) => if decide_with(tr, filtering, decisions, h) != FilterStep::Reject {
            Some((h, cs, nx))
        } else if pos < nx <= d.len() {
            next_wanted_with(d, nx, tr, filtering, decisions)
        } else {
            None
        },
    }
}

/// The message of a chunk walk as a step.
pub open spec fn emit_view(h: MessageHeader, d: Seq<u8>, cs: int, nx: int) -> StepView {
    StepView::Emit(h.channel_id, h.sequence, h.log_time, h.publish_time, d.subrange(cs + MESSAGE_HEADER_SIZE, nx))
}

/// Walk the current chunk from the stream's position: emit the next wanted
/// message, ask about its channel (staying where the walk began), or drop
/// the chunk when none is left.
pub open spec fn spec_walk_chunk(st: StreamView, d: Seq<u8>) -> (StreamView, Option<StepView>) {
    match spec_next_wanted(d, st.position, st) {
        Some((h, cs, nx)) => if spec_decide(st, h) == FilterStep::Accept {
            (StreamView { chunk: Some(d), position: nx, ..st }, Some(emit_view(h, d, cs, nx)))
        } else {
            (StreamView { chunk: Some(d), ..st }, Some(StepView::NeedChannel(h.channel_id)))
        },
        None => (StreamView { chunk: None, position: 0, ..st }, None),
    }
}

/// Whether the chunk's message indexes leave it a candidate for the range.
pub open spec fn spec_probes_allow(probes: Option<Seq<IndexProbe>>, tr: Option<(u64, u64)>) -> bool {
    match tr {
        None => true,
        Some((start, end)) => match probes {
            None => true,
            Some(ps) => ps.len() == 0 || exists|k: int| 0 <= k < ps.len() && probe_might_match(#[trigger] ps[k], start, end),
        },
    }
}

/// A top-level message `data` with header `h`, as the stream decides it.
pub open spec fn spec_top_message(st: StreamView, h: MessageHeader, data: Seq<u8>) -> (StreamView, StepView) {
    if spec_decide(st, h) == FilterStep::Accept {
        (st, StepView::Emit(h.channel_id, h.sequence, h.log_time, h.publish_time,
            data.subrange(MESSAGE_HEADER_SIZE as int, data.len() as int)))
    } else if spec_decide(st, h) == FilterStep::Reject {
        (st, StepView::NeedBlock)
    } else {
        (StreamView { pending: Some(data), ..st }, StepView::NeedChannel(h.channel_id))
    }
}

/// One record block: schemas and channels are cached, DataEnd ends the
/// stream, a top-level message is decided, an uncompressed chunk that may
/// hold messages in range is walked, anything else is passed over. A
/// malformed message ends the stream with an error; a malformed or
/// compressed chunk gives an error.
pub open spec fn spec_block_step(st: StreamView, b: BlockView) -> (StreamView, StepView) {
    let (op, data, probes) = b;
    if op == Opcode::Schema.byte() {
        match spec_parse_schema(data) {
            Some(s) => (StreamView { schemas: st.schemas.push(s), ..st }, StepView::NeedBlock),
            None => (st, StepView::NeedBlock),
        }
    } else if op == Opcode::Channel.byte() {
        match spec_parse_channel(data) {
            Some(c) => (StreamView { channels: st.channels.push(c), ..st }, StepView::NeedBlock),
            None => (st, StepView::NeedBlock),
        }
    } else if op == Opcode::DataEnd.byte() {
        (StreamView { done: true, ..st }, StepView::Done)
    } else if op == Opcode::Message.byte() {
        match spec_parse_message_header(data) {
            None => (StreamView { done: true, ..st }, StepView::Failed),
            Some(h) => spec_top_message(st, h, data),
        }
    } else if op == Opcode::Chunk.byte() {
        match spec_parse_chunk(data) {
            None => (st, StepView::Failed),
            Some((start, end, _size, _crc, comp, records)) => {
                if !spec_chunk_overlaps(st.time_range, start, end) || !spec_probes_allow(probes, st.time_range) {
                    (st, StepView::NeedBlock)
                } else if comp.len() != 0 {
                    (st, StepView::Failed)
                } else {
                    let (st2, e) = spec_walk_chunk(StreamView { position: 0, ..st }, records);
                    match e {
                        Some(v) => (st2, v),
                        None => (st2, StepView::NeedBlock),
                    }
                }
            },
        }
    } else {
        (st, StepView::NeedBlock)
    }
}

/// The step once no message is held: the next wanted message of the
/// current chunk, else the block's step, else a request for a block.
pub open spec fn spec_step_after_pending(st: StreamView, block: Option<BlockView>) -> (StreamView, StepView) {
    let (st1, e) = match st.chunk {
        Some(d) => spec_walk_chunk(st, d),
        None => (st, None),
    };
    match e {
        Some(v) => (st1, v),
        None => match block {
            None => (st1, StepView::NeedBlock),
            Some(b) => spec_block_step(st1, b),
        },
    }
}

/// One step of the stream: nothing after the end; a top-level message held
/// for a channel decision is decided first; then as `spec_step_after_pending`.
/// A block is taken only by a step that follows a request for one.
pub open spec fn spec_stream_step(st: StreamView, block: Option<BlockView>) -> (StreamView, StepView) {
    if st.done {
        (st, StepView::Done)
    } else {
        match st.pending {
            Some(data) => match spec_parse_message_header(data) {
                Some(h) => if spec_decide(st, h) == FilterStep::Reject {
                    spec_step_after_pending(StreamView { pending: None, ..st }, block)
                } else {
                    spec_top_message(StreamView { pending: None, ..st }, h, data)
                },
                None => spec_step_after_pending(StreamView { pending: None, ..st }, block),
            },
            None => spec_step_after_pending(st, block),
        }
    }
}

/// The state of a message stream over the records of a file.
pub struct MessageStreamState {
    done: bool,
    time_range: Option<(u64, u64)>,
    filtering: bool,
    cache: Vec<u8>,
    pending: Option<Vec<u8>>,
    chunk: Option<Vec<u8>>,
    position: usize,
    schemas: Vec<Schema>,
    channels: Vec<Channel>,
}

/// The channel decisions recorded in `cache`.
pub open spec fn decisions_of(cache: Seq<u8>) -> Map<u16, bool> {
    Map::new(|id: u16| cached_decision(cache, id) is Some, |id: u16| cached_decision(cache, id)->Some_0)
}

impl View for MessageStreamState {
    type V = StreamView;

    closed spec fn view(&self) -> StreamView {
        StreamView {
            done: self.done,
            time_range: self.time_range,
            filtering: self.filtering,
            decisions: decisions_of(self.cache@),
            pending: match self.pending { Some(c) => Some(c@), None => None },
            chunk: match self.chunk { Some(c) => Some(c@), None => None },
            position: self.position as int,
            schemas: Seq::new(self.schemas@.len(), |i: int| schema_view(self.schemas@[i])),
            channels: Seq::new(self.channels@.len(), |i: int| channel_view(self.channels@[i])),
        }
    }
}

impl MessageStreamState {
    /// The current chunk and any held message fit the message payload bounds.
    pub closed spec fn well_formed(&self) -> bool {
        &&& self.chunk matches Some(c) ==> c@.len() <= u32::MAX && self.position <= c@.len()
        &&& self.chunk is None ==> self.position == 0
        &&& self.pending matches Some(p) ==> p@.len() <= u32::MAX
    }

    /// A stream at the start of the data section, with an optional time range.
    pub fn new(time_range: Option<(u64, u64)>) -> (r: MessageStreamState)
        ensures
            r.well_formed(),
            r@ == (StreamView { done: false, time_range, filtering: false, decisions: Map::empty(), pending: None,
                chunk: None, position: 0, schemas: Seq::empty(), channels: Seq::empty() }),
    {
        Self::with_filter(time_range, false)
    }

    /// A stream at the start of the data section, with an optional time
    /// range and, when `channel_filter` is set, a channel predicate that the
    /// caller is asked to evaluate once per channel.
    pub fn with_filter(time_range: Option<(u64, u64)>, channel_filter: bool) -> (r: MessageStreamState)
        ensures
            r.well_formed(),
            r@ == (StreamView { done: false, time_range, filtering: channel_filter, decisions: Map::empty(),
                pending: None, chunk: None, position: 0, schemas: Seq::empty(), channels: Seq::empty() }),
    {
        let r = MessageStreamState { done: false, time_range, filtering: channel_filter, cache: Vec::new(),
            pending: None, chunk: None, position: 0, schemas: Vec::new(), channels: Vec::new() };
        assert(r@.schemas =~= Seq::<SchemaView>::empty());
        assert(r@.channels =~= Seq::<ChannelView>::empty());
        assert(r@.decisions =~= Map::<u16, bool>::empty());
        r
    }

    /// The schemas cached so far, in the order they were read.
    pub fn schemas(&self) -> (r: &Vec<Schema>)
        ensures
            r@.len() == self@.schemas.len(),
            forall|i: int| 0 <= i < r@.len() ==> schema_view(#[trigger] r@[i]) == self@.schemas[i],
    {
        &self.schemas
    }

    /// The channels cached so far, in the order they were read.
    pub fn channels(&self) -> (r: &Vec<Channel>)
        ensures
            r@.len() == self@.channels.len(),
            forall|i: int| 0 <= i < r@.len() ==> channel_view(#[trigger] r@[i]) == self@.channels[i],
    {
        &self.channels
    }

    /// Record the channel predicate's answer for `channel_id`; the stream
    /// does not ask about that channel again.
    pub fn record_channel_answer(&mut self, channel_id: u16, allows: bool)
        requires
            old(self).well_formed(),
        ensures
            final(self).well_formed(),
            final(self)@ == (StreamView { decisions: old(self)@.decisions.insert(channel_id, allows), ..old(self)@ }),
    {
        let ghost c0 = self.cache@;
        if self.cache.len() != 65536 {
            resize_cache(&mut self.cache);
        }
        let ghost c1 = self.cache@;
        assert(decisions_of(c1) =~= decisions_of(c0)) by {
            assert forall|id: u16| #[trigger] cached_decision(c1, id) == cached_decision(c0, id) by {
                if c1 != c0 {
                    assert(c1[id as int] == if (id as int) < c0.len() { c0[id as int] } else { 2u8 });
                }
            }
        }
        record_channel_decision(&mut self.cache, channel_id, allows);
        assert(decisions_of(self.cache@) =~= decisions_of(c1).insert(channel_id, allows));
    }

    /// What the stream does with a message of `channel_id` logged at `log_time`.
    fn decide(&mut self, channel_id: u16, log_time: u64) -> (r: FilterStep)
        requires
            old(self).well_formed(),
        ensures
            final(self).well_formed(),
            final(self)@ == old(self)@,
            final(self).chunk == old(self).chunk,
            final(self).pending == old(self).pending,
            r == spec_decide(old(self)@, MessageHeader { channel_id, log_time, ..arbitrary() }),
    {
        let ghost c0 = self.cache@;
        let r = passes_common_filters_cached(self.time_range, self.filtering, &mut self.cache, channel_id, log_time);
        assert(decisions_of(self.cache@) =~= decisions_of(c0));
        r
    }
}

/// The plain value of an optional record block.
pub open spec fn opt_block_view(b: Option<RecordBlock>) -> Option<BlockView> {
    match b {
        Some(x) => Some(block_view(x)),
        None => None,
    }
}

/// The decision on a message depends only on its channel and log time.
proof fn lemma_decide_fields(st: StreamView, h: MessageHeader, g: MessageHeader)
    requires
        h.channel_id == g.channel_id,
        h.log_time == g.log_time,
    ensures
        spec_decide(st, h) == spec_decide(st, g),
{
}

impl MessageStreamState {
    /// The next message of chunk records `data` at or after `pos` that is
    /// not passed over, its decision, and the position after it.
    fn next_wanted(&mut self, data: &[u8], pos: usize) -> (r: Option<(RawMessage, usize, FilterStep)>)
        requires
            old(self).well_formed(),
            data@.len() <= u32::MAX,
        ensures
            final(self).well_formed(),
            final(self)@ == old(self)@,
            final(self).chunk == old(self).chunk,
            final(self).pending == old(self).pending,
            match spec_next_wanted(data@, pos as int, old(self)@) {
                Some((h, cs, nx)) => (r matches Some((m, p, d)) && p == nx && p <= data@.len()
                    && m.payload.well_formed()
                    && d == spec_decide(old(self)@, h) && d != FilterStep::Reject
                    && step_view(StreamStep::Emit(m)) == emit_view(h, data@, cs, nx)),
                None => r is None,
            },
    {
        let mut at = pos;
        let ghost v0 = self@;
        loop
            invariant
                data@.len() <= u32::MAX,
                self.well_formed(),
                self@ == v0,
                self.chunk == old(self).chunk,
                self.pending == old(self).pending,
                v0 == old(self)@,
                spec_next_wanted(data@, pos as int, v0)
                    == next_wanted_with(data@, at as int, v0.time_range, v0.filtering, v0.decisions),
            decreases data@.len() - at,
        {
            proof { crate::stream::lemma_next_chunk_message_bounds(data@, at as int); }
            match next_chunk_message(data, at) {
                None => {
                    return None;
                },
                Some((m, p)) => {
                    let d = self.decide(m.channel_id, m.log_time);
                    proof {
                        let h = spec_next_chunk_message(data@, at as int)->Some_0.0;
                        lemma_decide_fields(v0, h, MessageHeader { channel_id: m.channel_id, log_time: m.log_time, ..arbitrary() });
                    }
                    if d != FilterStep::Reject {
                        return Some((m, p, d));
                    }
                    if !(at < p && p <= data.len()) {
                        return None;
                    }
                    at = p;
                },
            }
        }
    }

    /// Walk the current chunk records `d` from the stream's position.
    fn walk_chunk(&mut self, d: Vec<u8>) -> (r: Option<StreamStep>)
        requires
            old(self).well_formed() || old(self).chunk is None,
            old(self).pending matches Some(p) ==> p@.len() <= u32::MAX,
            d@.len() <= u32::MAX,
            old(self).position <= d@.len(),
        ensures
            final(self).well_formed(),
            (final(self)@, match r { Some(x) => Some(step_view(x)), None => None })
                == spec_walk_chunk(old(self)@, d@),
            match r { Some(x) => x matches StreamStep::Emit(m) ==> m.payload.well_formed(), None => true },
    {
        self.chunk = None;
        let ghost v0 = self@;
        let pos = self.position;
        self.position = 0;
        let got = self.next_wanted(d.as_slice(), pos);
        self.position = pos;
        assert(self@ =~= v0);
        match got {
            Some((m, p, dec)) => {
                self.chunk = Some(d);
                if dec == FilterStep::Accept {
                    self.position = p;
                    Some(StreamStep::Emit(m))
                } else {
                    Some(StreamStep::NeedChannelDecision(m.channel_id))
                }
            },
            None => {
                self.position = 0;
                None
            },
        }
    }

    /// A top-level message `data`, as the stream decides it.
    fn top_message(&mut self, data: Vec<u8>, m: RawMessage) -> (r: StreamStep)
        requires
            old(self).well_formed(),
            old(self).pending is None,
            data@.len() <= u32::MAX,
            spec_parse_message_header(data@) matches Some(h) && m.channel_id == h.channel_id
                && m.sequence == h.sequence && m.log_time == h.log_time && m.publish_time == h.publish_time
                && m.payload.well_formed()
                && m.payload@ == data@.subrange(MESSAGE_HEADER_SIZE as int, data@.len() as int),
        ensures
            final(self).well_formed(),
            (final(self)@, step_view(r)) == spec_top_message(old(self)@, spec_parse_message_header(data@)->Some_0, data@),
            r matches StreamStep::Emit(x) ==> x.payload.well_formed(),
    {
        let d = self.decide(m.channel_id, m.log_time);
        proof {
            let h = spec_parse_message_header(data@)->Some_0;
            lemma_decide_fields(old(self)@, h, MessageHeader { channel_id: m.channel_id, log_time: m.log_time, ..arbitrary() });
        }
        if d == FilterStep::Accept {
            StreamStep::Emit(m)
        } else if d == FilterStep::Reject {
            StreamStep::NeedBlock
        } else {
            let id = m.channel_id;
            self.pending = Some(data);
            StreamStep::NeedChannelDecision(id)
        }
    }

    /// One record block (see `spec_block_step`).
    fn block_step(&mut self, b: RecordBlock) -> (r: StreamStep)
        requires
            old(self).well_formed(),
            old(self).chunk is None,
            old(self).pending is None,
            b.data@.len() <= u32::MAX,
        ensures
            final(self).well_formed(),
            (final(self)@, step_view(r)) == spec_block_step(old(self)@, block_view(b)),
            r matches StreamStep::Emit(m) ==> m.payload.well_formed(),
    {
        let op = b.opcode;
        proof {
            crate::format::lemma_opcode_byte_round_trip(Opcode::Schema);
            crate::format::lemma_opcode_byte_round_trip(Opcode::Channel);
            crate::format::lemma_opcode_byte_round_trip(Opcode::DataEnd);
            crate::format::lemma_opcode_byte_round_trip(Opcode::Message);
            crate::format::lemma_opcode_byte_round_trip(Opcode::Chunk);
        }
        if op == Opcode::Schema.as_u8() {
            match parse_schema_record(b.data.as_slice()) {
                Ok(sc) => {
                    let ghost v0 = self@;
                    self.schemas.push(sc);
                    assert(self@.schemas =~= v0.schemas.push(schema_view(sc)));
                },
                Err(_) => {},
            }
            StreamStep::NeedBlock
        } else if op == Opcode::Channel.as_u8() {
            match parse_channel_record(b.data.as_slice()) {
                Ok(c) => {
                    let ghost v0 = self@;
                    self.channels.push(c);
                    assert(self@.channels =~= v0.channels.push(channel_view(c)));
                },
                Err(_) => {},
            }
            StreamStep::NeedBlock
        } else if op == Opcode::DataEnd.as_u8() {
            self.done = true;
            StreamStep::Done
        } else if op == Opcode::Message.as_u8() {
            match parse_message_record(b.data.as_slice()) {
                Err(e) => {
                    self.done = true;
                    StreamStep::Failed(e)
                },
                Ok(m) => self.top_message(b.data, m),
            }
        } else if op == Opcode::Chunk.as_u8() {
            let chunk = match parse_chunk_record(b.data.as_slice()) {
                Ok(c) => c,
                Err(e) => return StreamStep::Failed(e),
            };
            if !chunk_overlaps_time_range(self.time_range, chunk.message_start_time, chunk.message_end_time) {
                return StreamStep::NeedBlock;
            }
            let allowed = match self.time_range {
                None => true,
                Some((start, end)) => chunk_might_have_messages_in_range_via_index(b.index_probes.as_ref(), start, end),
            };
            if !allowed {
                return StreamStep::NeedBlock;
            }
            if chunk.compression.as_str().unicode_len() != 0 {
                return StreamStep::Failed(Error::UnsupportedCompression);
            }
            self.position = 0;
            match self.walk_chunk(chunk.records) {
                Some(e) => e,
                None => StreamStep::NeedBlock,
            }
        } else {
            StreamStep::NeedBlock
        }
    }

    /// The step once no message is held (see `spec_step_after_pending`).
    fn step_after_pending(&mut self, block: Option<RecordBlock>) -> (r: StreamStep)
        requires
            old(self).well_formed(),
            old(self).pending is None,
            block matches Some(b) ==> b.data@.len() <= u32::MAX,
        ensures
            final(self).well_formed(),
            (final(self)@, step_view(r)) == spec_step_after_pending(old(self)@, opt_block_view(block)),
            r matches StreamStep::Emit(m) ==> m.payload.well_formed(),
    {
        let taken = self.chunk.take();
        match taken {
            Some(d) => {
                match self.walk_chunk(d) {
                    Some(e) => {
                        return e;
                    },
                    None => {},
                }
            },
            None => {},
        }
        match block {
            None => StreamStep::NeedBlock,
            Some(b) => self.block_step(b),
        }
    }
}

/// One step of a message stream (see `spec_stream_step`): the caller hands
/// over the next record block when the previous step asked for one, and
/// records the channel predicate's answer when asked for it.
pub fn message_stream_step(st: &mut MessageStreamState, block: Option<RecordBlock>) -> (r: StreamStep)
    requires
        old(st).well_formed(),
        block matches Some(b) ==> b.data@.len() <= u32::MAX,
    ensures
        final(st).well_formed(),
        (final(st)@, step_view(r)) == spec_stream_step(old(st)@, opt_block_view(block)),
        r matches StreamStep::Emit(m) ==> m.payload.well_formed(),
{
    if st.done {
        return StreamStep::Done;
    }
    let held = st.pending.take();
    match held {
        Some(data) => {
            match parse_message_record(data.as_slice()) {
                Ok(m) => {
                    let d = st.decide(m.channel_id, m.log_time);
                    proof {
                        let h = spec_parse_message_header(data@)->Some_0;
                        lemma_decide_fields(st@, h, MessageHeader { channel_id: m.channel_id, log_time: m.log_time, ..arbitrary() });
                    }
                    if d == FilterStep::Reject {
                        st.step_after_pending(block)
                    } else {
                        st.top_message(data, m)
                    }
                },
                Err(_) => st.step_after_pending(block),
            }
        },
        None => st.step_after_pending(block),
    }
}

/// What one step of a message metadata stream gives.
pub enum MetadataStep {
    /// The metadata of the next message.
    Emit(MessageMetadata),
    /// The next record block is needed.
    NeedBlock,
    /// The channel predicate must be asked about this channel.
    NeedChannelDecision(u16),
    /// The stream has ended.
    Done,
    /// A record could not be decoded.
    Failed(Error),
}

/// A metadata step as plain values.
pub enum MetadataStepView {
    Emit(MessageMetadata),
    NeedBlock,
    NeedChannel(u16),
    Done,
    Failed,
}

/// The plain value of a metadata step.
pub open spec fn metadata_step_view(s: MetadataStep) -> MetadataStepView {
    match s {
        MetadataStep::Emit(m) => MetadataStepView::Emit(m),
        MetadataStep::NeedBlock => MetadataStepView::NeedBlock,
        MetadataStep::NeedChannelDecision(id) => MetadataStepView::NeedChannel(id),
        MetadataStep::Done => MetadataStepView::Done,
        MetadataStep::Failed(_) => MetadataStepView::Failed,
    }
}

/// What a message step tells of the message's metadata: its header fields
/// and the size of its payload.
pub open spec fn metadata_of_step(v: StepView) -> MetadataStepView {
    match v {
        StepView::Emit(channel_id, sequence, log_time, publish_time, payload) => MetadataStepView::Emit(
            MessageMetadata { channel_id, sequence, log_time, publish_time, data_size: payload.len() as u64 }),
        StepView::NeedBlock => MetadataStepView::NeedBlock,
        StepView::NeedChannel(id) => MetadataStepView::NeedChannel(id),
        StepView::Done => MetadataStepView::Done,
        StepView::Failed => MetadataStepView::Failed,
    }
}

/// One step of a message metadata stream: the same walk as a message
/// stream, giving each message's header fields and payload size.
pub fn metadata_stream_step(st: &mut MessageStreamState, block: Option<RecordBlock>) -> (r: MetadataStep)
    requires
        old(st).well_formed(),
        block matches Some(b) ==> b.data@.len() <= u32::MAX,
    ensures
        final(st).well_formed(),
        final(st)@ == spec_stream_step(old(st)@, opt_block_view(block)).0,
        metadata_step_view(r) == metadata_of_step(spec_stream_step(old(st)@, opt_block_view(block)).1),
{
    match message_stream_step(st, block) {
        StreamStep::Emit(m) => {
            let n = m.payload.len();
            MetadataStep::Emit(MessageMetadata {
                channel_id: m.channel_id,
                sequence: m.sequence,
                log_time: m.log_time,
                publish_time: m.publish_time,
                data_size: n as u64,
            })
        },
        StreamStep::NeedBlock => MetadataStep::NeedBlock,
        StreamStep::NeedChannelDecision(id) => MetadataStep::NeedChannelDecision(id),
        StreamStep::Done => MetadataStep::Done,
        StreamStep::Failed(e) => MetadataStep::Failed(e),
    }
}

/// The messages in the time range of uncompressed chunk records `d`, from
/// `pos` on, as random access counts them: records of other kinds and
/// messages too short for their header are passed over; the walk ends at a
/// truncated record.
pub open spec fn spec_counted_messages(d: Seq<u8>, pos: int, tr: Option<(u64, u64)>) -> Seq<(MessageHeader, int, int)>
    decreases d.len() - pos,
{
    match spec_record_at(d, pos) {
        None => Seq::empty(),
        Some((op, cs, nx)) => if pos < nx <= d.len() {
            let rest = spec_counted_messages(d, nx, tr);
            if op == Opcode::Message.byte() && spec_parse_message_header(d.subrange(cs, nx)) is Some
                && spec_in_time_range(tr, spec_parse_message_header(d.subrange(cs, nx))->Some_0.log_time) {
                seq![(spec_parse_message_header(d.subrange(cs, nx))->Some_0, cs, nx)] + rest
            } else {
                rest
            }
        } else {
            Seq::empty()
        },
    }
}

/// The `n`-th (from 0) message in the time range of uncompressed chunk
/// records, or, when the chunk holds fewer, how many it holds: random
/// access walks the chunks in order and subtracts that count.
pub fn nth_message_in_chunk(records: &[u8], time_range: Option<(u64, u64)>, n: usize)
    -> (r: core::result::Result<RawMessage, usize>)
    requires
        records@.len() <= u32::MAX,
    ensures
        ({
            let l = spec_counted_messages(records@, 0, time_range);
            if n < l.len() {
                r matches Ok(m) && step_view(StreamStep::Emit(m)) == emit_view(l[n as int].0, records@, l[n as int].1, l[n as int].2)
            } else {
                r == core::result::Result::<RawMessage, usize>::Err(l.len() as usize)
            }
        }),
{
    let ghost l = spec_counted_messages(records@, 0, time_range);
    let ghost mut seen: Seq<(MessageHeader, int, int)> = Seq::empty();
    let mut count: usize = 0;
    let mut pos: usize = 0;
    proof { crate::format::lemma_opcode_byte_round_trip(Opcode::Message); }
    while pos < records.len()
        invariant
            records@.len() <= u32::MAX,
            l == spec_counted_messages(records@, 0, time_range),
            l == seen + spec_counted_messages(records@, pos as int, time_range),
            seen.len() == count,
            count <= n,
            Opcode::spec_from_byte(Opcode::Message.byte()) == Some(Opcode::Message),
        decreases records@.len() - pos,
    {
        let loc = match get_record_location(records, pos) {
            Some(l) => l,
            None => {
                assert(l =~= seen);
                return Err(count);
            },
        };
        let ghost rest = spec_counted_messages(records@, loc.next_record_start as int, time_range);
        if loc.opcode == 5 {
            let content = &records[loc.content_start..loc.next_record_start];
            match parse_message_record(content) {
                Ok(m) => {
                    let in_range = match time_range {
                        None => true,
                        Some((start, end)) => start <= m.log_time && m.log_time <= end,
                    };
                    if in_range {
                        assert(content@ =~= records@.subrange(loc.content_start as int, loc.next_record_start as int));
                        assert(m.payload@ =~= records@.subrange(loc.content_start + MESSAGE_HEADER_SIZE, loc.next_record_start as int));
                        if count == n {
                            assert(l[n as int] == spec_counted_messages(records@, pos as int, time_range)[0]);
                            return Ok(m);
                        }
                        proof {
                            let e = spec_counted_messages(records@, pos as int, time_range)[0];
                            assert(spec_counted_messages(records@, pos as int, time_range) == seq![e] + rest);
                            assert(seen + (seq![e] + rest) =~= seen.push(e) + rest);
                            seen = seen.push(e);
                        }
                        count += 1;
                    } else {
                        assert(content@ =~= records@.subrange(loc.content_start as int, loc.next_record_start as int));
                    }
                },
                Err(_) => {
                    assert(content@ =~= records@.subrange(loc.content_start as int, loc.next_record_start as int));
                },
            }
        }
        pos = loc.next_record_start;
    }
    proof {
        assert(spec_record_at(records@, pos as int) is None);
        assert(l =~= seen);
    }
    Err(count)
}

/// The messages a record block holds for random access, in order, or
/// `None` when the block cannot be read: a top-level message in the time
/// range; the counted messages of an uncompressed chunk that may hold
/// messages in the range; nothing for other records. A malformed top-level
/// message is passed over; a malformed or compressed chunk cannot be read.
pub open spec fn spec_block_messages(b: BlockView, tr: Option<(u64, u64)>) -> Option<Seq<StepView>> {
    let (op, data, probes) = b;
    if op == Opcode::Message.byte() {
        match spec_parse_message_header(data) {
            Some(h) => if spec_in_time_range(tr, h.log_time) {
                Some(seq![StepView::Emit(h.channel_id, h.sequence, h.log_time, h.publish_time,
                    data.subrange(MESSAGE_HEADER_SIZE as int, data.len() as int))])
            } else {
                Some(Seq::empty())
            },
            None => Some(Seq::empty()),
        }
    } else if op == Opcode::Chunk.byte() {
        match spec_parse_chunk(data) {
            None => None,
            Some((start, end, _size, _crc, comp, records)) => {
                if !spec_chunk_overlaps(tr, start, end) || !spec_probes_allow(probes, tr) {
                    Some(Seq::empty())
                } else if comp.len() != 0 {
                    None
                } else {
                    let l = spec_counted_messages(records, 0, tr);
                    Some(Seq::new(l.len(), |i: int| emit_view(l[i].0, records, l[i].1, l[i].2)))
                }
            },
        }
    } else {
        Some(Seq::empty())
    }
}

/// What one step of random access gives.
pub enum NthStep {
    /// The message sought.
    Found(RawMessage),
    /// The next record block is needed.
    NeedBlock,
    /// The file holds fewer messages.
    NotFound,
    /// A record block could not be read.
    Failed(Error),
}

/// A random-access step as plain values.
pub enum NthStepView {
    Found(StepView),
    NeedBlock,
    NotFound,
    Failed,
}

/// The plain value of a random-access step.
pub open spec fn nth_view(s: NthStep) -> NthStepView {
    match s {
        NthStep::Found(m) => NthStepView::Found(step_view(StreamStep::Emit(m))),
        NthStep::NeedBlock => NthStepView::NeedBlock,
        NthStep::NotFound => NthStepView::NotFound,
        NthStep::Failed(_) => NthStepView::Failed,
    }
}

/// The state of random access as plain values: how many messages are
/// still to be passed over, whether the search has ended, and the range.
pub struct NthView {
    pub remaining: nat,
    pub ended: bool,
    pub time_range: Option<(u64, u64)>,
}

/// One step of random access: each block's messages are counted off until
/// the one sought is reached; the search ends when it is found, when the
/// blocks run out, or when a block cannot be read.
pub open spec fn spec_nth_step(st: NthView, block: Option<BlockView>) -> (NthView, NthStepView) {
    if st.ended {
        (st, NthStepView::NotFound)
    } else {
        match block {
            None => (NthView { ended: true, ..st }, NthStepView::NotFound),
            Some(b) => match spec_block_messages(b, st.time_range) {
                None => (NthView { ended: true, ..st }, NthStepView::Failed),
                Some(l) => if st.remaining < l.len() {
                    (NthView { ended: true, ..st }, NthStepView::Found(l[st.remaining as int]))
                } else {
                    (NthView { remaining: (st.remaining - l.len()) as nat, ..st }, NthStepView::NeedBlock)
                },
            },
        }
    }
}

/// Random access to the `n`-th message (from 0) of a file in the time
/// range, fed record block by record block.
pub struct NthState {
    remaining: usize,
    ended: bool,
    time_range: Option<(u64, u64)>,
}

impl View for NthState {
    type V = NthView;

    closed spec fn view(&self) -> NthView {
        NthView { remaining: self.remaining as nat, ended: self.ended, time_range: self.time_range }
    }
}

impl NthState {
    /// Seek the `n`-th message in `time_range`.
    pub fn new(n: usize, time_range: Option<(u64, u64)>) -> (r: NthState)
        ensures
            r@ == (NthView { remaining: n as nat, ended: false, time_range }),
    {
        NthState { remaining: n, ended: false, time_range }
    }
}

/// One step of random access (see `spec_nth_step`).
pub fn nth_message_step(st: &mut NthState, block: Option<RecordBlock>) -> (r: NthStep)
    requires
        block matches Some(b) ==> b.data@.len() <= u32::MAX,
    ensures
        (final(st)@, nth_view(r)) == spec_nth_step(old(st)@, opt_block_view(block)),
{
    if st.ended {
        return NthStep::NotFound;
    }
    let b = match block {
        None => {
            st.ended = true;
            return NthStep::NotFound;
        },
        Some(b) => b,
    };
    proof {
        crate::format::lemma_opcode_byte_round_trip(Opcode::Message);
        crate::format::lemma_opcode_byte_round_trip(Opcode::Chunk);
    }
    let tr = st.time_range;
    if b.opcode == Opcode::Message.as_u8() {
        match parse_message_record(b.data.as_slice()) {
            Ok(m) => {
                let in_range = match tr {
                    None => true,
                    Some((start, end)) => start <= m.log_time && m.log_time <= end,
                };
                if in_range {
                    if st.remaining == 0 {
                        st.ended = true;
                        return NthStep::Found(m);
                    }
                    st.remaining = st.remaining - 1;
                }
                NthStep::NeedBlock
            },
            Err(_) => NthStep::NeedBlock,
        }
    } else if b.opcode == Opcode::Chunk.as_u8() {
        let chunk = match parse_chunk_record(b.data.as_slice()) {
            Ok(c) => c,
            Err(e) => {
                st.ended = true;
                return NthStep::Failed(e);
            },
        };
        if !chunk_overlaps_time_range(tr, chunk.message_start_time, chunk.message_end_time) {
            return NthStep::NeedBlock;
        }
        let allowed = match tr {
            None => true,
            Some((start, end)) => chunk_might_have_messages_in_range_via_index(b.index_probes.as_ref(), start, end),
        };
        if !allowed {
            return NthStep::NeedBlock;
        }
        if chunk.compression.as_str().unicode_len() != 0 {
            st.ended = true;
            return NthStep::Failed(Error::UnsupportedCompression);
        }
        let ghost l = spec_counted_messages(chunk.records@, 0, tr);
        match nth_message_in_chunk(chunk.records.as_slice(), tr, st.remaining) {
            Ok(m) => {
                st.ended = true;
                NthStep::Found(m)
            },
            Err(count) => {
                st.remaining = st.remaining - count;
                NthStep::NeedBlock
            },
        }
    } else {
        NthStep::NeedBlock
    }
}

/// Random access run over `blocks`, then the end of the file.
pub open spec fn spec_run_nth(st: NthView, blocks: Seq<BlockView>) -> (NthView, NthStepView)
    decreases blocks.len(),
{
    if blocks.len() == 0 {
        spec_nth_step(st, None)
    } else {
        let (s1, v) = spec_nth_step(st, Some(blocks[0]));
        if v is NeedBlock {
            spec_run_nth(s1, blocks.drop_first())
        } else {
            (s1, v)
        }
    }
}

/// The messages of `blocks` in order, when every block can be read.
pub open spec fn spec_blocks_messages(blocks: Seq<BlockView>, tr: Option<(u64, u64)>) -> Option<Seq<StepView>>
    decreases blocks.len(),
{
    if blocks.len() == 0 {
        Some(Seq::empty())
    } else {
        match (spec_block_messages(blocks[0], tr), spec_blocks_messages(blocks.drop_first(), tr)) {
            (Some(l), Some(rest)) => Some(l + rest),
            _ => None,
        }
    }
}

/// Random access finds the `n`-th message of the file: fed every record
/// block of a readable file in order, it gives the `n`-th of all the
/// messages the blocks hold, or reports that there are fewer.
pub proof fn lemma_nth_finds_nth(n: nat, tr: Option<(u64, u64)>, blocks: Seq<BlockView>)
    requires
        spec_blocks_messages(blocks, tr) is Some,
    ensures
        ({
            let all = spec_blocks_messages(blocks, tr)->Some_0;
            let v = spec_run_nth(NthView { remaining: n, ended: false, time_range: tr }, blocks).1;
            if n < all.len() { v == NthStepView::Found(all[n as int]) } else { v == NthStepView::NotFound }
        }),
    decreases blocks.len(),
{
    if blocks.len() > 0 {
        let l = spec_block_messages(blocks[0], tr)->Some_0;
        let rest = spec_blocks_messages(blocks.drop_first(), tr)->Some_0;
        if n >= l.len() {
            lemma_nth_finds_nth((n - l.len()) as nat, tr, blocks.drop_first());
        }
        assert(n < l.len() ==> (l + rest)[n as int] == l[n as int]);
        assert(l.len() <= n < l.len() + rest.len() ==> (l + rest)[n as int] == rest[n - l.len()]);
    }
}

} // verus!
