//! A message stream with a filter on message headers: each message that the
//! stream would yield is first shown to the caller by its header, and is
//! yielded only when the filter accepts it. The filter's answers are asked
//! for and recorded step by step, as the channel predicate's are.

use vstd::prelude::*;
use crate::message_stream::{message_stream_step, opt_block_view, spec_stream_step, step_view, MessageStreamState,
    BlockView, RecordBlock, StepView, StreamStep, StreamView};
use crate::types::{MessageHeader, RawMessage};

verus! {

/// What one step of a filtered message stream gives.
pub enum FilteredStep {
    /// A step of the underlying stream; an emitted message is one the
    /// filter accepted.
    Stream(StreamStep),
    /// The filter must be asked about this header; its answer is recorded
    /// with `FilteredStream::record_message_answer` before the next step.
    NeedMessageDecision(MessageHeader),
}

/// A filtered step as plain values.
pub enum FilteredStepView {
    Stream(StepView),
    NeedMessage(MessageHeader),
}

/// The plain value of a filtered step.
pub open spec fn filtered_step_view(s: FilteredStep) -> FilteredStepView {
    match s {
        FilteredStep::Stream(x) => FilteredStepView::Stream(step_view(x)),
        FilteredStep::NeedMessageDecision(h) => FilteredStepView::NeedMessage(h),
    }
}

/// The state of a filtered stream as plain values: the underlying stream,
/// whether a message filter is set, the message held for the filter's
/// answer, and that answer once recorded.
pub struct FilteredView {
    pub stream: StreamView,
    pub filtering: bool,
    pub held: Option<StepView>,
    pub answer: Option<bool>,
}

/// The header the filter is asked about for an emitted message.
pub open spec fn emitted_header(v: StepView) -> MessageHeader {
    match v {
        StepView::Emit(channel_id, sequence, log_time, publish_time, data) => MessageHeader {
            channel_id, sequence, log_time, publish_time, data_size: data.len() as u64,
        },
        _ => arbitrary(),
    }
}

/// A step of the underlying stream: a message it emits is held and its
/// header shown to the filter, when one is set; anything else is passed on.
pub open spec fn spec_filtered_inner(st: FilteredView, block: Option<BlockView>)
    -> (FilteredView, FilteredStepView)
{
    let (s1, v) = spec_stream_step(st.stream, block);
    if st.filtering && v is Emit {
        (FilteredView { stream: s1, held: Some(v), answer: None, ..st }, FilteredStepView::NeedMessage(emitted_header(v)))
    } else {
        (FilteredView { stream: s1, ..st }, FilteredStepView::Stream(v))
    }
}

/// One step of a filtered stream: a held message is yielded once accepted,
/// dropped once refused (and the stream goes on), and asked about again
/// while no answer is recorded; with nothing held, the underlying step.
pub open spec fn spec_filtered_step(st: FilteredView, block: Option<BlockView>)
    -> (FilteredView, FilteredStepView)
{
    match st.held {
        Some(v) => match st.answer {
            Some(true) => (FilteredView { held: None, answer: None, ..st }, FilteredStepView::Stream(v)),
            Some(false) => spec_filtered_inner(FilteredView { held: None, answer: None, ..st }, block),
            None => (st, FilteredStepView::NeedMessage(emitted_header(v))),
        },
        None => spec_filtered_inner(st, block),
    }
}

/// A message stream with an optional filter on message headers.
pub struct FilteredStream {
    stream: MessageStreamState,
    filtering: bool,
    held: Option<RawMessage>,
    answer: Option<bool>,
}

impl View for FilteredStream {
    type V = FilteredView;

    closed spec fn view(&self) -> FilteredView {
        FilteredView {
            stream: self.stream@,
            filtering: self.filtering,
            held: match self.held { Some(m) => Some(step_view(StreamStep::Emit(m))), None => None },
            answer: self.answer,
        }
    }
}

impl FilteredStream {
    /// The underlying stream is ready to step, and a held message's payload is whole.
    pub closed spec fn well_formed(&self) -> bool {
        &&& self.stream.well_formed()
        &&& self.held matches Some(m) ==> m.payload.well_formed()
        &&& self.held is None ==> self.answer is None
    }

    /// A filtered stream over `stream`; when `message_filter` is set, the
    /// caller is asked about each message the stream would yield.
    pub fn new(stream: MessageStreamState, message_filter: bool) -> (r: FilteredStream)
        requires
            stream.well_formed(),
        ensures
            r.well_formed(),
            r@ == (FilteredView { stream: stream@, filtering: message_filter, held: None, answer: None }),
    {
        FilteredStream { stream, filtering: message_filter, held: None, answer: None }
    }

    /// The underlying stream, with the schemas and channels it has cached.
    pub fn stream(&self) -> (r: &MessageStreamState)
        ensures
            r@ == self@.stream,
    {
        &self.stream
    }

    /// Record the channel predicate's answer for `channel_id`.
    pub fn record_channel_answer(&mut self, channel_id: u16, allows: bool)
        requires
            old(self).well_formed(),
        ensures
            final(self).well_formed(),
            final(self)@ == (FilteredView {
                stream: StreamView { decisions: old(self)@.stream.decisions.insert(channel_id, allows), ..old(self)@.stream },
                ..old(self)@
            }),
    {
        self.stream.record_channel_answer(channel_id, allows);
    }

    /// Record the message filter's answer for the message held; nothing
    /// changes when no message is held.
    pub fn record_message_answer(&mut self, allows: bool)
        requires
            old(self).well_formed(),
        ensures
            final(self).well_formed(),
            final(self)@ == (if old(self)@.held is Some {
                FilteredView { answer: Some(allows), ..old(self)@ }
            } else {
                old(self)@
            }),
    {
        if self.held.is_some() {
            self.answer = Some(allows);
        }
    }
}

/// A step of the underlying stream, holding a message it emits when a
/// filter is set.
fn filtered_inner(st: &mut FilteredStream, block: Option<RecordBlock>) -> (r: FilteredStep)
    requires
        old(st).well_formed(),
        old(st).held is None,
        block matches Some(b) ==> b.data@.len() <= u32::MAX,
    ensures
        final(st).well_formed(),
        (final(st)@, filtered_step_view(r)) == spec_filtered_inner(old(st)@, opt_block_view(block)),
{
    let step = message_stream_step(&mut st.stream, block);
    match step {
        StreamStep::Emit(m) => {
            if st.filtering {
                let h = MessageHeader {
                    channel_id: m.channel_id,
                    sequence: m.sequence,
                    log_time: m.log_time,
                    publish_time: m.publish_time,
                    data_size: m.payload.len() as u64,
                };
                st.held = Some(m);
                st.answer = None;
                FilteredStep::NeedMessageDecision(h)
            } else {
                FilteredStep::Stream(StreamStep::Emit(m))
            }
        },
        other => FilteredStep::Stream(other),
    }
}

/// One step of a filtered stream (see `spec_filtered_step`): the caller
/// hands over the next record block when the previous step asked for one,
/// and records the channel predicate's and the message filter's answers
/// when asked for them.
pub fn filtered_stream_step(st: &mut FilteredStream, block: Option<RecordBlock>) -> (r: FilteredStep)
    requires
        old(st).well_formed(),
        block matches Some(b) ==> b.data@.len() <= u32::MAX,
    ensures
        final(st).well_formed(),
        (final(st)@, filtered_step_view(r)) == spec_filtered_step(old(st)@, opt_block_view(block)),
{
    match st.answer {
        Some(true) => {
            let m = st.held.take().unwrap();
            st.answer = None;
            FilteredStep::Stream(StreamStep::Emit(m))
        },
        Some(false) => {
            st.held = None;
            st.answer = None;
            filtered_inner(st, block)
        },
        None => match &st.held {
            Some(m) => FilteredStep::NeedMessageDecision(MessageHeader {
                channel_id: m.channel_id,
                sequence: m.sequence,
                log_time: m.log_time,
                publish_time: m.publish_time,
                data_size: m.payload.len() as u64,
            }),
            None => filtered_inner(st, block),
        },
    }
}

/// What one step of random access over a filtered stream gives.
pub enum NthFilteredStep {
    /// The message sought.
    Found(RawMessage),
    /// A message before the one sought was passed over; step again without a block.
    Passed,
    /// A step of the filtered stream other than an emitted message.
    Step(FilteredStep),
}

/// A step of random access over a filtered stream as plain values.
pub enum NthFilteredView {
    Found(StepView),
    Passed,
    Step(FilteredStepView),
}

/// The plain value of a step of random access over a filtered stream.
pub open spec fn nth_filtered_view(s: NthFilteredStep) -> NthFilteredView {
    match s {
        NthFilteredStep::Found(m) => NthFilteredView::Found(step_view(StreamStep::Emit(m))),
        NthFilteredStep::Passed => NthFilteredView::Passed,
        NthFilteredStep::Step(x) => NthFilteredView::Step(filtered_step_view(x)),
    }
}

/// Random access over a filtered stream, with `remaining` messages still
/// to pass over: the messages the filtered stream yields are counted off,
/// and the one reached when none remain is the one sought.
pub open spec fn spec_nth_filtered_step(st: FilteredView, remaining: nat, block: Option<BlockView>)
    -> (FilteredView, nat, NthFilteredView)
{
    let (s1, v) = spec_filtered_step(st, block);
    match v {
        FilteredStepView::Stream(StepView::Emit(..)) => if remaining == 0 {
            (s1, remaining, NthFilteredView::Found(v->Stream_0))
        } else {
            (s1, (remaining - 1) as nat, NthFilteredView::Passed)
        },
        _ => (s1, remaining, NthFilteredView::Step(v)),
    }
}

/// One step of random access to the `remaining`-th next message of a
/// filtered stream (see `spec_nth_filtered_step`), with the time range, the
/// channel predicate and the message filter of the stream applied.
pub fn nth_filtered_step(st: &mut FilteredStream, remaining: &mut usize, block: Option<RecordBlock>) -> (r: NthFilteredStep)
    requires
        old(st).well_formed(),
        block matches Some(b) ==> b.data@.len() <= u32::MAX,
    ensures
        final(st).well_formed(),
        (final(st)@, *final(remaining) as nat, nth_filtered_view(r))
            == spec_nth_filtered_step(old(st)@, *old(remaining) as nat, opt_block_view(block)),
{
    match filtered_stream_step(st, block) {
        FilteredStep::Stream(StreamStep::Emit(m)) => {
            if *remaining == 0 {
                NthFilteredStep::Found(m)
            } else {
                *remaining = *remaining - 1;
                NthFilteredStep::Passed
            }
        },
        other => NthFilteredStep::Step(other),
    }
}

} // verus!
