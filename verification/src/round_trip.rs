//! The records a writer lays out, and the calls that lay them out, as plain
//! values: what a run of the message stream over a file is held against.

use vstd::prelude::*;
use crate::decode::{lemma_channel_round_trip, lemma_le_fields_round_trip, lemma_schema_round_trip, spec_channel_payload,
    spec_parse_channel, spec_parse_message_header, spec_parse_schema, spec_record_at,
    spec_schema_payload};
use crate::encode::{le32, le64, map_fits, spec_record, str_fits};
use crate::format::{Opcode, MESSAGE_HEADER_SIZE};
use crate::kv::distinct_keys;
use crate::message_stream::{BlockView, StepView, StreamView};
use crate::stream::IndexProbe;
use crate::streams::spec_ov_flushed;
use crate::summary::{spec_channel_record, spec_schema_record, ChannelView, SchemaView};
use crate::writer::{added_channel, added_schema, channel_added, message_write_outcome, ChannelSpec, ChannelWriter, Writer};

verus! {

/// The bytes of records laid one after another.
pub open spec fn records_bytes(rs: Seq<(u8, Seq<u8>)>) -> Seq<u8>
    decreases rs.len(),
{
    if rs.len() == 0 {
        Seq::empty()
    } else {
        spec_record(rs[0].0, rs[0].1) + records_bytes(rs.drop_first())
    }
}

/// A record the message stream reads through: its length fits its field,
/// it is neither a chunk nor the end of the data section, and a message's
/// fields decode.
pub open spec fn readable_record(r: (u8, Seq<u8>)) -> bool {
    &&& r.1.len() + 9 <= u64::MAX
    &&& r.0 != Opcode::Chunk.byte()
    &&& r.0 != Opcode::DataEnd.byte()
    &&& r.0 == Opcode::Message.byte() ==> spec_parse_message_header(r.1) is Some
}

/// Every record of `rs` is readable.
pub open spec fn all_readable(rs: Seq<(u8, Seq<u8>)>) -> bool {
    forall|i: int| 0 <= i < rs.len() ==> readable_record(#[trigger] rs[i])
}

/// The messages among records, as the stream yields them.
pub open spec fn messages_of(rs: Seq<(u8, Seq<u8>)>) -> Seq<StepView>
    decreases rs.len(),
{
    if rs.len() == 0 {
        Seq::empty()
    } else {
        let (op, p) = rs[0];
        let rest = messages_of(rs.drop_first());
        if op == Opcode::Message.byte() {
            let h = spec_parse_message_header(p)->Some_0;
            seq![StepView::Emit(h.channel_id, h.sequence, h.log_time, h.publish_time,
                p.subrange(MESSAGE_HEADER_SIZE as int, p.len() as int))] + rest
        } else {
            rest
        }
    }
}

/// The schemas among records that decode, in order.
pub open spec fn schemas_of(rs: Seq<(u8, Seq<u8>)>) -> Seq<SchemaView>
    decreases rs.len(),
{
    if rs.len() == 0 {
        Seq::empty()
    } else {
        let rest = schemas_of(rs.drop_first());
        if rs[0].0 == Opcode::Schema.byte() && spec_parse_schema(rs[0].1) is Some {
            seq![spec_parse_schema(rs[0].1)->Some_0] + rest
        } else {
            rest
        }
    }
}

/// The channels among records that decode, in order.
pub open spec fn channels_of(rs: Seq<(u8, Seq<u8>)>) -> Seq<ChannelView>
    decreases rs.len(),
{
    if rs.len() == 0 {
        Seq::empty()
    } else {
        let rest = channels_of(rs.drop_first());
        if rs[0].0 == Opcode::Channel.byte() && spec_parse_channel(rs[0].1) is Some {
            seq![spec_parse_channel(rs[0].1)->Some_0] + rest
        } else {
            rest
        }
    }
}

/// The record `(op, p)` laid after `pre` is found where `pre` ends.
pub proof fn lemma_record_at_concat(pre: Seq<u8>, op: u8, p: Seq<u8>, rest: Seq<u8>)
    requires
        p.len() + 9 <= u64::MAX,
    ensures
        spec_record_at(pre + spec_record(op, p) + rest, pre.len() as int)
            == Some((op, pre.len() + 9int, pre.len() + 9int + p.len())),
        (pre + spec_record(op, p) + rest).subrange(pre.len() + 9int, pre.len() + 9int + p.len()) == p,
{
    let d = pre + spec_record(op, p) + rest;
    lemma_le_fields_round_trip(pre + seq![op], p + rest, 0, 0, p.len() as u64);
    assert(d =~= pre + seq![op] + le64(p.len() as u64) + (p + rest));
    assert(d.subrange(pre.len() + 9int, pre.len() + 9int + p.len()) =~= p);
}

/// The end of the data section.
pub open spec fn data_end_record() -> Seq<u8> {
    spec_record(Opcode::DataEnd.byte(), le32(0))
}

/// A stream with no time range, no channel filter and nothing held.
pub open spec fn plain_stream(st: StreamView) -> bool {
    &&& !st.done
    &&& st.time_range is None
    &&& !st.filtering
    &&& st.chunk is None
    &&& st.pending is None
}

/// The record blocks of `d` from `pos` up to the end of the data section,
/// as a reader hands them over, without message indexes.
pub open spec fn spec_data_blocks(d: Seq<u8>, pos: int) -> Seq<BlockView>
    decreases d.len() - pos,
{
    match spec_record_at(d, pos) {
        None => Seq::empty(),
        Some((op, cs, nx)) => if pos < nx <= d.len() && op != Opcode::DataEnd.byte() {
            seq![(op, d.subrange(cs, nx), None::<Seq<IndexProbe>>)] + spec_data_blocks(d, nx)
        } else {
            Seq::empty()
        },
    }
}

/// Override slots that are all empty have nothing to flush.
pub proof fn lemma_nothing_to_flush(ov: Seq<Option<crate::chunk::ChunkState>>, i: int, force: bool)
    requires
        forall|j: int| 0 <= j < ov.len() ==> (#[trigger] ov[j]) is None,
    ensures
        spec_ov_flushed(ov, i, force) == Seq::<crate::chunk::ChunkState>::empty(),
    decreases ov.len() - i,
{
    if 0 <= i < ov.len() {
        lemma_nothing_to_flush(ov, i + 1, force);
    }
}

/// The bytes of records laid one after another are those of each part.
pub proof fn lemma_records_bytes_concat(a: Seq<(u8, Seq<u8>)>, b: Seq<(u8, Seq<u8>)>)
    ensures
        records_bytes(a + b) == records_bytes(a) + records_bytes(b),
    decreases a.len(),
{
    if a.len() == 0 {
        assert(a + b =~= b);
        assert(records_bytes(a) + records_bytes(b) =~= records_bytes(b));
    } else {
        lemma_records_bytes_concat(a.drop_first(), b);
        assert((a + b).drop_first() =~= a.drop_first() + b);
        assert(records_bytes(a + b) =~= records_bytes(a) + records_bytes(b));
    }
}

/// The messages, schemas and channels of records laid one after another
/// are those of each part, in order.
pub proof fn lemma_concat_lists(a: Seq<(u8, Seq<u8>)>, b: Seq<(u8, Seq<u8>)>)
    ensures
        messages_of(a + b) == messages_of(a) + messages_of(b),
        schemas_of(a + b) == schemas_of(a) + schemas_of(b),
        channels_of(a + b) == channels_of(a) + channels_of(b),
    decreases a.len(),
{
    if a.len() == 0 {
        assert(a + b =~= b);
        assert(messages_of(a) + messages_of(b) =~= messages_of(b));
        assert(schemas_of(a) + schemas_of(b) =~= schemas_of(b));
        assert(channels_of(a) + channels_of(b) =~= channels_of(b));
    } else {
        lemma_concat_lists(a.drop_first(), b);
        assert((a + b).drop_first() =~= a.drop_first() + b);
        assert((a + b)[0] == a[0]);
        assert(messages_of(a + b) =~= messages_of(a) + messages_of(b));
        assert(schemas_of(a + b) =~= schemas_of(a) + schemas_of(b));
        assert(channels_of(a + b) =~= channels_of(a) + channels_of(b));
    }
}

/// The view of a stream at the start of the data section, with no range
/// and no channel filter.
pub open spec fn fresh_stream() -> StreamView {
    StreamView { done: false, time_range: None, filtering: false, decisions: Map::empty(), pending: None,
        chunk: None, position: 0, schemas: Seq::empty(), channels: Seq::empty() }
}

/// The records of a channel added to a writer: its schema's when the
/// schema is new, then the channel's.
pub open spec fn channel_records(sv: Option<SchemaView>, cv: ChannelView) -> Seq<(u8, Seq<u8>)> {
    (match sv {
        Some(s) => seq![(Opcode::Schema.byte(), spec_schema_payload(s.0, s.1, s.2, s.3))],
        None => Seq::empty(),
    }) + seq![(Opcode::Channel.byte(), spec_channel_payload(cv.0, cv.1, cv.2, cv.3, cv.4))]
}

/// The records of a channel added with its schema (when new) are
/// readable, hold no message, and decode to that schema and that channel.
pub proof fn lemma_channel_records(sv: Option<SchemaView>, cv: ChannelView)
    requires
        sv matches Some(s) ==> str_fits(s.1) && str_fits(s.2) && s.3.len() <= u32::MAX,
        str_fits(cv.2),
        str_fits(cv.3),
        map_fits(cv.4),
        distinct_keys(cv.4),
    ensures
        ({
            let rs = channel_records(sv, cv);
            &&& records_bytes(rs) == (match sv { Some(s) => spec_schema_record(s), None => Seq::empty() })
                + spec_channel_record(cv)
            &&& all_readable(rs)
            &&& messages_of(rs) == Seq::<StepView>::empty()
            &&& schemas_of(rs) == (match sv { Some(s) => seq![s], None => Seq::<SchemaView>::empty() })
            &&& channels_of(rs) == seq![cv]
        }),
{
    crate::format::lemma_opcode_byte_round_trip(Opcode::Message);
    crate::format::lemma_opcode_byte_round_trip(Opcode::Chunk);
    crate::format::lemma_opcode_byte_round_trip(Opcode::DataEnd);
    crate::format::lemma_opcode_byte_round_trip(Opcode::Schema);
    crate::format::lemma_opcode_byte_round_trip(Opcode::Channel);
    let cp = spec_channel_payload(cv.0, cv.1, cv.2, cv.3, cv.4);
    let crec = seq![(Opcode::Channel.byte(), cp)];
    lemma_channel_round_trip(cv.0, cv.1, cv.2, cv.3, cv.4);
    lemma_le_fields_round_trip(Seq::empty(), Seq::empty(), cv.0, (crate::format::str_bytes(cv.2).len() as u32), 0);
    lemma_le_fields_round_trip(Seq::empty(), Seq::empty(), 0, (crate::format::str_bytes(cv.3).len() as u32), 0);
    lemma_le_fields_round_trip(Seq::empty(), Seq::empty(), cv.1, (crate::encode::spec_map_body(cv.4).len() as u32), 0);
    assert(crate::encode::spec_str(cv.2).len() <= 4 + u32::MAX);
    assert(crate::encode::spec_str(cv.3).len() <= 4 + u32::MAX);
    assert(crate::encode::spec_map(cv.4).len() <= 4 + u32::MAX);
    assert(cp.len() <= 16 + 3 * (u32::MAX as int));
    assert(records_bytes(crec) =~= spec_channel_record(cv)) by {
        assert(records_bytes(crec.drop_first()) =~= Seq::<u8>::empty());
    }
    reveal_with_fuel(messages_of, 3);
    reveal_with_fuel(schemas_of, 3);
    reveal_with_fuel(channels_of, 3);
    match sv {
        Some(s) => {
            let sp = spec_schema_payload(s.0, s.1, s.2, s.3);
            let srec = seq![(Opcode::Schema.byte(), sp)];
            lemma_schema_round_trip(s.0, s.1, s.2, s.3);
            lemma_le_fields_round_trip(Seq::empty(), Seq::empty(), s.0, (crate::format::str_bytes(s.1).len() as u32), 0);
            lemma_le_fields_round_trip(Seq::empty(), Seq::empty(), 0, (crate::format::str_bytes(s.2).len() as u32), 0);
            lemma_le_fields_round_trip(Seq::empty(), Seq::empty(), 0, (s.3.len() as u32), 0);
            assert(sp.len() <= 14 + 3 * (u32::MAX as int));
            let rs = srec + crec;
            assert(rs =~= channel_records(sv, cv));
            assert(records_bytes(srec) =~= spec_schema_record(s)) by {
                assert(records_bytes(srec.drop_first()) =~= Seq::<u8>::empty());
            }
            lemma_records_bytes_concat(srec, crec);
            assert(all_readable(rs)) by {
                assert forall|i: int| 0 <= i < rs.len() implies readable_record(#[trigger] rs[i]) by {}
            }
            assert(rs.drop_first() =~= crec);
            assert(messages_of(rs) =~= Seq::<StepView>::empty());
            assert(schemas_of(rs) =~= seq![s]);
            assert(channels_of(rs) =~= seq![cv]);
        },
        None => {
            let rs = crec;
            assert(rs =~= channel_records(sv, cv));
            assert(records_bytes(rs) =~= Seq::<u8>::empty() + spec_channel_record(cv));
            assert(all_readable(rs)) by {
                assert forall|i: int| 0 <= i < rs.len() implies readable_record(#[trigger] rs[i]) by {}
            }
            assert(messages_of(rs) =~= Seq::<StepView>::empty());
            assert(schemas_of(rs) =~= Seq::<SchemaView>::empty());
            assert(channels_of(rs) =~= seq![cv]);
        },
    }
}

/// A call made on a writer: a message written, or a channel added.
pub enum WriteCall {
    /// A message written through `cw` with sequence number `sequence`
    /// (`ChannelWriter::write` takes the writer's next sequence number,
    /// `ChannelWriter::write_with_sequence` the one given).
    Message { cw: ChannelWriter, sequence: u32, log_time: u64, publish_time: u64, data: Seq<u8> },
    /// A channel added with `spec`, which handed back `cw`.
    Channel { spec: ChannelSpec, cw: ChannelWriter },
}

/// The call `c` on `a` succeeded, leaving `b`, and wrote to no chunk
/// stream of a channel's own.
pub open spec fn call_done(a: Writer, b: Writer, c: WriteCall) -> bool {
    match c {
        WriteCall::Message { cw, sequence, log_time, publish_time, data } => {
            &&& !cw.overridden()
            &&& message_write_outcome(a, b, cw, sequence, log_time, publish_time, data, Ok(()))
        },
        WriteCall::Channel { spec, cw } => {
            &&& spec.chunk_override is None
            &&& spec.metadata.well_formed()
            &&& a.spec_prelude_ok()
            &&& channel_added(a, b, spec, Ok(cw))
        },
    }
}

/// A message's bytes fit a slice.
pub open spec fn call_fits(c: WriteCall) -> bool {
    c matches WriteCall::Message { data, .. } ==> data.len() <= isize::MAX
}

/// The messages of a sequence of calls, in order, as the message stream yields them.
pub open spec fn written_messages(calls: Seq<WriteCall>) -> Seq<StepView>
    decreases calls.len(),
{
    if calls.len() == 0 {
        Seq::empty()
    } else {
        written_messages(calls.drop_last()) + match calls.last() {
            WriteCall::Message { cw, sequence, log_time, publish_time, data } =>
                seq![StepView::Emit(cw.id(), sequence, log_time, publish_time, data)],
            WriteCall::Channel { .. } => Seq::empty(),
        }
    }
}

/// The schemas newly written by a sequence of calls made on `ws[0]`,
/// `ws[1]`, ..., in order.
pub open spec fn written_schemas(ws: Seq<Writer>, calls: Seq<WriteCall>) -> Seq<SchemaView>
    decreases calls.len(),
{
    if calls.len() == 0 {
        Seq::empty()
    } else {
        written_schemas(ws, calls.drop_last()) + match calls.last() {
            WriteCall::Message { .. } => Seq::empty(),
            WriteCall::Channel { spec, .. } => match added_schema(ws[calls.len() - 1], spec) {
                Some(sv) => seq![sv],
                None => Seq::empty(),
            },
        }
    }
}

/// The channels written by a sequence of calls made on `ws[0]`, `ws[1]`,
/// ..., in order.
pub open spec fn written_channels(ws: Seq<Writer>, calls: Seq<WriteCall>) -> Seq<ChannelView>
    decreases calls.len(),
{
    if calls.len() == 0 {
        Seq::empty()
    } else {
        written_channels(ws, calls.drop_last()) + match calls.last() {
            WriteCall::Message { .. } => Seq::empty(),
            WriteCall::Channel { spec, .. } => seq![added_channel(ws[calls.len() - 1], spec)],
        }
    }
}

} // verus!
