//! What a writer writes, the message stream reads back: a file whose data
//! section holds top-level records and uncompressed chunks of Message
//! records is read, as a reader drives the stream block by block, as
//! exactly the messages of those records and chunks, in order; and random
//! access to the `n`-th message agrees with that order.

use vstd::prelude::*;
use crate::decode::{lemma_chunk_round_trip, lemma_le_fields_round_trip, spec_chunk_fields, spec_parse_message_header,
    spec_record_at};
use crate::encode::{le32, spec_record};
use crate::format::{Opcode, MESSAGE_HEADER_SIZE};
use crate::message_stream::{emit_view, lemma_nth_finds_nth, spec_block_messages, spec_blocks_messages, spec_counted_messages,
    spec_run_nth, spec_stream_step, BlockView, NthStepView, NthView, StepView, StreamView};
use crate::round_trip::spec_data_blocks;
use crate::round_trip::{all_readable, channels_of, data_end_record, lemma_record_at_concat, messages_of, plain_stream,
    readable_record, records_bytes, schemas_of};
use crate::stream::{spec_next_chunk_message, IndexProbe};
use crate::summary::{ChannelView, SchemaView};
use crate::chunk::{spec_chunk_crc, spec_chunk_record, spec_should_flush};
use crate::round_trip::lemma_nothing_to_flush;
use crate::writer::{added_channel, added_schema, finished_from, header_fits, pushed, spec_data_end_record, spec_finish_tail,
    spec_flush_bytes, spec_header_bytes, streams_flushed, Writer};
use crate::round_trip::fresh_stream;
use crate::decode::spec_header_payload;
use crate::format::spec_magic;
use crate::round_trip::{call_done, call_fits, channel_records, lemma_channel_records, lemma_concat_lists,
    lemma_records_bytes_concat, written_channels, written_messages, written_schemas, WriteCall};
use crate::decode::{lemma_message_round_trip, spec_message_fields, spec_message_record};

verus! {

/// The message stream run over the records of `d` from `pos` as a reader
/// drives it, for at most `fuel` steps: the next record block is handed
/// over only when the stream has asked for one (`give`), and the run ends
/// where the stream ends or fails, or where no record is left to hand over.
pub open spec fn spec_drive(st: StreamView, d: Seq<u8>, pos: int, give: bool, fuel: nat) -> (StreamView, Seq<StepView>)
    decreases fuel,
{
    if fuel == 0 {
        (st, Seq::empty())
    } else {
        let next = if give { spec_record_at(d, pos) } else { None };
        let (block, npos) = match next {
            Some((op, cs, nx)) => if pos < nx <= d.len() {
                (Some((op, d.subrange(cs, nx), None::<Seq<IndexProbe>>)), nx)
            } else {
                (None, pos)
            },
            None => (None, pos),
        };
        if give && block is None {
            (st, Seq::empty())
        } else {
            let (st1, v) = spec_stream_step(st, block);
            match v {
                StepView::Emit(..) => {
                    let (st2, rest) = spec_drive(st1, d, npos, false, (fuel - 1) as nat);
                    (st2, seq![v] + rest)
                },
                StepView::NeedBlock => spec_drive(st1, d, npos, true, (fuel - 1) as nat),
                _ => (st1, Seq::empty()),
            }
        }
    }
}

/// A record of the data section: a record other than a chunk, or an
/// uncompressed chunk given by its start and end times, its CRC and the
/// Message records it holds.
pub enum TopRecord {
    Plain(u8, Seq<u8>),
    Chunk(u64, u64, u32, Seq<(u8, Seq<u8>)>),
}

/// The payload of an uncompressed chunk of the records `ms`.
pub open spec fn chunk_payload(start: u64, end: u64, crc: u32, ms: Seq<(u8, Seq<u8>)>) -> Seq<u8> {
    let r = records_bytes(ms);
    spec_chunk_fields(start, end, r.len() as u64, crc, Seq::empty(), r.len() as u64) + r
}

/// The bytes of a record of the data section.
pub open spec fn top_bytes(t: TopRecord) -> Seq<u8> {
    match t {
        TopRecord::Plain(op, p) => spec_record(op, p),
        TopRecord::Chunk(s, e, c, ms) => spec_record(Opcode::Chunk.byte(), chunk_payload(s, e, c, ms)),
    }
}

/// The bytes of records of the data section laid one after another.
pub open spec fn tops_bytes(ts: Seq<TopRecord>) -> Seq<u8>
    decreases ts.len(),
{
    if ts.len() == 0 { Seq::empty() } else { top_bytes(ts[0]) + tops_bytes(ts.drop_first()) }
}

/// Every record of `ms` is a Message record whose fields decode.
pub open spec fn all_messages(ms: Seq<(u8, Seq<u8>)>) -> bool {
    &&& all_readable(ms)
    &&& forall|i: int| 0 <= i < ms.len() ==> (#[trigger] ms[i]).0 == Opcode::Message.byte()
}

/// A record of the data section that the stream reads through: a readable
/// record, or a chunk of Message records whose length fits its field.
pub open spec fn top_readable(t: TopRecord) -> bool {
    match t {
        TopRecord::Plain(op, p) => readable_record((op, p)),
        TopRecord::Chunk(_s, _e, _c, ms) => all_messages(ms) && records_bytes(ms).len() + 49 <= u64::MAX,
    }
}

/// The messages of a record of the data section, in order.
pub open spec fn top_messages(t: TopRecord) -> Seq<StepView> {
    match t {
        TopRecord::Plain(op, p) => messages_of(seq![(op, p)]),
        TopRecord::Chunk(_s, _e, _c, ms) => messages_of(ms),
    }
}

/// The messages of records of the data section, in order.
pub open spec fn tops_messages(ts: Seq<TopRecord>) -> Seq<StepView>
    decreases ts.len(),
{
    if ts.len() == 0 { Seq::empty() } else { top_messages(ts[0]) + tops_messages(ts.drop_first()) }
}

/// The schemas of records of the data section that decode, in order.
pub open spec fn tops_schemas(ts: Seq<TopRecord>) -> Seq<SchemaView>
    decreases ts.len(),
{
    if ts.len() == 0 {
        Seq::empty()
    } else {
        (match ts[0] {
            TopRecord::Plain(op, p) => schemas_of(seq![(op, p)]),
            TopRecord::Chunk(..) => Seq::empty(),
        }) + tops_schemas(ts.drop_first())
    }
}

/// The channels of records of the data section that decode, in order.
pub open spec fn tops_channels(ts: Seq<TopRecord>) -> Seq<ChannelView>
    decreases ts.len(),
{
    if ts.len() == 0 {
        Seq::empty()
    } else {
        (match ts[0] {
            TopRecord::Plain(op, p) => channels_of(seq![(op, p)]),
            TopRecord::Chunk(..) => Seq::empty(),
        }) + tops_channels(ts.drop_first())
    }
}

/// How many steps of the stream the records of the data section take at
/// most: two for a record other than a chunk, one more than its messages
/// for a chunk.
pub open spec fn tops_steps(ts: Seq<TopRecord>) -> nat
    decreases ts.len(),
{
    if ts.len() == 0 {
        0
    } else {
        (match ts[0] {
            TopRecord::Plain(..) => 2,
            TopRecord::Chunk(_s, _e, _c, ms) => ms.len() + 1,
        }) + tops_steps(ts.drop_first())
    }
}

/// The stream walking the chunk records `a + records_bytes(ms)` from the
/// end of `a` yields the messages of `ms`, in order, then drops the chunk
/// and asks for the next block.
proof fn lemma_walk(st: StreamView, d: Seq<u8>, npos: int, a: Seq<u8>, ms: Seq<(u8, Seq<u8>)>, fuel: nat)
    requires
        st.chunk == Some(a + records_bytes(ms)),
        st.position == a.len(),
        !st.done,
        st.time_range is None,
        !st.filtering,
        st.pending is None,
        all_messages(ms),
        fuel >= ms.len() + 1,
    ensures
        spec_drive(st, d, npos, false, fuel) == ({
            let (s2, m2) = spec_drive(StreamView { chunk: None, position: 0, ..st }, d, npos, true,
                (fuel - ms.len() - 1) as nat);
            (s2, messages_of(ms) + m2)
        }),
    decreases ms.len(),
{
    let r = a + records_bytes(ms);
    reveal_with_fuel(messages_of, 2);
    if ms.len() == 0 {
        assert(r =~= a);
        assert(spec_record_at(r, a.len() as int) is None);
        assert(spec_next_chunk_message(r, a.len() as int) is None);
        assert(messages_of(ms) =~= Seq::<StepView>::empty());
        let (s2, m2) = spec_drive(StreamView { chunk: None, position: 0, ..st }, d, npos, true, (fuel - 1) as nat);
        assert(messages_of(ms) + m2 =~= m2);
    } else {
        let (op, p) = ms[0];
        let rest = ms.drop_first();
        assert(readable_record(ms[0]));
        assert(ms[0].0 == Opcode::Message.byte());
        crate::format::lemma_opcode_byte_round_trip(Opcode::Message);
        assert(records_bytes(ms) == spec_record(op, p) + records_bytes(rest));
        assert(r =~= a + spec_record(op, p) + records_bytes(rest));
        lemma_record_at_concat(a, op, p, records_bytes(rest));
        let a2 = a + spec_record(op, p);
        assert(spec_record(op, p).len() == 9 + p.len()) by {
            lemma_le_fields_round_trip(seq![op], Seq::empty(), 0, 0, p.len() as u64);
        }
        assert(r =~= a2 + records_bytes(rest));
        let h = spec_parse_message_header(p)->Some_0;
        let cs: int = a.len() + 9int;
        let nx: int = a.len() + 9int + p.len();
        assert(spec_next_chunk_message(r, a.len() as int) == Some((h, cs, nx)));
        assert(r.subrange(cs + MESSAGE_HEADER_SIZE, nx) =~= p.subrange(MESSAGE_HEADER_SIZE as int, p.len() as int));
        assert(all_messages(rest)) by {
            assert forall|i: int| 0 <= i < rest.len() implies readable_record(#[trigger] rest[i]) && rest[i].0 == Opcode::Message.byte() by {
                assert(rest[i] == ms[i + 1]);
            }
        }
        let st1 = StreamView { chunk: Some(r), position: nx, ..st };
        let (s1, v) = spec_stream_step(st, None);
        assert(s1 == st1);
        lemma_walk(st1, d, npos, a2, rest, (fuel - 1) as nat);
        assert(StreamView { chunk: None, position: 0, ..st1 } == StreamView { chunk: None, position: 0, ..st });
        let (s2, m2) = spec_drive(StreamView { chunk: None, position: 0, ..st }, d, npos, true, (fuel - ms.len() - 1) as nat);
        assert(seq![v] + (messages_of(rest) + m2) =~= messages_of(ms) + m2);
    }
}

/// The payload of a chunk of `ms` has 40 bytes of fields before the
/// records, and decodes to its fields and records.
proof fn lemma_chunk_payload(start: u64, end: u64, crc: u32, ms: Seq<(u8, Seq<u8>)>)
    requires
        records_bytes(ms).len() + 49 <= u64::MAX,
    ensures
        chunk_payload(start, end, crc, ms).len() == 40 + records_bytes(ms).len(),
        crate::decode::spec_parse_chunk(chunk_payload(start, end, crc, ms)) == Some((start, end,
            records_bytes(ms).len() as u64, crc, Seq::<char>::empty(), records_bytes(ms))),
{
    let r = records_bytes(ms);
    lemma_le_fields_round_trip(Seq::empty(), Seq::empty(), 0, crc, start);
    lemma_le_fields_round_trip(Seq::empty(), Seq::empty(), 0, 0, end);
    lemma_le_fields_round_trip(Seq::empty(), Seq::empty(), 0, 0, r.len() as u64);
    assert(crate::format::str_bytes(Seq::<char>::empty()) =~= Seq::<u8>::empty());
    assert(crate::encode::spec_str(Seq::<char>::empty()).len() == 4);
    assert(spec_chunk_fields(start, end, r.len() as u64, crc, Seq::empty(), r.len() as u64).len() == 40);
    lemma_chunk_round_trip(start, end, r.len() as u64, crc, Seq::empty(), r);
}

/// The steps of the stream a record other than a chunk takes: a message
/// is yielded, then the next block asked for; anything else takes one step.
pub open spec fn plain_steps(op: u8) -> nat {
    if op == Opcode::Message.byte() { 2 } else { 1 }
}

/// One record other than a chunk, handed to a stream that holds nothing:
/// its message, if it is one, is yielded, and the stream asks for the next block.
proof fn lemma_drive_plain(st: StreamView, pre: Seq<u8>, op: u8, p: Seq<u8>, after: Seq<u8>, fuel: nat)
    requires
        plain_stream(st),
        st.position == 0,
        readable_record((op, p)),
        fuel >= 2,
    ensures
        ({
            let d = pre + spec_record(op, p) + after;
            let n = (pre + spec_record(op, p)).len() as int;
            let st1 = spec_stream_step(st, Some((op, p, None::<Seq<IndexProbe>>))).0;
            &&& plain_stream(st1)
            &&& st1.position == 0
            &&& st1.schemas == st.schemas + schemas_of(seq![(op, p)])
            &&& st1.channels == st.channels + channels_of(seq![(op, p)])
            &&& spec_drive(st, d, pre.len() as int, true, fuel) == ({
                let (s2, m2) = spec_drive(st1, d, n, true, (fuel - plain_steps(op)) as nat);
                (s2, messages_of(seq![(op, p)]) + m2)
            })
        }),
{
    let d = pre + spec_record(op, p) + after;
    crate::format::lemma_opcode_byte_round_trip(Opcode::DataEnd);
    crate::format::lemma_opcode_byte_round_trip(Opcode::Schema);
    crate::format::lemma_opcode_byte_round_trip(Opcode::Channel);
    crate::format::lemma_opcode_byte_round_trip(Opcode::Message);
    crate::format::lemma_opcode_byte_round_trip(Opcode::Chunk);
    reveal_with_fuel(messages_of, 2);
    reveal_with_fuel(schemas_of, 2);
    reveal_with_fuel(channels_of, 2);
    lemma_record_at_concat(pre, op, p, after);
    assert(spec_record(op, p).len() == 9 + p.len()) by {
        lemma_le_fields_round_trip(seq![op], Seq::empty(), 0, 0, p.len() as u64);
    }
    let st1 = spec_stream_step(st, Some((op, p, None::<Seq<IndexProbe>>))).0;
    assert(st.schemas + schemas_of(seq![(op, p)]) =~= st1.schemas);
    assert(st.channels + channels_of(seq![(op, p)]) =~= st1.channels);
    let n = (pre + spec_record(op, p)).len() as int;
    if op == Opcode::Message.byte() {
        assert(spec_stream_step(st1, None) == (st1, StepView::NeedBlock));
        let (s2, m2) = spec_drive(st1, d, n, true, (fuel - 2) as nat);
        assert(spec_drive(st1, d, n, false, (fuel - 1) as nat) == (s2, m2));
        assert(p.subrange(MESSAGE_HEADER_SIZE as int, p.len() as int) == p.subrange(MESSAGE_HEADER_SIZE as int, p.len() as int));
    } else {
        let (s2, m2) = spec_drive(st1, d, n, true, (fuel - 1) as nat);
        assert(messages_of(seq![(op, p)]) + m2 =~= m2);
    }
}

/// A chunk of Message records, handed to a stream that holds nothing: its
/// messages are yielded, in order, and the stream asks for the next block.
proof fn lemma_drive_chunk(st: StreamView, pre: Seq<u8>, s: u64, e: u64, c: u32, ms: Seq<(u8, Seq<u8>)>,
    after: Seq<u8>, fuel: nat)
    requires
        plain_stream(st),
        st.position == 0,
        top_readable(TopRecord::Chunk(s, e, c, ms)),
        fuel >= ms.len() + 1,
    ensures
        ({
            let t = spec_record(Opcode::Chunk.byte(), chunk_payload(s, e, c, ms));
            let d = pre + t + after;
            spec_drive(st, d, pre.len() as int, true, fuel) == ({
                let (s2, m2) = spec_drive(st, d, (pre + t).len() as int, true, (fuel - ms.len() - 1) as nat);
                (s2, messages_of(ms) + m2)
            })
        }),
{
    let r = records_bytes(ms);
    let pl = chunk_payload(s, e, c, ms);
    let t = spec_record(Opcode::Chunk.byte(), pl);
    let d = pre + t + after;
    crate::format::lemma_opcode_byte_round_trip(Opcode::DataEnd);
    crate::format::lemma_opcode_byte_round_trip(Opcode::Schema);
    crate::format::lemma_opcode_byte_round_trip(Opcode::Channel);
    crate::format::lemma_opcode_byte_round_trip(Opcode::Message);
    crate::format::lemma_opcode_byte_round_trip(Opcode::Chunk);
    lemma_chunk_payload(s, e, c, ms);
    lemma_record_at_concat(pre, Opcode::Chunk.byte(), pl, after);
    assert(t.len() == 9 + pl.len()) by {
        lemma_le_fields_round_trip(seq![Opcode::Chunk.byte()], Seq::empty(), 0, 0, pl.len() as u64);
    }
    let nx: int = (pre + t).len() as int;
    let stc = StreamView { chunk: Some(r), position: 0, ..st };
    assert(spec_stream_step(st, Some((Opcode::Chunk.byte(), pl, None::<Seq<IndexProbe>>))) == spec_stream_step(stc, None));
    assert(spec_drive(st, d, pre.len() as int, true, fuel) == spec_drive(stc, d, nx, false, fuel));
    assert(Seq::<u8>::empty() + r =~= r);
    lemma_walk(stc, d, nx, Seq::empty(), ms, fuel);
    assert(StreamView { chunk: None, position: 0, ..stc } == st);
}

/// The records of a data section laid one after another and closed by the
/// end of the data section are read back by the stream as a reader drives
/// it: it yields exactly their messages, those of each chunk in its place,
/// in order; caches their schemas and channels, in order; and ends at the
/// end of the data section.
#[verifier::rlimit(60)]
pub proof fn lemma_drive_tops(st: StreamView, pre: Seq<u8>, ts: Seq<TopRecord>, tail: Seq<u8>, fuel: nat)
    requires
        plain_stream(st),
        st.position == 0,
        forall|i: int| 0 <= i < ts.len() ==> top_readable(#[trigger] ts[i]),
        fuel >= tops_steps(ts) + 1,
    ensures
        ({
            let (fin, msgs) = spec_drive(st, pre + tops_bytes(ts) + data_end_record() + tail, pre.len() as int, true, fuel);
            &&& msgs == tops_messages(ts)
            &&& fin.done
            &&& fin.schemas == st.schemas + tops_schemas(ts)
            &&& fin.channels == st.channels + tops_channels(ts)
        }),
    decreases ts.len(),
{
    let d = pre + tops_bytes(ts) + data_end_record() + tail;
    if ts.len() == 0 {
        crate::format::lemma_opcode_byte_round_trip(Opcode::DataEnd);
        crate::format::lemma_opcode_byte_round_trip(Opcode::Chunk);
        crate::format::lemma_opcode_byte_round_trip(Opcode::Message);
        assert(le32(0).len() == 4) by { lemma_le_fields_round_trip(Seq::empty(), Seq::empty(), 0, 0, 0); }
        assert(d =~= pre + spec_record(Opcode::DataEnd.byte(), le32(0)) + tail);
        lemma_record_at_concat(pre, Opcode::DataEnd.byte(), le32(0), tail);
        assert(st.schemas + tops_schemas(ts) =~= st.schemas);
        assert(st.channels + tops_channels(ts) =~= st.channels);
    } else {
        let t = ts[0];
        let rest = ts.drop_first();
        assert(top_readable(t));
        assert forall|i: int| 0 <= i < rest.len() implies top_readable(#[trigger] rest[i]) by {
            assert(rest[i] == ts[i + 1]);
        }
        let after = tops_bytes(rest) + data_end_record() + tail;
        assert(d =~= pre + top_bytes(t) + after);
        let pre2 = pre + top_bytes(t);
        assert(d =~= pre2 + tops_bytes(rest) + data_end_record() + tail);
        assert(tops_messages(ts) == top_messages(t) + tops_messages(rest));
        match t {
            TopRecord::Plain(op, p) => {
                lemma_drive_plain(st, pre, op, p, after, fuel);
                let st1 = spec_stream_step(st, Some((op, p, None::<Seq<IndexProbe>>))).0;
                lemma_drive_tops(st1, pre2, rest, tail, (fuel - plain_steps(op)) as nat);
                assert(st.schemas + tops_schemas(ts) =~= st1.schemas + tops_schemas(rest));
                assert(st.channels + tops_channels(ts) =~= st1.channels + tops_channels(rest));
            },
            TopRecord::Chunk(s, e, c, ms) => {
                lemma_drive_chunk(st, pre, s, e, c, ms, after, fuel);
                lemma_drive_tops(st, pre2, rest, tail, (fuel - ms.len() - 1) as nat);
                assert(st.schemas + tops_schemas(ts) =~= st.schemas + tops_schemas(rest));
                assert(st.channels + tops_channels(ts) =~= st.channels + tops_channels(rest));
            },
        }
    }
}

/// Records other than chunks, as records of the data section.
pub open spec fn plain_tops(rs: Seq<(u8, Seq<u8>)>) -> Seq<TopRecord> {
    Seq::new(rs.len(), |i: int| TopRecord::Plain(rs[i].0, rs[i].1))
}

/// Records other than chunks read as records of the data section.
proof fn lemma_plain_tops(rs: Seq<(u8, Seq<u8>)>)
    ensures
        tops_bytes(plain_tops(rs)) == records_bytes(rs),
        tops_messages(plain_tops(rs)) == messages_of(rs),
        tops_schemas(plain_tops(rs)) == schemas_of(rs),
        tops_channels(plain_tops(rs)) == channels_of(rs),
        tops_steps(plain_tops(rs)) == 2 * rs.len(),
        all_readable(rs) ==> forall|i: int| 0 <= i < plain_tops(rs).len() ==> top_readable(#[trigger] plain_tops(rs)[i]),
    decreases rs.len(),
{
    let ts = plain_tops(rs);
    if rs.len() == 0 {
        assert(ts.len() == 0);
    } else {
        let rest = rs.drop_first();
        lemma_plain_tops(rest);
        assert(ts.drop_first() =~= plain_tops(rest));
        assert(ts[0] == TopRecord::Plain(rs[0].0, rs[0].1));
        assert(rs[0] == (rs[0].0, rs[0].1));
        reveal_with_fuel(messages_of, 2);
        reveal_with_fuel(schemas_of, 2);
        reveal_with_fuel(channels_of, 2);
        let one = seq![(rs[0].0, rs[0].1)];
        assert(one.drop_first() =~= Seq::<(u8, Seq<u8>)>::empty());
        assert(messages_of(rs) =~= messages_of(one) + messages_of(rest));
        assert(schemas_of(rs) =~= schemas_of(one) + schemas_of(rest));
        assert(channels_of(rs) =~= channels_of(one) + channels_of(rest));
        if all_readable(rs) {
            assert forall|i: int| 0 <= i < ts.len() implies top_readable(#[trigger] ts[i]) by {
                assert(readable_record(rs[i]));
                assert(rs[i] == (rs[i].0, rs[i].1));
            }
        }
    }
}

/// Records of the data section laid one after another: their bytes,
/// messages, schemas, channels and steps are those of each part.
proof fn lemma_tops_concat(a: Seq<TopRecord>, b: Seq<TopRecord>)
    ensures
        tops_bytes(a + b) == tops_bytes(a) + tops_bytes(b),
        tops_messages(a + b) == tops_messages(a) + tops_messages(b),
        tops_schemas(a + b) == tops_schemas(a) + tops_schemas(b),
        tops_channels(a + b) == tops_channels(a) + tops_channels(b),
        tops_steps(a + b) == tops_steps(a) + tops_steps(b),
    decreases a.len(),
{
    if a.len() == 0 {
        assert(a + b =~= b);
        assert(tops_bytes(a) + tops_bytes(b) =~= tops_bytes(b));
        assert(tops_messages(a) + tops_messages(b) =~= tops_messages(b));
        assert(tops_schemas(a) + tops_schemas(b) =~= tops_schemas(b));
        assert(tops_channels(a) + tops_channels(b) =~= tops_channels(b));
    } else {
        lemma_tops_concat(a.drop_first(), b);
        assert((a + b).drop_first() =~= a.drop_first() + b);
        assert((a + b)[0] == a[0]);
        assert(tops_bytes(a + b) =~= tops_bytes(a) + tops_bytes(b));
        assert(tops_messages(a + b) =~= tops_messages(a) + tops_messages(b));
        assert(tops_schemas(a + b) =~= tops_schemas(a) + tops_schemas(b));
        assert(tops_channels(a + b) =~= tops_channels(a) + tops_channels(b));
    }
}

/// A writer whose messages all go to the default chunk stream, if any: no
/// channel has a chunk stream of its own.
pub open spec fn single_stream(w: Writer) -> bool {
    forall|j: int| 0 <= j < w.override_streams().len() ==> (#[trigger] w.override_streams()[j]) is None
}

/// The default chunk stream of `w` buffers the Message records `b`, with
/// room left for its Chunk record; without one, nothing is buffered.
pub open spec fn buffer_holds(w: Writer, b: Seq<(u8, Seq<u8>)>) -> bool {
    match w.default_stream() {
        None => b.len() == 0,
        Some(st) => {
            &&& st.records@ == records_bytes(b)
            &&& all_messages(b)
            &&& st.has_messages == (b.len() > 0)
            &&& records_bytes(b).len() + 49 <= u64::MAX
        },
    }
}

/// What a flush pass of a writer with a single stream writes, as records
/// of the data section: the default chunk of the buffered records `b`,
/// when it is due.
pub open spec fn flushed_tops(w: Writer, b: Seq<(u8, Seq<u8>)>, force: bool) -> Seq<TopRecord> {
    match w.default_stream() {
        Some(st) => if spec_should_flush(st, force) {
            seq![TopRecord::Chunk(st.message_start_time, st.message_end_time, spec_chunk_crc(st), b)]
        } else {
            Seq::empty()
        },
        None => Seq::empty(),
    }
}

/// A flush pass of a writer with a single stream writes the default chunk
/// of the buffered records when it is due, which reads back as their messages.
proof fn lemma_flush_single(w: Writer, b: Seq<(u8, Seq<u8>)>, force: bool)
    requires
        single_stream(w),
        buffer_holds(w, b),
    ensures
        spec_flush_bytes(w.override_streams(), w.default_stream(), force) == tops_bytes(flushed_tops(w, b, force)),
        forall|i: int| 0 <= i < flushed_tops(w, b, force).len() ==> top_readable(#[trigger] flushed_tops(w, b, force)[i]),
        tops_schemas(flushed_tops(w, b, force)) == Seq::<SchemaView>::empty(),
        tops_channels(flushed_tops(w, b, force)) == Seq::<ChannelView>::empty(),
        flushed_tops(w, b, force).len() == 0 || tops_messages(flushed_tops(w, b, force)) == messages_of(b),
        flushed_tops(w, b, force).len() == 0 || tops_steps(flushed_tops(w, b, force)) == b.len() + 1,
        (force && b.len() > 0) ==> flushed_tops(w, b, force).len() > 0,
{
    lemma_nothing_to_flush(w.override_streams(), 0, force);
    let f = flushed_tops(w, b, force);
    reveal_with_fuel(tops_bytes, 2);
    reveal_with_fuel(tops_messages, 2);
    reveal_with_fuel(tops_schemas, 2);
    reveal_with_fuel(tops_channels, 2);
    reveal_with_fuel(tops_steps, 2);
    match w.default_stream() {
        Some(st) => if spec_should_flush(st, force) {
            let t = TopRecord::Chunk(st.message_start_time, st.message_end_time, spec_chunk_crc(st), b);
            lemma_chunk_payload(st.message_start_time, st.message_end_time, spec_chunk_crc(st), b);
            assert(f.drop_first() =~= Seq::<TopRecord>::empty());
            assert(top_bytes(t) =~= spec_chunk_record(st));
            assert(tops_bytes(f) =~= spec_chunk_record(st));
            assert(spec_flush_bytes(w.override_streams(), w.default_stream(), force) =~= spec_chunk_record(st));
            assert(tops_messages(f) =~= messages_of(b));
            assert(tops_schemas(f) =~= Seq::<SchemaView>::empty());
            assert(tops_channels(f) =~= Seq::<ChannelView>::empty());
        } else {
            assert(spec_flush_bytes(w.override_streams(), w.default_stream(), force) =~= Seq::<u8>::empty());
        },
        None => {
            assert(spec_flush_bytes(w.override_streams(), w.default_stream(), force) =~= Seq::<u8>::empty());
        },
    }
}

/// A message's record is a readable Message record that reads back as that message.
proof fn lemma_message_rec(ch: u16, sq: u32, lt: u64, pt: u64, data: Seq<u8>)
    requires
        data.len() <= isize::MAX,
    ensures
        ({
            let m = (Opcode::Message.byte(), spec_message_fields(ch, sq, lt, pt) + data);
            &&& all_messages(seq![m])
            &&& records_bytes(seq![m]) == spec_message_record(ch, sq, lt, pt, data)
            &&& records_bytes(seq![m]).len() == 31 + data.len()
            &&& messages_of(seq![m]) == seq![StepView::Emit(ch, sq, lt, pt, data)]
            &&& schemas_of(seq![m]) == Seq::<SchemaView>::empty()
            &&& channels_of(seq![m]) == Seq::<ChannelView>::empty()
        }),
{
    let p = spec_message_fields(ch, sq, lt, pt) + data;
    let rs = seq![(Opcode::Message.byte(), p)];
    lemma_message_round_trip(ch, sq, lt, pt, data);
    lemma_le_fields_round_trip(Seq::empty(), Seq::empty(), ch, sq, lt);
    lemma_le_fields_round_trip(Seq::empty(), Seq::empty(), 0, 0, pt);
    lemma_le_fields_round_trip(Seq::empty(), Seq::empty(), 0, 0, p.len() as u64);
    crate::format::lemma_opcode_byte_round_trip(Opcode::Message);
    crate::format::lemma_opcode_byte_round_trip(Opcode::Chunk);
    crate::format::lemma_opcode_byte_round_trip(Opcode::DataEnd);
    crate::format::lemma_opcode_byte_round_trip(Opcode::Schema);
    crate::format::lemma_opcode_byte_round_trip(Opcode::Channel);
    assert(records_bytes(rs) =~= spec_record(Opcode::Message.byte(), p)) by {
        assert(records_bytes(rs.drop_first()) =~= Seq::<u8>::empty());
    }
    assert(spec_message_record(ch, sq, lt, pt, data) =~= spec_record(Opcode::Message.byte(), p));
    assert(all_messages(rs)) by {
        assert forall|i: int| 0 <= i < rs.len() implies readable_record(#[trigger] rs[i]) && rs[i].0 == Opcode::Message.byte() by {}
    }
    reveal_with_fuel(messages_of, 2);
    reveal_with_fuel(schemas_of, 2);
    reveal_with_fuel(channels_of, 2);
    assert(p.subrange(MESSAGE_HEADER_SIZE as int, p.len() as int) =~= data);
    assert(messages_of(rs) =~= seq![StepView::Emit(ch, sq, lt, pt, data)]);
    assert(schemas_of(rs) =~= Seq::<SchemaView>::empty());
    assert(channels_of(rs) =~= Seq::<ChannelView>::empty());
}

/// One call on a writer with a single stream writes records of the data
/// section (a chunk when one falls due, and the call's own top-level
/// records) and leaves Message records buffered, so that what is written
/// and buffered holds, in order, the messages buffered before and the
/// call's message.
#[verifier::rlimit(40)]
proof fn lemma_single_call(a: Writer, b: Writer, c: WriteCall, buf: Seq<(u8, Seq<u8>)>)
    -> (r: (Seq<TopRecord>, Seq<(u8, Seq<u8>)>))
    requires
        single_stream(a),
        buffer_holds(a, buf),
        call_done(a, b, c),
        call_fits(c),
    ensures
        b.bytes() == a.bytes() + a.spec_header_part() + tops_bytes(r.0),
        b.header_written(),
        single_stream(b),
        buffer_holds(b, r.1),
        forall|i: int| 0 <= i < r.0.len() ==> top_readable(#[trigger] r.0[i]),
        tops_messages(r.0) + messages_of(r.1) == messages_of(buf) + written_messages(seq![c]),
        tops_schemas(r.0) == written_schemas(seq![a], seq![c]),
        tops_channels(r.0) == written_channels(seq![a], seq![c]),
        tops_steps(r.0) + r.1.len() <= buf.len() + 5,
{
    reveal_with_fuel(written_messages, 2);
    reveal_with_fuel(written_schemas, 2);
    reveal_with_fuel(written_channels, 2);
    reveal_with_fuel(messages_of, 1);
    let one = seq![c];
    assert(one.drop_last() =~= Seq::<WriteCall>::empty());
    assert(seq![a][0] == a);
    let empty = Seq::<(u8, Seq<u8>)>::empty();
    match c {
        WriteCall::Message { cw, sequence, log_time, publish_time, data } => {
            let m = (Opcode::Message.byte(), spec_message_fields(cw.id(), sequence, log_time, publish_time) + data);
            lemma_message_rec(cw.id(), sequence, log_time, publish_time, data);
            assert(written_messages(one) =~= seq![StepView::Emit(cw.id(), sequence, log_time, publish_time, data)]);
            assert(written_schemas(seq![a], one) =~= Seq::<SchemaView>::empty());
            assert(written_channels(seq![a], one) =~= Seq::<ChannelView>::empty());
            match a.default_stream() {
                None => {
                    let t = plain_tops(seq![m]);
                    lemma_plain_tops(seq![m]);
                    assert(b.bytes() == a.bytes() + a.spec_header_part() + tops_bytes(t));
                    assert(single_stream(b));
                    assert(buf.len() == 0);
                    assert(messages_of(buf) =~= Seq::<StepView>::empty());
                    assert(messages_of(empty) =~= Seq::<StepView>::empty());
                    assert(tops_messages(t) + messages_of(empty) =~= messages_of(buf) + written_messages(one));
                    (t, empty)
                },
                Some(st) => {
                    let base = a.start_position() + (a.bytes() + a.spec_header_part()).len();
                    let mid = choose|mid: Writer| {
                        &&& mid.override_streams() == a.override_streams()
                        &&& mid.chunk_indexes() == a.chunk_indexes()
                        &&& mid.default_stream() matches Some(p)
                            && pushed(st, p, cw.id(), sequence, log_time, publish_time, data)
                        &&& #[trigger] streams_flushed(mid, b, false, base)
                        &&& b.bytes() == a.bytes() + a.spec_header_part()
                            + spec_flush_bytes(mid.override_streams(), mid.default_stream(), false)
                    };
                    let p = mid.default_stream()->Some_0;
                    let b1 = buf + seq![m];
                    lemma_records_bytes_concat(buf, seq![m]);
                    lemma_concat_lists(buf, seq![m]);
                    assert(p.records@ == records_bytes(b1));
                    assert(all_messages(b1)) by {
                        assert forall|i: int| 0 <= i < b1.len() implies readable_record(#[trigger] b1[i])
                            && b1[i].0 == Opcode::Message.byte() by {
                            if i < buf.len() {
                                assert(b1[i] == buf[i]);
                            } else {
                                assert(b1[i] == m);
                                assert(seq![m][0] == m);
                            }
                        }
                    }
                    assert(single_stream(mid));
                    assert(buffer_holds(mid, b1));
                    lemma_flush_single(mid, b1, false);
                    let f = flushed_tops(mid, b1, false);
                    assert(single_stream(b)) by {
                        assert forall|j: int| 0 <= j < b.override_streams().len() implies (#[trigger] b.override_streams()[j]) is None by {
                            assert(mid.override_streams()[j] is None);
                        }
                    }
                    if spec_should_flush(p, false) {
                        assert(buffer_holds(b, empty));
                        assert(tops_messages(f) + messages_of(empty) =~= messages_of(buf) + written_messages(one));
                        (f, empty)
                    } else {
                        assert(f =~= Seq::<TopRecord>::empty());
                        assert(buffer_holds(b, b1));
                        assert(tops_messages(f) + messages_of(b1) =~= messages_of(buf) + written_messages(one));
                        (f, b1)
                    }
                },
            }
        },
        WriteCall::Channel { spec, cw } => {
            let sv = added_schema(a, spec);
            let cv = added_channel(a, spec);
            let rs = channel_records(sv, cv);
            lemma_channel_records(sv, cv);
            lemma_plain_tops(rs);
            let pt = plain_tops(rs);
            let mid = choose|mid: Writer| {
                &&& #[trigger] streams_flushed(a, mid, false, a.start_position() + (a.bytes() + a.spec_header_part()).len())
                &&& b.default_stream() == mid.default_stream()
                &&& b.chunk_indexes() == mid.chunk_indexes()
                &&& b.override_streams() == mid.override_streams()
            };
            lemma_flush_single(a, buf, false);
            let f = flushed_tops(a, buf, false);
            lemma_tops_concat(f, pt);
            let t = f + pt;
            assert(b.bytes() =~= a.bytes() + a.spec_header_part() + tops_bytes(t));
            assert(single_stream(b)) by {
                assert forall|j: int| 0 <= j < b.override_streams().len() implies (#[trigger] b.override_streams()[j]) is None by {
                    assert(a.override_streams()[j] is None);
                }
            }
            assert forall|i: int| 0 <= i < t.len() implies top_readable(#[trigger] t[i]) by {
                if i < f.len() {
                    assert(t[i] == f[i]);
                } else {
                    assert(t[i] == pt[i - f.len()]);
                }
            }
            assert(written_messages(one) =~= Seq::<StepView>::empty());
            assert(written_schemas(seq![a], one) =~= (match sv {
                Some(x) => seq![x],
                None => Seq::<SchemaView>::empty(),
            }));
            assert(written_channels(seq![a], one) =~= seq![cv]);
            assert(rs.len() <= 2);
            let flushing = match a.default_stream() { Some(st) => spec_should_flush(st, false), None => false };
            if flushing {
                assert(buffer_holds(b, empty));
                assert(tops_messages(t) + messages_of(empty) =~= messages_of(buf) + written_messages(one));
                (t, empty)
            } else {
                assert(f =~= Seq::<TopRecord>::empty());
                assert(buffer_holds(b, buf));
                assert(tops_messages(t) + messages_of(buf) =~= messages_of(buf) + written_messages(one));
                (t, buf)
            }
        },
    }
}

/// Random access counts the messages of chunk records `a + records_bytes(ms)`
/// from the end of `a` as the messages of `ms`, in order.
proof fn lemma_counted(a: Seq<u8>, ms: Seq<(u8, Seq<u8>)>)
    requires
        all_messages(ms),
    ensures
        ({
            let r = a + records_bytes(ms);
            let l = spec_counted_messages(r, a.len() as int, None);
            Seq::new(l.len(), |i: int| emit_view(l[i].0, r, l[i].1, l[i].2)) == messages_of(ms)
        }),
    decreases ms.len(),
{
    let r = a + records_bytes(ms);
    let l = spec_counted_messages(r, a.len() as int, None);
    reveal_with_fuel(messages_of, 2);
    if ms.len() == 0 {
        assert(r =~= a);
        assert(spec_record_at(r, a.len() as int) is None);
        assert(Seq::new(l.len(), |i: int| emit_view(l[i].0, r, l[i].1, l[i].2)) =~= messages_of(ms));
    } else {
        let (op, p) = ms[0];
        let rest = ms.drop_first();
        assert(readable_record(ms[0]));
        assert(ms[0].0 == Opcode::Message.byte());
        crate::format::lemma_opcode_byte_round_trip(Opcode::Message);
        assert(r =~= a + spec_record(op, p) + records_bytes(rest));
        lemma_record_at_concat(a, op, p, records_bytes(rest));
        let a2 = a + spec_record(op, p);
        assert(spec_record(op, p).len() == 9 + p.len()) by {
            lemma_le_fields_round_trip(seq![op], Seq::empty(), 0, 0, p.len() as u64);
        }
        assert(r =~= a2 + records_bytes(rest));
        assert(all_messages(rest)) by {
            assert forall|i: int| 0 <= i < rest.len() implies readable_record(#[trigger] rest[i]) && rest[i].0 == Opcode::Message.byte() by {
                assert(rest[i] == ms[i + 1]);
            }
        }
        lemma_counted(a2, rest);
        let h = spec_parse_message_header(p)->Some_0;
        let cs: int = a.len() + 9int;
        let nx: int = a.len() + 9int + p.len();
        let l2 = spec_counted_messages(r, nx, None);
        assert(l == seq![(h, cs, nx)] + l2);
        assert(r.subrange(cs + MESSAGE_HEADER_SIZE, nx) =~= p.subrange(MESSAGE_HEADER_SIZE as int, p.len() as int));
        let v1 = Seq::new(l.len(), |i: int| emit_view(l[i].0, r, l[i].1, l[i].2));
        let v2 = Seq::new(l2.len(), |i: int| emit_view(l2[i].0, r, l2[i].1, l2[i].2));
        assert(v1 =~= seq![emit_view(h, r, cs, nx)] + v2);
        assert(v1 =~= messages_of(ms));
    }
}

/// The records of a data section laid one after another and closed by the
/// end of the data section are, as record blocks, counted by random access:
/// their messages, those of each chunk in its place, in order.
pub proof fn lemma_data_blocks_tops(pre: Seq<u8>, ts: Seq<TopRecord>, tail: Seq<u8>)
    requires
        forall|i: int| 0 <= i < ts.len() ==> top_readable(#[trigger] ts[i]),
    ensures
        spec_blocks_messages(spec_data_blocks(pre + tops_bytes(ts) + data_end_record() + tail, pre.len() as int), None)
            == Some(tops_messages(ts)),
    decreases ts.len(),
{
    let d = pre + tops_bytes(ts) + data_end_record() + tail;
    crate::format::lemma_opcode_byte_round_trip(Opcode::DataEnd);
    crate::format::lemma_opcode_byte_round_trip(Opcode::Message);
    crate::format::lemma_opcode_byte_round_trip(Opcode::Chunk);
    reveal_with_fuel(messages_of, 2);
    if ts.len() == 0 {
        assert(le32(0).len() == 4) by { lemma_le_fields_round_trip(Seq::empty(), Seq::empty(), 0, 0, 0); }
        assert(d =~= pre + spec_record(Opcode::DataEnd.byte(), le32(0)) + tail);
        lemma_record_at_concat(pre, Opcode::DataEnd.byte(), le32(0), tail);
        assert(spec_data_blocks(d, pre.len() as int) =~= Seq::<BlockView>::empty());
        assert(tops_messages(ts) =~= Seq::<StepView>::empty());
    } else {
        let t = ts[0];
        let rest = ts.drop_first();
        assert(top_readable(t));
        assert forall|i: int| 0 <= i < rest.len() implies top_readable(#[trigger] rest[i]) by {
            assert(rest[i] == ts[i + 1]);
        }
        let after = tops_bytes(rest) + data_end_record() + tail;
        assert(d =~= pre + top_bytes(t) + after);
        let pre2 = pre + top_bytes(t);
        assert(d =~= pre2 + tops_bytes(rest) + data_end_record() + tail);
        lemma_data_blocks_tops(pre2, rest, tail);
        let (b, l): (BlockView, Seq<StepView>) = match t {
            TopRecord::Plain(op, p) => {
                lemma_record_at_concat(pre, op, p, after);
                assert(spec_record(op, p).len() == 9 + p.len()) by {
                    lemma_le_fields_round_trip(seq![op], Seq::empty(), 0, 0, p.len() as u64);
                }
                if op == Opcode::Message.byte() {
                    assert(p.subrange(MESSAGE_HEADER_SIZE as int, p.len() as int) == p.subrange(MESSAGE_HEADER_SIZE as int, p.len() as int));
                } else {
                    assert(messages_of(seq![(op, p)]) =~= Seq::<StepView>::empty());
                }
                ((op, p, None), messages_of(seq![(op, p)]))
            },
            TopRecord::Chunk(s0, e0, c0, ms) => {
                let pl = chunk_payload(s0, e0, c0, ms);
                lemma_chunk_payload(s0, e0, c0, ms);
                lemma_record_at_concat(pre, Opcode::Chunk.byte(), pl, after);
                assert(spec_record(Opcode::Chunk.byte(), pl).len() == 9 + pl.len()) by {
                    lemma_le_fields_round_trip(seq![Opcode::Chunk.byte()], Seq::empty(), 0, 0, pl.len() as u64);
                }
                let r = records_bytes(ms);
                lemma_counted(Seq::empty(), ms);
                assert(Seq::<u8>::empty() + r =~= r);
                ((Opcode::Chunk.byte(), pl, None), messages_of(ms))
            },
        };
        assert(spec_block_messages(b, None) == Some(l));
        assert(l == top_messages(t));
        let bs = spec_data_blocks(d, pre.len() as int);
        assert(bs == seq![b] + spec_data_blocks(d, pre2.len() as int));
        assert(bs.drop_first() =~= spec_data_blocks(d, pre2.len() as int));
        assert(bs[0] == b);
        assert(tops_messages(ts) == l + tops_messages(rest));
    }
}

/// Each call `calls[i]` on `ws[i]` succeeded, leaving `ws[i + 1]`, wrote
/// to no chunk stream of a channel's own, and carried a message whose bytes fit a slice.
#[verifier::opaque]
pub open spec fn calls_done(ws: Seq<Writer>, calls: Seq<WriteCall>) -> bool {
    forall|i: int| #![trigger calls[i]] 0 <= i < calls.len() ==> call_done(ws[i], ws[i + 1], calls[i]) && call_fits(calls[i])
}

/// The first `k` calls on a writer with a single stream have written the
/// header and records of the data section, and left Message records
/// buffered, that together hold the messages of those calls, in order,
/// and the schemas and channels they added.
#[verifier::rlimit(100)]
proof fn lemma_single_chain(ws: Seq<Writer>, calls: Seq<WriteCall>, k: int) -> (r: (Seq<TopRecord>, Seq<(u8, Seq<u8>)>))
    requires
        ws.len() == calls.len() + 1,
        0 <= k <= calls.len(),
        ws[0].bytes() == Seq::<u8>::empty(),
        !ws[0].header_written(),
        single_stream(ws[0]),
        buffer_holds(ws[0], Seq::empty()),
        calls_done(ws, calls),
    ensures
        ws[k].bytes() + ws[k].spec_header_part() == spec_header_bytes(ws[0].file_header()) + tops_bytes(r.0),
        single_stream(ws[k]),
        buffer_holds(ws[k], r.1),
        forall|i: int| 0 <= i < r.0.len() ==> top_readable(#[trigger] r.0[i]),
        tops_messages(r.0) + messages_of(r.1) == written_messages(calls.subrange(0, k)),
        tops_schemas(r.0) == written_schemas(ws, calls.subrange(0, k)),
        tops_channels(r.0) == written_channels(ws, calls.subrange(0, k)),
        tops_steps(r.0) + r.1.len() <= 5 * k,
    decreases k,
{
    if k == 0 {
        let ts = Seq::<TopRecord>::empty();
        let b = Seq::<(u8, Seq<u8>)>::empty();
        assert(calls.subrange(0, 0) =~= Seq::<WriteCall>::empty());
        assert(ws[0].bytes() + ws[0].spec_header_part() =~= spec_header_bytes(ws[0].file_header()) + tops_bytes(ts));
        assert(messages_of(b) =~= Seq::<StepView>::empty());
        assert(tops_messages(ts) + messages_of(b) =~= Seq::<StepView>::empty());
        (ts, b)
    } else {
        let (ts, b) = lemma_single_chain(ws, calls, k - 1);
        let j = k - 1;
        assert(call_done(ws[j], ws[j + 1], calls[j]) && call_fits(calls[j])) by { reveal(calls_done); }
        let (t, b2) = lemma_single_call(ws[j], ws[k], calls[j], b);
        lemma_tops_concat(ts, t);
        let ts2 = ts + t;
        assert(ws[k].spec_header_part() =~= Seq::<u8>::empty());
        assert(ws[k].bytes() + ws[k].spec_header_part()
            =~= spec_header_bytes(ws[0].file_header()) + tops_bytes(ts2));
        assert forall|i: int| 0 <= i < ts2.len() implies top_readable(#[trigger] ts2[i]) by {
            if i < ts.len() {
                assert(ts2[i] == ts[i]);
            } else {
                assert(ts2[i] == t[i - ts.len()]);
            }
        }
        let pre = calls.subrange(0, k);
        assert(pre.drop_last() =~= calls.subrange(0, j));
        assert(pre.last() == calls[j]);
        assert(pre.len() - 1 == j);
        let one = seq![calls[j]];
        assert(one.drop_last() =~= Seq::<WriteCall>::empty());
        assert(one.last() == calls[j]);
        reveal_with_fuel(written_messages, 2);
        reveal_with_fuel(written_schemas, 2);
        reveal_with_fuel(written_channels, 2);
        assert(seq![ws[j]][0] == ws[j]);
        assert(written_messages(pre) =~= written_messages(calls.subrange(0, j)) + written_messages(one));
        assert(written_schemas(ws, pre) =~= written_schemas(ws, calls.subrange(0, j)) + written_schemas(seq![ws[j]], one));
        assert(written_channels(ws, pre) =~= written_channels(ws, calls.subrange(0, j)) + written_channels(seq![ws[j]], one));
        let ma = tops_messages(ts);
        let mt = tops_messages(t);
        assert(mt + messages_of(b2) == messages_of(b) + written_messages(one));
        assert(ma + messages_of(b) == written_messages(calls.subrange(0, j)));
        assert(ma + mt + messages_of(b2) =~= ma + (mt + messages_of(b2)));
        assert(ma + (messages_of(b) + written_messages(one)) =~= (ma + messages_of(b)) + written_messages(one));
        assert(tops_messages(ts2) + messages_of(b2) =~= written_messages(pre));
        (ts2, b2)
    }
}

/// What a writer writes, the message stream reads back, chunked or not. A
/// writer built with or without chunking (no channel with a chunk stream of
/// its own), on which messages are written and channels added one call
/// after another, and which is then finished, produces a file over which
/// the message stream, driven by a reader from the start of the data
/// section for enough steps (five per call and four more), yields exactly
/// the messages written, in order, with their channel ids, sequence
/// numbers, times and data; caches exactly the schemas and channels
/// written, in order; and ends at the end of the data section.
#[verifier::rlimit(100)]
pub proof fn lemma_writer_round_trip(ws: Seq<Writer>, calls: Seq<WriteCall>, fin: Writer, fuel: nat)
    requires
        ws.len() == calls.len() + 1,
        ws[0].bytes() == Seq::<u8>::empty(),
        !ws[0].header_written(),
        single_stream(ws[0]),
        ws[0].default_stream() matches Some(st) ==> st.records@.len() == 0 && !st.has_messages,
        calls_done(ws, calls),
        finished_from(ws.last(), fin),
        fuel >= 5 * calls.len() + 4,
    ensures
        ({
            let (st, msgs) = spec_drive(fresh_stream(), fin.bytes(), spec_magic().len() as int, true, fuel);
            &&& msgs == written_messages(calls)
            &&& st.schemas == written_schemas(ws, calls)
            &&& st.channels == written_channels(ws, calls)
            &&& st.done
        }),
        spec_blocks_messages(spec_data_blocks(fin.bytes(), spec_magic().len() as int), None)
            == Some(written_messages(calls)),
{
    let n = calls.len() as int;
    assert(records_bytes(Seq::<(u8, Seq<u8>)>::empty()) =~= Seq::<u8>::empty());
    assert(all_messages(Seq::<(u8, Seq<u8>)>::empty()));
    assert(buffer_holds(ws[0], Seq::empty())) by {
        if let Some(st) = ws[0].default_stream() {
            assert(st.records@ =~= records_bytes(Seq::<(u8, Seq<u8>)>::empty()));
        }
    }
    let (ts, b) = lemma_single_chain(ws, calls, n);
    assert(calls.subrange(0, n) =~= calls);
    let w = ws.last();
    assert(w == ws[n]);
    lemma_flush_single(w, b, true);
    let f = flushed_tops(w, b, true);
    if n > 0 {
        assert(ws[0].spec_prelude_ok()) by {
            reveal(calls_done);
            assert(call_done(ws[0], ws[1], calls[0]));
        }
    }
    assert(header_fits(ws[0].file_header()));
    let h = ws[0].file_header();
    let hp = spec_header_payload(h.profile@, h.library@, h.metadata@);
    lemma_le_fields_round_trip(Seq::empty(), Seq::empty(), 0, (crate::format::str_bytes(h.profile@).len() as u32), 0);
    lemma_le_fields_round_trip(Seq::empty(), Seq::empty(), 0, (crate::format::str_bytes(h.library@).len() as u32), 0);
    lemma_le_fields_round_trip(Seq::empty(), Seq::empty(), 0,
        (crate::encode::spec_map_body(h.metadata@).len() as u32), 0);
    assert(hp.len() <= 12 + 3 * (u32::MAX as int));
    crate::format::lemma_opcode_byte_round_trip(Opcode::Header);
    crate::format::lemma_opcode_byte_round_trip(Opcode::Chunk);
    crate::format::lemma_opcode_byte_round_trip(Opcode::DataEnd);
    crate::format::lemma_opcode_byte_round_trip(Opcode::Message);
    let head = plain_tops(seq![(Opcode::Header.byte(), hp)]);
    lemma_plain_tops(seq![(Opcode::Header.byte(), hp)]);
    assert(all_readable(seq![(Opcode::Header.byte(), hp)])) by {
        assert forall|i: int| 0 <= i < 1 implies readable_record(#[trigger] seq![(Opcode::Header.byte(), hp)][i]) by {}
    }
    assert(records_bytes(seq![(Opcode::Header.byte(), hp)]) =~= spec_record(Opcode::Header.byte(), hp)) by {
        assert(records_bytes(seq![(Opcode::Header.byte(), hp)].drop_first()) =~= Seq::<u8>::empty());
    }
    reveal_with_fuel(messages_of, 2);
    reveal_with_fuel(schemas_of, 2);
    reveal_with_fuel(channels_of, 2);
    assert(messages_of(seq![(Opcode::Header.byte(), hp)]) =~= Seq::<StepView>::empty());
    assert(schemas_of(seq![(Opcode::Header.byte(), hp)]) =~= Seq::<SchemaView>::empty());
    assert(channels_of(seq![(Opcode::Header.byte(), hp)]) =~= Seq::<ChannelView>::empty());
    lemma_tops_concat(head, ts);
    lemma_tops_concat(head + ts, f);
    let all = head + ts + f;
    let tail = spec_finish_tail(fin, w.start_position()
        + (w.bytes() + w.spec_header_part() + spec_flush_bytes(w.override_streams(), w.default_stream(), true)
            + spec_data_end_record()).len());
    assert(spec_header_bytes(h) == spec_magic() + tops_bytes(head));
    assert(fin.bytes() =~= spec_magic() + tops_bytes(all) + data_end_record() + tail);
    assert forall|i: int| 0 <= i < all.len() implies top_readable(#[trigger] all[i]) by {
        if i < head.len() {
            assert(all[i] == head[i]);
        } else if i < head.len() + ts.len() {
            assert(all[i] == ts[i - head.len()]);
        } else {
            assert(all[i] == f[i - head.len() - ts.len()]);
        }
    }
    if f.len() == 0 {
        assert(b.len() == 0);
        assert(messages_of(b) =~= Seq::<StepView>::empty());
        assert(tops_messages(f) =~= Seq::<StepView>::empty());
    }
    assert(tops_messages(f) == messages_of(b));
    assert(tops_steps(f) <= b.len() + 1);
    assert(tops_steps(all) + 1 <= fuel);
    lemma_drive_tops(fresh_stream(), spec_magic(), all, tail, fuel);
    lemma_data_blocks_tops(spec_magic(), all, tail);
    assert(tops_messages(all) =~= written_messages(calls));
    assert(fresh_stream().schemas + tops_schemas(all) =~= written_schemas(ws, calls));
    assert(fresh_stream().channels + tops_channels(all) =~= written_channels(ws, calls));
}

/// Random access agrees with iteration, chunked or not: over the file a
/// writer with a single stream wrote and finished, random access to the
/// `n`-th message, fed the record blocks of the data section, gives the
/// `n`-th message the message stream yields, or reports that there are fewer.
pub proof fn lemma_writer_nth(ws: Seq<Writer>, calls: Seq<WriteCall>, fin: Writer, fuel: nat, n: nat)
    requires
        ws.len() == calls.len() + 1,
        ws[0].bytes() == Seq::<u8>::empty(),
        !ws[0].header_written(),
        single_stream(ws[0]),
        ws[0].default_stream() matches Some(st) ==> st.records@.len() == 0 && !st.has_messages,
        calls_done(ws, calls),
        finished_from(ws.last(), fin),
        fuel >= 5 * calls.len() + 4,
    ensures
        ({
            let msgs = spec_drive(fresh_stream(), fin.bytes(), spec_magic().len() as int, true, fuel).1;
            let v = spec_run_nth(NthView { remaining: n, ended: false, time_range: None },
                spec_data_blocks(fin.bytes(), spec_magic().len() as int)).1;
            if n < msgs.len() { v == NthStepView::Found(msgs[n as int]) } else { v == NthStepView::NotFound }
        }),
{
    lemma_writer_round_trip(ws, calls, fin, fuel);
    lemma_nth_finds_nth(n, None, spec_data_blocks(fin.bytes(), spec_magic().len() as int));
}

} // verus!
