//! The chunk streams of a writer: the default stream, the per-channel
//! override streams, and the index entries of the chunks already written.

use vstd::prelude::*;
use crate::chunk::{ChunkState, spec_should_flush, spec_chunk_record, spec_flushed, prepare_chunk_for_write};
use crate::sink::{OutputBuffer, sat};

verus! {

/// Index entry of a chunk already written.
#[derive(Debug, Clone)]
pub struct ChunkIndexInfo {
    /// Earliest log time in the chunk.
    pub message_start_time: u64,
    /// Latest log time in the chunk.
    pub message_end_time: u64,
    /// File offset of the Chunk record.
    pub chunk_start_offset: u64,
    /// Total length of the Chunk record.
    pub chunk_length: u64,
    /// Compression of the chunk records.
    pub compression: String,
    /// Size of the (compressed) records.
    pub compressed_size: u64,
    /// Size of the uncompressed records.
    pub uncompressed_size: u64,
}

/// `info` indexes the uncompressed Chunk record of `st` written at `pos`.
pub open spec fn info_is(info: ChunkIndexInfo, st: ChunkState, pos: u64) -> bool {
    &&& info.message_start_time == st.message_start_time
    &&& info.message_end_time == st.message_end_time
    &&& info.chunk_start_offset == pos
    &&& info.chunk_length == 49 + st.records@.len()
    &&& info.compression@ == Seq::<char>::empty()
    &&& info.compressed_size == st.records@.len()
    &&& info.uncompressed_size == st.records@.len()
}

/// A chunk's records are short enough for the lengths written about them.
pub open spec fn state_fits(st: ChunkState) -> bool {
    st.records@.len() + 49 <= u64::MAX
}

/// Every buffered chunk fits its length fields.
pub open spec fn slots_fit(ov: Seq<Option<ChunkState>>) -> bool {
    forall|j: int| 0 <= j < ov.len() ==> (#[trigger] ov[j] matches Some(st) ==> state_fits(st))
}

/// The chunk streams of a writer.
pub struct ChunkStreams {
    /// The default chunk stream, when the writer is chunked.
    pub default: Option<ChunkState>,
    /// Per-channel override streams, indexed by channel id.
    pub overrides: Vec<Option<ChunkState>>,
    /// Index entries of the chunks written so far.
    pub indexes: Vec<ChunkIndexInfo>,
}

/// The chunk states flushed from override slots `i..`, in order.
pub open spec fn spec_ov_flushed(ov: Seq<Option<ChunkState>>, i: int, force: bool) -> Seq<ChunkState>
    decreases ov.len() - i,
{
    if i < 0 || i >= ov.len() {
        Seq::empty()
    } else {
        match ov[i] {
            Some(st) => if spec_should_flush(st, force) {
                seq![st] + spec_ov_flushed(ov, i + 1, force)
            } else {
                spec_ov_flushed(ov, i + 1, force)
            },
            None => spec_ov_flushed(ov, i + 1, force),
        }
    }
}

/// The Chunk records of `states`, back to back.
pub open spec fn concat_records(states: Seq<ChunkState>) -> Seq<u8>
    decreases states.len(),
{
    if states.len() == 0 {
        Seq::empty()
    } else {
        spec_chunk_record(states[0]) + concat_records(states.drop_first())
    }
}

/// The bytes written when flushing override slots `i..` in order.
pub open spec fn spec_ov_flush(ov: Seq<Option<ChunkState>>, i: int, force: bool) -> Seq<u8> {
    concat_records(spec_ov_flushed(ov, i, force))
}

/// The override slots after a flush pass: slots due for a flush are emptied.
pub open spec fn slots_after_flush(old_ov: Seq<Option<ChunkState>>, new_ov: Seq<Option<ChunkState>>, force: bool) -> bool {
    &&& new_ov.len() == old_ov.len()
    &&& forall|j: int| 0 <= j < old_ov.len() ==> {
        if (#[trigger] old_ov[j]) is Some && spec_should_flush(old_ov[j]->Some_0, force) {
            new_ov[j] matches Some(nst) && spec_flushed(old_ov[j]->Some_0, nst)
        } else {
            new_ov[j] == old_ov[j]
        }
    }
}

/// The chunk index entries `added` describe the chunk records of `states`
/// written back to back starting at `base`.
pub open spec fn indexes_describe(added: Seq<ChunkIndexInfo>, states: Seq<ChunkState>, base: int) -> bool
    decreases states.len(),
{
    if states.len() == 0 {
        added.len() == 0
    } else {
        &&& added.len() == states.len()
        &&& info_is(added[0], states[0], sat(base))
        &&& indexes_describe(added.drop_first(), states.drop_first(), base + spec_chunk_record(states[0]).len())
    }
}

/// Flush the default stream when forced or at its size threshold.
pub fn flush_default(streams: &mut ChunkStreams, out: &mut OutputBuffer, force: bool)
    requires
        old(out).well_formed(),
        old(streams).default matches Some(st) ==> state_fits(st),
    ensures
        final(out).well_formed(),
        final(out).start() == old(out).start(),
        final(out).taken_len() == old(out).taken_len(),
        final(streams).overrides == old(streams).overrides,
        match old(streams).default {
            Some(st) => if spec_should_flush(st, force) {
                &&& final(out).bytes() == old(out).bytes() + spec_chunk_record(st)
                &&& final(streams).indexes@.len() == old(streams).indexes@.len() + 1
                &&& final(streams).indexes@.drop_last() == old(streams).indexes@
                &&& info_is(final(streams).indexes@.last(), st, old(out).spec_position())
                &&& final(streams).default matches Some(nst) && spec_flushed(st, nst)
            } else {
                &&& final(out).bytes() == old(out).bytes()
                &&& final(streams).indexes == old(streams).indexes
                &&& final(streams).default == old(streams).default
            },
            None => {
                &&& final(out).bytes() == old(out).bytes()
                &&& final(streams).indexes == old(streams).indexes
                &&& final(streams).default == old(streams).default
            },
        },
{
    let pos = out.position();
    match &mut streams.default {
        Some(state) => {
            if !state.should_flush(force) {
                return;
            }
            let ghost st = *state;
            let flush = state.take_for_flush();
            let prepared = prepare_chunk_for_write(pos, &flush);
            let ghost before = out.bytes();
            out.append(prepared.record_header.as_slice());
            out.append(prepared.record_prefix.as_slice());
            out.append(flush.records.as_slice());
            assert(out.bytes() =~= before + spec_chunk_record(st));
            let ghost old_idx = streams.indexes@;
            streams.indexes.push(ChunkIndexInfo {
                message_start_time: flush.message_start_time,
                message_end_time: flush.message_end_time,
                chunk_start_offset: prepared.chunk_start_offset,
                chunk_length: prepared.chunk_length,
                compression: String::new(),
                compressed_size: flush.uncompressed_size,
                uncompressed_size: flush.uncompressed_size,
            });
            assert(streams.indexes@.drop_last() =~= old_idx);
        },
        None => {},
    }
}

/// Flush override slot `idx` when forced or at its size threshold.
pub fn flush_override(streams: &mut ChunkStreams, out: &mut OutputBuffer, idx: usize, force: bool)
    requires
        old(out).well_formed(),
        slots_fit(old(streams).overrides@),
    ensures
        final(out).well_formed(),
        final(out).start() == old(out).start(),
        final(out).taken_len() == old(out).taken_len(),
        final(streams).default == old(streams).default,
        final(streams).overrides@.len() == old(streams).overrides@.len(),
        forall|j: int| 0 <= j < old(streams).overrides@.len() && j != idx
            ==> #[trigger] final(streams).overrides@[j] == old(streams).overrides@[j],
        if idx < old(streams).overrides@.len() && (old(streams).overrides@[idx as int] matches Some(st)
            && spec_should_flush(st, force)) {
            let st = old(streams).overrides@[idx as int]->Some_0;
            &&& final(out).bytes() == old(out).bytes() + spec_chunk_record(st)
            &&& final(streams).indexes@.len() == old(streams).indexes@.len() + 1
            &&& final(streams).indexes@.drop_last() == old(streams).indexes@
            &&& info_is(final(streams).indexes@.last(), st, old(out).spec_position())
            &&& final(streams).overrides@[idx as int] matches Some(nst) && spec_flushed(st, nst)
        } else {
            &&& final(out).bytes() == old(out).bytes()
            &&& final(streams).indexes == old(streams).indexes
            &&& final(streams).overrides == old(streams).overrides
        },
{
    if idx >= streams.overrides.len() {
        return;
    }
    let pos = out.position();
    let should = match &streams.overrides[idx] {
        Some(state) => state.should_flush(force),
        None => false,
    };
    if !should {
        return;
    }
    let mut slot: Option<ChunkState> = None;
    let ghost old_ov = streams.overrides@;
    std::mem::swap(&mut slot, &mut streams.overrides[idx]);
    let mut state = slot.unwrap();
    assert(state_fits(state)) by {
        assert(old_ov[idx as int] matches Some(s) ==> state_fits(s));
    }
    let ghost st = state;
    let flush = state.take_for_flush();
    let prepared = prepare_chunk_for_write(pos, &flush);
    let ghost before = out.bytes();
    out.append(prepared.record_header.as_slice());
    out.append(prepared.record_prefix.as_slice());
    out.append(flush.records.as_slice());
    assert(out.bytes() =~= before + spec_chunk_record(st));
    let ghost old_idx = streams.indexes@;
    streams.indexes.push(ChunkIndexInfo {
        message_start_time: flush.message_start_time,
        message_end_time: flush.message_end_time,
        chunk_start_offset: prepared.chunk_start_offset,
        chunk_length: prepared.chunk_length,
        compression: String::new(),
        compressed_size: flush.uncompressed_size,
        uncompressed_size: flush.uncompressed_size,
    });
    assert(streams.indexes@.drop_last() =~= old_idx);
    streams.overrides.set(idx, Some(state));
}


/// Chunk records of two runs of states, back to back.
pub proof fn lemma_concat_records_append(a: Seq<ChunkState>, b: Seq<ChunkState>)
    ensures
        concat_records(a + b) == concat_records(a) + concat_records(b),
    decreases a.len(),
{
    if a.len() == 0 {
        assert(a + b =~= b);
        assert(concat_records(a) + concat_records(b) =~= concat_records(b));
    } else {
        lemma_concat_records_append(a.drop_first(), b);
        assert((a + b).drop_first() =~= a.drop_first() + b);
        assert((a + b)[0] == a[0]);
        assert(concat_records(a + b) =~= concat_records(a) + concat_records(b));
    }
}

/// Describing one more chunk written right after the others.
pub proof fn lemma_indexes_describe_push(
    added: Seq<ChunkIndexInfo>,
    states: Seq<ChunkState>,
    base: int,
    info: ChunkIndexInfo,
    st: ChunkState,
)
    requires
        indexes_describe(added, states, base),
        info_is(info, st, sat(base + concat_records(states).len())),
    ensures
        indexes_describe(added.push(info), states.push(st), base),
    decreases states.len(),
{
    if states.len() == 0 {
        assert(added.push(info).drop_first() =~= Seq::<ChunkIndexInfo>::empty());
        assert(states.push(st).drop_first() =~= Seq::<ChunkState>::empty());
        assert(concat_records(states) =~= Seq::<u8>::empty());
        assert(added.push(info)[0] == info);
        assert(states.push(st)[0] == st);
        assert(added.push(info).len() == 1);
        assert(indexes_describe(Seq::<ChunkIndexInfo>::empty(), Seq::<ChunkState>::empty(),
            base + spec_chunk_record(st).len()));
    } else {
        assert(concat_records(states).len() == spec_chunk_record(states[0]).len()
            + concat_records(states.drop_first()).len());
        assert(added.push(info)[0] == added[0]);
        assert(states.push(st)[0] == states[0]);
        lemma_indexes_describe_push(
            added.drop_first(),
            states.drop_first(),
            base + spec_chunk_record(states[0]).len(),
            info,
            st,
        );
        assert(added.push(info).drop_first() =~= added.drop_first().push(info));
        assert(states.push(st).drop_first() =~= states.drop_first().push(st));
    }
}

/// Flush every override slot that is forced or at its size threshold, in slot order.
pub fn flush_overrides_all(streams: &mut ChunkStreams, out: &mut OutputBuffer, force: bool)
    requires
        old(out).well_formed(),
        slots_fit(old(streams).overrides@),
    ensures
        final(out).well_formed(),
        final(out).start() == old(out).start(),
        final(out).taken_len() == old(out).taken_len(),
        final(streams).default == old(streams).default,
        final(out).bytes() == old(out).bytes() + spec_ov_flush(old(streams).overrides@, 0, force),
        slots_after_flush(old(streams).overrides@, final(streams).overrides@, force),
        final(streams).indexes@.len() >= old(streams).indexes@.len(),
        final(streams).indexes@.subrange(0, old(streams).indexes@.len() as int) == old(streams).indexes@,
        indexes_describe(
            final(streams).indexes@.subrange(old(streams).indexes@.len() as int, final(streams).indexes@.len() as int),
            spec_ov_flushed(old(streams).overrides@, 0, force),
            old(out).start() + old(out).bytes().len(),
        ),
{
    let ghost ov0 = streams.overrides@;
    let ghost b0 = out.bytes();
    let ghost i0 = streams.indexes@;
    let ghost base0 = out.start() + out.bytes().len();
    let n = streams.overrides.len();
    let mut i: usize = 0;
    proof {
        assert(spec_ov_flushed(ov0, 0, force) =~= Seq::<ChunkState>::empty() + spec_ov_flushed(ov0, 0, force));
        assert(streams.indexes@.subrange(i0.len() as int, streams.indexes@.len() as int) =~= Seq::<ChunkIndexInfo>::empty());
    }
    let ghost mut done: Seq<ChunkState> = Seq::empty();
    while i < n
        invariant
            n == ov0.len(),
            i <= n,
            out.well_formed(),
            out.start() == old(out).start(),
            out.taken_len() == old(out).taken_len(),
            base0 == out.start() + b0.len(),
            streams.default == old(streams).default,
            streams.overrides@.len() == n,
            spec_ov_flushed(ov0, 0, force) == done + spec_ov_flushed(ov0, i as int, force),
            out.bytes() == b0 + concat_records(done),
            forall|j: int| i <= j < n ==> #[trigger] streams.overrides@[j] == ov0[j],
            forall|j: int| 0 <= j < i ==> {
                if (#[trigger] ov0[j]) is Some && spec_should_flush(ov0[j]->Some_0, force) {
                    streams.overrides@[j] matches Some(nst) && spec_flushed(ov0[j]->Some_0, nst)
                } else {
                    streams.overrides@[j] == ov0[j]
                }
            },
            slots_fit(ov0),
            slots_fit(streams.overrides@),
            streams.indexes@.len() >= i0.len(),
            streams.indexes@.subrange(0, i0.len() as int) == i0,
            indexes_describe(streams.indexes@.subrange(i0.len() as int, streams.indexes@.len() as int), done, base0),
        decreases n - i,
    {
        let ghost before_idx = streams.indexes@;
        let ghost before_ov = streams.overrides@;
        let ghost before_bytes = out.bytes();
        flush_override(streams, out, i, force);
        proof {
            assert(before_ov[i as int] == ov0[i as int]);
            if ov0[i as int] is Some && spec_should_flush(ov0[i as int]->Some_0, force) {
                let st = ov0[i as int]->Some_0;
                assert(spec_ov_flushed(ov0, i as int, force) == seq![st] + spec_ov_flushed(ov0, i + 1, force));
                assert(done + spec_ov_flushed(ov0, i as int, force) =~= done.push(st) + spec_ov_flushed(ov0, i + 1, force));
                lemma_concat_records_append(done, seq![st]);
                assert(concat_records(seq![st]) =~= spec_chunk_record(st)) by {
                    assert(seq![st].drop_first() =~= Seq::<ChunkState>::empty());
                    assert(concat_records(Seq::<ChunkState>::empty()) =~= Seq::<u8>::empty());
                    assert(seq![st][0] == st);
                }
                assert(done + seq![st] =~= done.push(st));
                let added = before_idx.subrange(i0.len() as int, before_idx.len() as int);
                let info = streams.indexes@.last();
                assert(before_bytes.len() == b0.len() + concat_records(done).len());
                lemma_indexes_describe_push(added, done, base0, info, st);
                assert(streams.indexes@.subrange(i0.len() as int, streams.indexes@.len() as int) =~= added.push(info)) by {
                    assert(streams.indexes@.drop_last() == before_idx);
                }
                assert(streams.indexes@.subrange(0, i0.len() as int) =~= i0) by {
                    assert(streams.indexes@.drop_last() == before_idx);
                    assert forall|k: int| 0 <= k < i0.len() implies streams.indexes@[k] == i0[k] by {
                        assert(before_idx.subrange(0, i0.len() as int)[k] == i0[k]);
                    }
                }
                done = done.push(st);
            } else {
                assert(spec_ov_flushed(ov0, i as int, force) == spec_ov_flushed(ov0, i + 1, force));
            }
            assert forall|j: int| 0 <= j < streams.overrides@.len() implies
                (#[trigger] streams.overrides@[j] matches Some(s2) ==> state_fits(s2)) by {
                if j == i as int {
                    assert(ov0[j] matches Some(s1) ==> state_fits(s1));
                } else {
                    assert(before_ov[j] matches Some(s1) ==> state_fits(s1));
                }
            }
        }
        i += 1;
    }
    proof {
        assert(spec_ov_flushed(ov0, n as int, force) =~= Seq::<ChunkState>::empty());
        assert(done + Seq::<ChunkState>::empty() =~= done);
    }
}

/// Chunk index entries written by a flush name no compression.
pub proof fn lemma_described_uncompressed(added: Seq<ChunkIndexInfo>, states: Seq<ChunkState>, base: int)
    requires
        indexes_describe(added, states, base),
    ensures
        forall|k: int| 0 <= k < added.len() ==> (#[trigger] added[k]).compression@ == Seq::<char>::empty(),
    decreases states.len(),
{
    if states.len() > 0 {
        lemma_described_uncompressed(added.drop_first(), states.drop_first(), base + spec_chunk_record(states[0]).len());
        assert forall|k: int| 0 <= k < added.len() implies (#[trigger] added[k]).compression@ == Seq::<char>::empty() by {
            if k > 0 {
                assert(added[k] == added.drop_first()[k - 1]);
            }
        }
    }
}

} // verus!
