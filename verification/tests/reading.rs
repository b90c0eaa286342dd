use mcapable_core::message_filter::{filtered_stream_step, nth_filtered_step, FilteredStep, FilteredStream, NthFilteredStep};
use mcapable_core::decode::parse_message_index_record;
use mcapable_core::error::Error;
use mcapable_core::message_stream::{
    message_stream_step, metadata_stream_step, nth_message_in_chunk, nth_message_step, MessageStreamState, MetadataStep,
    NthState, NthStep, RecordBlock, StreamStep,
};
use mcapable_core::kv::StringMap;
use mcapable_core::parsed::{choose_parser, message_target, no_parser_error, ParserRule};
use mcapable_core::record_stream::{
    record_metadata_step, record_stream_step, RecordMetaState, RecordMetaStep, RecordStep, RecordStreamKind,
    RecordStreamState,
};
use mcapable_core::format::Opcode;
use mcapable_core::types::RecordSource;
use mcapable_core::types::{Channel, Schema};
use mcapable_core::stream::IndexProbe;
use mcapable_core::types::{MessageIndex, MessageIndexEntry, MessageMetadata};

fn record(opcode: u8, content: &[u8]) -> Vec<u8> {
    let mut v = vec![opcode];
    v.extend_from_slice(&(content.len() as u64).to_le_bytes());
    v.extend_from_slice(content);
    v
}

fn message_content(channel_id: u16, sequence: u32, log_time: u64, data: &[u8]) -> Vec<u8> {
    let mut c = Vec::new();
    c.extend_from_slice(&channel_id.to_le_bytes());
    c.extend_from_slice(&sequence.to_le_bytes());
    c.extend_from_slice(&log_time.to_le_bytes());
    c.extend_from_slice(&log_time.to_le_bytes());
    c.extend_from_slice(data);
    c
}

fn chunk_payload(start: u64, end: u64, compression: &str, records: &[u8]) -> Vec<u8> {
    let mut p = Vec::new();
    p.extend_from_slice(&start.to_le_bytes());
    p.extend_from_slice(&end.to_le_bytes());
    p.extend_from_slice(&(records.len() as u64).to_le_bytes());
    p.extend_from_slice(&0u32.to_le_bytes());
    p.extend_from_slice(&(compression.len() as u32).to_le_bytes());
    p.extend_from_slice(compression.as_bytes());
    p.extend_from_slice(&(records.len() as u64).to_le_bytes());
    p.extend_from_slice(records);
    p
}

fn attachment_payload(log_time: u64, create_time: u64, name: &str, media_type: &str, data: &[u8]) -> Vec<u8> {
    let mut p = Vec::new();
    p.extend_from_slice(&log_time.to_le_bytes());
    p.extend_from_slice(&create_time.to_le_bytes());
    for s in [name, media_type] {
        p.extend_from_slice(&(s.len() as u32).to_le_bytes());
        p.extend_from_slice(s.as_bytes());
    }
    p.extend_from_slice(&(data.len() as u64).to_le_bytes());
    p.extend_from_slice(data);
    p.extend_from_slice(&0u32.to_le_bytes());
    p
}

fn metadata_payload(name: &str, key: &str, value: &str) -> Vec<u8> {
    let mut p = Vec::new();
    p.extend_from_slice(&(name.len() as u32).to_le_bytes());
    p.extend_from_slice(name.as_bytes());
    let mut body = Vec::new();
    for s in [key, value] {
        body.extend_from_slice(&(s.len() as u32).to_le_bytes());
        body.extend_from_slice(s.as_bytes());
    }
    p.extend_from_slice(&(body.len() as u32).to_le_bytes());
    p.extend_from_slice(&body);
    p
}

fn block(opcode: u8, data: Vec<u8>) -> Option<RecordBlock> {
    Some(RecordBlock { opcode, data, offset: 0, index_probes: None })
}

fn emitted(step: StreamStep) -> (u16, u64, Vec<u8>) {
    match step {
        StreamStep::Emit(m) => (m.channel_id, m.log_time, m.payload.as_slice().to_vec()),
        _ => panic!("expected a message"),
    }
}

#[test]
fn message_stream_walks_top_level_messages_and_chunks() {
    let mut st = MessageStreamState::new(None);
    assert!(matches!(message_stream_step(&mut st, None), StreamStep::NeedBlock));
    let mut schema = 1u16.to_le_bytes().to_vec();
    for s in ["s", "enc"] {
        schema.extend_from_slice(&(s.len() as u32).to_le_bytes());
        schema.extend_from_slice(s.as_bytes());
    }
    schema.extend_from_slice(&0u32.to_le_bytes());
    assert!(matches!(message_stream_step(&mut st, block(0x03, schema)), StreamStep::NeedBlock));
    assert_eq!(st.schemas().len(), 1);
    let step = message_stream_step(&mut st, block(0x05, message_content(1, 0, 10, b"a")));
    assert_eq!(emitted(step), (1, 10, b"a".to_vec()));
    let mut recs = record(0x05, &message_content(2, 0, 20, b"b"));
    recs.extend(record(0x05, &message_content(3, 0, 30, b"c")));
    let step = message_stream_step(&mut st, block(0x06, chunk_payload(20, 30, "", &recs)));
    assert_eq!(emitted(step), (2, 20, b"b".to_vec()));
    let step = message_stream_step(&mut st, None);
    assert_eq!(emitted(step), (3, 30, b"c".to_vec()));
    assert!(matches!(message_stream_step(&mut st, None), StreamStep::NeedBlock));
    assert!(matches!(message_stream_step(&mut st, block(0x0f, vec![0, 0, 0, 0])), StreamStep::Done));
    assert!(matches!(message_stream_step(&mut st, block(0x05, message_content(1, 0, 10, b""))), StreamStep::Done));
}

#[test]
fn message_stream_filters_by_time() {
    let mut st = MessageStreamState::new(Some((15, 25)));
    assert!(matches!(message_stream_step(&mut st, block(0x05, message_content(1, 0, 10, b""))), StreamStep::NeedBlock));
    let mut recs = record(0x05, &message_content(2, 0, 12, b""));
    recs.extend(record(0x05, &message_content(3, 0, 22, b"x")));
    let step = message_stream_step(&mut st, block(0x06, chunk_payload(12, 22, "", &recs)));
    assert_eq!(emitted(step), (3, 22, b"x".to_vec()));
    // A chunk outside the range is passed over.
    assert!(matches!(message_stream_step(&mut st, block(0x06, chunk_payload(30, 40, "", &recs))), StreamStep::NeedBlock));
    // A chunk whose index has no time in range is passed over.
    let probes = vec![IndexProbe {
        channel_id: 1,
        allowed: true,
        offset: 9,
        index: Some(MessageIndex { channel_id: 1, records: vec![MessageIndexEntry { timestamp: 30, offset: 0 }] }),
    }];
    let b = RecordBlock { opcode: 0x06, data: chunk_payload(12, 22, "", &recs), offset: 0, index_probes: Some(probes) };
    assert!(matches!(message_stream_step(&mut st, Some(b)), StreamStep::NeedBlock));
}

#[test]
fn message_stream_errors() {
    let mut st = MessageStreamState::new(None);
    assert!(matches!(
        message_stream_step(&mut st, block(0x06, chunk_payload(0, 1, "zstd", &[]))),
        StreamStep::Failed(Error::UnsupportedCompression)
    ));
    assert!(matches!(message_stream_step(&mut st, block(0x05, vec![1, 2])), StreamStep::Failed(Error::InvalidRecord(_))));
    assert!(matches!(message_stream_step(&mut st, None), StreamStep::Done));
}

#[test]
fn nth_message_counts_across_a_chunk() {
    let mut recs = record(0x05, &message_content(1, 0, 10, b"a"));
    recs.extend(record(0x05, b"short"));
    recs.extend(record(0x05, &message_content(2, 0, 20, b"b")));
    recs.extend(record(0x05, &message_content(3, 0, 30, b"c")));
    let m = nth_message_in_chunk(&recs, None, 1).unwrap();
    assert_eq!((m.channel_id, m.log_time), (2, 20));
    assert!(matches!(nth_message_in_chunk(&recs, None, 3), Err(3)));
    let m = nth_message_in_chunk(&recs, Some((15, 40)), 1).unwrap();
    assert_eq!(m.channel_id, 3);
    assert!(matches!(nth_message_in_chunk(&recs, Some((15, 40)), 2), Err(2)));
}

#[test]
fn message_index_record_decodes() {
    let mut p = 7u16.to_le_bytes().to_vec();
    p.extend_from_slice(&32u32.to_le_bytes());
    for (t, o) in [(10u64, 100u64), (20, 200)] {
        p.extend_from_slice(&t.to_le_bytes());
        p.extend_from_slice(&o.to_le_bytes());
    }
    let ix = parse_message_index_record(&p).unwrap();
    assert_eq!(ix.channel_id, 7);
    assert_eq!(ix.records.len(), 2);
    assert_eq!((ix.records[1].timestamp, ix.records[1].offset), (20, 200));
    assert!(parse_message_index_record(&p[..20]).is_err());
    let mut bad = p.clone();
    bad[2] = 33;
    assert!(parse_message_index_record(&bad).is_err());
}

#[test]
fn metadata_stream_gives_headers_and_payload_sizes() {
    let mut st = MessageStreamState::new(Some((15, 40)));
    assert!(matches!(metadata_stream_step(&mut st, block(0x05, message_content(1, 7, 10, b"abc"))), MetadataStep::NeedBlock));
    let mut recs = record(0x05, &message_content(2, 8, 20, b"abcd"));
    recs.extend(record(0x05, &message_content(3, 9, 30, b"")));
    let want = |channel_id: u16, sequence: u32, t: u64, data_size: u64| MessageMetadata {
        channel_id,
        sequence,
        log_time: t,
        publish_time: t,
        data_size,
    };
    match metadata_stream_step(&mut st, block(0x06, chunk_payload(20, 30, "", &recs))) {
        MetadataStep::Emit(m) => assert_eq!(m, want(2, 8, 20, 4)),
        _ => panic!("expected metadata"),
    }
    match metadata_stream_step(&mut st, None) {
        MetadataStep::Emit(m) => assert_eq!(m, want(3, 9, 30, 0)),
        _ => panic!("expected metadata"),
    }
    assert!(matches!(metadata_stream_step(&mut st, None), MetadataStep::NeedBlock));
    assert!(matches!(metadata_stream_step(&mut st, block(0x05, vec![1, 2, 3])), MetadataStep::Failed(_)));
    assert!(matches!(metadata_stream_step(&mut st, None), MetadataStep::Done));
}

fn channel_record(id: u16, schema_id: u16, topic: &str, encoding: &str) -> Vec<u8> {
    let mut c = id.to_le_bytes().to_vec();
    c.extend_from_slice(&schema_id.to_le_bytes());
    for t in [topic, encoding] {
        c.extend_from_slice(&(t.len() as u32).to_le_bytes());
        c.extend_from_slice(t.as_bytes());
    }
    c.extend_from_slice(&0u32.to_le_bytes());
    c
}

fn schema_record(id: u16, name: &str, encoding: &str) -> Vec<u8> {
    let mut c = id.to_le_bytes().to_vec();
    for t in [name, encoding] {
        c.extend_from_slice(&(t.len() as u32).to_le_bytes());
        c.extend_from_slice(t.as_bytes());
    }
    c.extend_from_slice(&0u32.to_le_bytes());
    c
}

#[test]
fn message_stream_asks_once_per_channel() {
    let mut st = MessageStreamState::with_filter(None, true);
    // A top-level message on an undecided channel is held until answered.
    let step = message_stream_step(&mut st, block(0x05, message_content(1, 0, 10, b"a")));
    assert!(matches!(step, StreamStep::NeedChannelDecision(1)));
    st.record_channel_answer(1, true);
    assert_eq!(emitted(message_stream_step(&mut st, None)), (1, 10, b"a".to_vec()));
    // A refused channel is passed over without asking again.
    let step = message_stream_step(&mut st, block(0x05, message_content(2, 0, 11, b"b")));
    assert!(matches!(step, StreamStep::NeedChannelDecision(2)));
    st.record_channel_answer(2, false);
    assert!(matches!(message_stream_step(&mut st, None), StreamStep::NeedBlock));
    assert!(matches!(message_stream_step(&mut st, block(0x05, message_content(2, 0, 12, b"c"))), StreamStep::NeedBlock));
    // Inside a chunk the walk stops at the undecided message and resumes there.
    let mut recs = record(0x05, &message_content(2, 0, 20, b"x"));
    recs.extend(record(0x05, &message_content(3, 0, 21, b"y")));
    recs.extend(record(0x05, &message_content(1, 0, 22, b"z")));
    let step = message_stream_step(&mut st, block(0x06, chunk_payload(20, 22, "", &recs)));
    assert!(matches!(step, StreamStep::NeedChannelDecision(3)));
    st.record_channel_answer(3, true);
    assert_eq!(emitted(message_stream_step(&mut st, None)), (3, 21, b"y".to_vec()));
    assert_eq!(emitted(message_stream_step(&mut st, None)), (1, 22, b"z".to_vec()));
    assert!(matches!(message_stream_step(&mut st, None), StreamStep::NeedBlock));
}

fn found(step: NthStep) -> (u16, u64) {
    match step {
        NthStep::Found(m) => (m.channel_id, m.log_time),
        _ => panic!("expected the message"),
    }
}

#[test]
fn nth_message_walks_blocks_in_order() {
    let mut recs = record(0x05, &message_content(2, 0, 20, b""));
    recs.extend(record(0x05, &message_content(3, 0, 30, b"")));
    let blocks = vec![
        (0x05, message_content(1, 0, 10, b"")),
        (0x04, channel_record(1, 0, "/t", "json")),
        (0x06, chunk_payload(20, 30, "", &recs)),
        (0x05, message_content(4, 0, 40, b"")),
    ];
    let run = |n: usize, tr: Option<(u64, u64)>| {
        let mut st = NthState::new(n, tr);
        for (op, data) in &blocks {
            match nth_message_step(&mut st, block(*op, data.clone())) {
                NthStep::NeedBlock => {}
                other => return other,
            }
        }
        nth_message_step(&mut st, None)
    };
    assert_eq!(found(run(0, None)), (1, 10));
    assert_eq!(found(run(1, None)), (2, 20));
    assert_eq!(found(run(2, None)), (3, 30));
    assert_eq!(found(run(3, None)), (4, 40));
    assert!(matches!(run(4, None), NthStep::NotFound));
    assert_eq!(found(run(0, Some((25, 45)))), (3, 30));
    assert_eq!(found(run(1, Some((25, 45)))), (4, 40));
    let mut st = NthState::new(0, None);
    assert!(matches!(nth_message_step(&mut st, block(0x06, chunk_payload(0, 1, "lz4", &[]))), NthStep::Failed(_)));
}

#[test]
fn parsed_stream_choices() {
    let mut st = MessageStreamState::new(None);
    message_stream_step(&mut st, block(0x03, schema_record(5, "pkg/Msg", "ros1msg")));
    message_stream_step(&mut st, block(0x04, channel_record(1, 5, "/a", "ros1")));
    message_stream_step(&mut st, block(0x04, channel_record(2, 0, "/b", "json")));
    let (c, s) = message_target(&st, 1).unwrap();
    assert_eq!(c.topic, "/a");
    assert_eq!(s.unwrap().name, "pkg/Msg");
    let (c, s) = message_target(&st, 2).unwrap();
    assert_eq!(c.topic, "/b");
    assert!(s.is_none());
    assert_eq!(message_target(&st, 9).unwrap_err(), Error::InvalidRecord("Channel 9 not found".to_string()));

    let rules = vec![
        ParserRule::SchemaEncoding("protobuf".to_string()),
        ParserRule::Custom,
        ParserRule::MessageEncoding("json".to_string()),
        ParserRule::SchemaEncoding("ros1msg".to_string()),
    ];
    let custom = |_k: usize, c: &Channel, _s: Option<&Schema>| c.topic == "/custom";
    let ch = |topic: &str, enc: &str, schema_id: u16| Channel {
        id: 1,
        topic: topic.to_string(),
        message_encoding: enc.to_string(),
        schema_id,
        metadata: StringMap::new(),
    };
    let sc = Schema { id: 5, name: "pkg/Msg".to_string(), encoding: "ros1msg".to_string(), data: Vec::new() };
    assert_eq!(choose_parser(&rules, &ch("/b", "json", 0), None, &custom), Some(2));
    assert_eq!(choose_parser(&rules, &ch("/custom", "json", 0), None, &custom), Some(1));
    assert_eq!(choose_parser(&rules, &ch("/a", "ros1", 5), Some(&sc), &custom), Some(3));
    assert_eq!(choose_parser(&rules, &ch("/a", "cdr", 0), None, &custom), None);
    assert_eq!(no_parser_error(7), Error::InvalidRecord("No parser registered for channel 7".to_string()));
}

#[test]
fn record_stream_filters_kinds_and_stops_after_the_footer() {
    let mut st = RecordStreamState::new(RecordStreamKind::Records, None);
    let step = record_stream_step(&mut st, block(0x03, schema_record(1, "s", "enc")), true);
    assert!(matches!(step, RecordStep::Record(0x03, _)));
    assert_eq!(st.schemas().len(), 1);
    // The filter refuses channels: the record is passed over and not cached.
    let step = record_stream_step(&mut st, block(0x04, channel_record(1, 1, "/a", "json")), false);
    assert!(matches!(step, RecordStep::NeedBlock));
    assert_eq!(st.channels().len(), 0);
    let step = record_stream_step(&mut st, block(0x05, message_content(1, 0, 10, b"m")), true);
    match step {
        RecordStep::Record(op, data) => assert_eq!((op, data), (0x05, message_content(1, 0, 10, b"m"))),
        _ => panic!("expected the message record"),
    }
    // A record that does not decode is an error.
    assert!(matches!(record_stream_step(&mut st, block(0x05, vec![1]), true), RecordStep::Failed(_)));
    // A malformed attachment is an error; a well-formed one is yielded and cached.
    assert!(matches!(record_stream_step(&mut st, block(0x09, vec![1, 2, 3]), true), RecordStep::Failed(_)));
    assert!(matches!(record_stream_step(&mut st, block(0x09, attachment_payload(7, 8, "a.txt", "text/plain", b"hi")), true),
        RecordStep::Record(0x09, _)));
    assert_eq!(st.attachments().len(), 1);
    assert_eq!(st.attachments()[0].name, "a.txt");
    assert_eq!(st.attachments()[0].media_type, "text/plain");
    assert_eq!((st.attachments()[0].log_time, st.attachments()[0].create_time), (7, 8));
    assert_eq!(st.attachments()[0].data, b"hi".to_vec());
    // Metadata records are cached too.
    assert!(matches!(record_stream_step(&mut st, block(0x0c, metadata_payload("calib", "k", "v")), true),
        RecordStep::Record(0x0c, _)));
    assert_eq!(st.metadata().len(), 1);
    assert_eq!(st.metadata()[0].name, "calib");
    assert_eq!(st.metadata()[0].metadata.get(&"k".to_string()).map(|v| v.as_str()), Some("v"));
    assert!(matches!(record_stream_step(&mut st, block(0x0c, vec![9, 0, 0, 0]), true), RecordStep::Failed(_)));
    // Summary records are checked for their fields.
    assert!(matches!(record_stream_step(&mut st, block(0x0e, vec![0; 16]), true), RecordStep::Failed(_)));
    assert!(matches!(record_stream_step(&mut st, block(0x0e, vec![0; 17]), true), RecordStep::Record(0x0e, _)));
    assert!(matches!(record_stream_step(&mut st, block(0x0b, vec![0; 45]), true), RecordStep::Failed(_)));
    assert!(matches!(record_stream_step(&mut st, block(0x0b, vec![0; 46]), true), RecordStep::Record(0x0b, _)));
    assert!(matches!(record_stream_step(&mut st, block(0x0d, vec![0; 16]), true), RecordStep::Failed(_)));
    assert!(matches!(record_stream_step(&mut st, block(0x0d, vec![0; 20]), true), RecordStep::Record(0x0d, _)));
    assert!(matches!(record_stream_step(&mut st, block(0x0a, vec![0; 44]), true), RecordStep::Failed(_)));
    assert!(matches!(record_stream_step(&mut st, block(0x0a, vec![0; 48]), true), RecordStep::Record(0x0a, _)));
    assert!(matches!(record_stream_step(&mut st, block(0x08, vec![0; 60]), true), RecordStep::Failed(_)));
    assert!(matches!(record_stream_step(&mut st, block(0x08, vec![0; 64]), true), RecordStep::Record(0x08, _)));
    // A record of an unknown kind is kept as it is.
    assert!(matches!(record_stream_step(&mut st, block(0x80, vec![1, 2, 3]), true), RecordStep::Record(0x80, _)));
    let mut footer = vec![0u8; 20];
    footer[0] = 1;
    assert!(matches!(record_stream_step(&mut st, block(0x02, footer), true), RecordStep::Record(0x02, _)));
    assert!(matches!(record_stream_step(&mut st, block(0x05, message_content(1, 0, 11, b"")), true), RecordStep::Done));
}

#[test]
fn chunk_stream_yields_chunks_in_range() {
    let mut st = RecordStreamState::new(RecordStreamKind::Chunks, Some((15, 25)));
    let recs = record(0x05, &message_content(1, 0, 20, b"x"));
    assert!(matches!(record_stream_step(&mut st, block(0x04, channel_record(1, 0, "/a", "json")), true), RecordStep::NeedBlock));
    assert_eq!(st.channels().len(), 1);
    assert!(matches!(record_stream_step(&mut st, block(0x06, chunk_payload(0, 10, "", &recs)), true), RecordStep::NeedBlock));
    match record_stream_step(&mut st, block(0x06, chunk_payload(10, 20, "", &recs)), true) {
        RecordStep::Chunk(c) => {
            assert_eq!((c.message_start_time, c.message_end_time), (10, 20));
            assert_eq!(c.records, recs);
        }
        _ => panic!("expected the chunk"),
    }
    assert!(matches!(record_stream_step(&mut st, block(0x06, vec![0; 3]), true), RecordStep::Failed(_)));
    assert!(matches!(record_stream_step(&mut st, block(0x0f, vec![0; 4]), true), RecordStep::Done));
    assert!(matches!(record_stream_step(&mut st, None, true), RecordStep::Done));
}

fn meta(step: RecordMetaStep) -> mcapable_core::types::RecordMetadata {
    match step {
        RecordMetaStep::Meta(m) => m,
        _ => panic!("expected record metadata"),
    }
}

#[test]
fn record_metadata_descends_into_chunks() {
    let mut recs = record(0x05, &message_content(2, 4, 20, b"xy"));
    recs.extend(record(0x04, &channel_record(2, 0, "/b", "json")));
    recs.extend(record(0x05, &message_content(3, 5, 30, b"")));
    let chunk = chunk_payload(20, 30, "", &recs);
    let at = |op: u8, data: Vec<u8>, offset: u64| Some(RecordBlock { opcode: op, data, offset, index_probes: None });

    let mut st = RecordMetaState::new(true, true);
    let m = meta(record_metadata_step(&mut st, at(0x05, message_content(1, 3, 10, b"abc"), 8), true, true));
    assert_eq!((m.opcode, m.length, m.total_len, m.offset), (Opcode::Message, 25, 34, 8));
    assert_eq!(m.message.unwrap().data_size, 3);
    let m = meta(record_metadata_step(&mut st, at(0x06, chunk.clone(), 100), true, true));
    assert_eq!((m.opcode, m.offset, m.source), (Opcode::Chunk, 100, RecordSource::File));
    let m = meta(record_metadata_step(&mut st, None, true, true));
    assert_eq!((m.opcode, m.offset, m.source), (Opcode::Message, 0, RecordSource::Chunk { chunk_offset: 100 }));
    assert_eq!(m.message.unwrap().channel_id, 2);
    let m = meta(record_metadata_step(&mut st, None, true, true));
    assert_eq!(m.message.unwrap().sequence, 5);
    assert!(matches!(record_metadata_step(&mut st, None, true, true), RecordMetaStep::Done));

    // The filter refuses chunks but not messages: only the chunk's messages.
    let mut st = RecordMetaState::new(true, false);
    let m = meta(record_metadata_step(&mut st, at(0x06, chunk.clone(), 100), false, true));
    assert_eq!((m.opcode, m.message), (Opcode::Message, None));
    // A record the filter refuses is passed over.
    let mut st = RecordMetaState::new(false, false);
    assert!(matches!(record_metadata_step(&mut st, at(0x03, vec![0; 4], 8), false, true), RecordMetaStep::NeedBlock));
    let m = meta(record_metadata_step(&mut st, at(0x06, chunk, 100), true, true));
    assert_eq!(m.opcode, Opcode::Chunk);
    assert!(matches!(record_metadata_step(&mut st, at(0x42, vec![], 8), true, true), RecordMetaStep::Failed(_)));
}

#[test]
fn filtered_stream_yields_only_accepted_messages() {
    let mut recs = record(0x05, &message_content(1, 0, 20, b"b"));
    recs.extend(record(0x05, &message_content(1, 1, 30, b"c")));
    let mut blocks = vec![
        block(0x05, message_content(1, 0, 10, b"a")),
        block(0x06, chunk_payload(20, 30, "", &recs)),
        block(0x0f, vec![0; 4]),
    ]
    .into_iter();
    let mut st = FilteredStream::new(MessageStreamState::new(None), true);
    let mut asked = Vec::new();
    let mut got = Vec::new();
    let mut block_in = None;
    loop {
        match filtered_stream_step(&mut st, block_in.take()) {
            FilteredStep::NeedMessageDecision(h) => {
                asked.push((h.log_time, h.data_size));
                // Keep the messages logged at 10 and 30.
                st.record_message_answer(h.log_time != 20);
            }
            FilteredStep::Stream(StreamStep::Emit(m)) => got.push((m.log_time, m.payload.as_slice().to_vec())),
            FilteredStep::Stream(StreamStep::NeedBlock) => block_in = blocks.next().flatten(),
            FilteredStep::Stream(StreamStep::Done) => break,
            FilteredStep::Stream(_) => panic!("unexpected step"),
        }
    }
    assert_eq!(asked, vec![(10, 1), (20, 1), (30, 1)]);
    assert_eq!(got, vec![(10, b"a".to_vec()), (30, b"c".to_vec())]);
}

#[test]
fn filtered_stream_without_a_filter_passes_messages_on() {
    let mut st = FilteredStream::new(MessageStreamState::new(None), false);
    assert!(matches!(filtered_stream_step(&mut st, None), FilteredStep::Stream(StreamStep::NeedBlock)));
    match filtered_stream_step(&mut st, block(0x05, message_content(2, 7, 40, b"z"))) {
        FilteredStep::Stream(StreamStep::Emit(m)) => assert_eq!((m.channel_id, m.sequence, m.log_time), (2, 7, 40)),
        _ => panic!("expected the message"),
    }
    // An answer with nothing held changes nothing.
    st.record_message_answer(false);
    assert!(matches!(filtered_stream_step(&mut st, None), FilteredStep::Stream(StreamStep::NeedBlock)));
}

/// Random access to the `n`-th message that a stream with a channel filter
/// (refusing channel 2) and a message filter (refusing odd sequences) yields.
fn nth_filtered(n: usize) -> Option<(u16, u32)> {
    let mut blocks = vec![
        block(0x04, channel_record(1, 0, "/a", "json")),
        block(0x04, channel_record(2, 0, "/b", "json")),
        block(0x05, message_content(1, 0, 10, b"a")),
        block(0x05, message_content(2, 0, 11, b"b")),
        block(0x05, message_content(1, 1, 12, b"c")),
        block(0x05, message_content(1, 2, 13, b"d")),
        block(0x05, message_content(2, 2, 14, b"e")),
        block(0x05, message_content(1, 4, 15, b"f")),
        block(0x0f, vec![0; 4]),
    ]
    .into_iter();
    let mut st = FilteredStream::new(MessageStreamState::with_filter(None, true), true);
    let mut remaining = n;
    let mut block_in = None;
    loop {
        match nth_filtered_step(&mut st, &mut remaining, block_in.take()) {
            NthFilteredStep::Found(m) => return Some((m.channel_id, m.sequence)),
            NthFilteredStep::Passed => {}
            NthFilteredStep::Step(FilteredStep::NeedMessageDecision(h)) => st.record_message_answer(h.sequence % 2 == 0),
            NthFilteredStep::Step(FilteredStep::Stream(StreamStep::NeedChannelDecision(id))) => {
                st.record_channel_answer(id, id != 2)
            }
            NthFilteredStep::Step(FilteredStep::Stream(StreamStep::NeedBlock)) => block_in = blocks.next().flatten(),
            NthFilteredStep::Step(FilteredStep::Stream(StreamStep::Done)) => return None,
            NthFilteredStep::Step(_) => panic!("unexpected step"),
        }
    }
}

#[test]
fn random_access_applies_channel_and_message_filters() {
    assert_eq!(nth_filtered(0), Some((1, 0)));
    assert_eq!(nth_filtered(1), Some((1, 2)));
    assert_eq!(nth_filtered(2), Some((1, 4)));
    assert_eq!(nth_filtered(3), None);
}

#[test]
fn chunk_index_probes_read_each_entry() {
    let mut payload = 3u16.to_le_bytes().to_vec();
    payload.extend_from_slice(&16u32.to_le_bytes());
    payload.extend_from_slice(&42u64.to_le_bytes());
    payload.extend_from_slice(&7u64.to_le_bytes());
    let file = record(0x07, &payload);
    let probes = mcapable_core::stream::chunk_index_probes(&file, &vec![(3, 0), (4, 100)], &vec![true, false]);
    assert_eq!(probes.len(), 2);
    assert_eq!((probes[0].channel_id, probes[0].allowed, probes[0].offset), (3, true, 0));
    let ix = probes[0].index.as_ref().expect("message index");
    assert_eq!(ix.channel_id, 3);
    assert_eq!((ix.records[0].timestamp, ix.records[0].offset), (42, 7));
    assert_eq!((probes[1].channel_id, probes[1].allowed, probes[1].offset), (4, false, 100));
    assert!(probes[1].index.is_none());
}
