use mcapable_core::chunk::ChunkOptions;
use mcapable_core::decode::{get_record_location, parse_metadata_name};
use mcapable_core::error::Error;
use mcapable_core::kv::StringMap;
use mcapable_core::message_stream::{message_stream_step, nth_message_step, MessageStreamState, NthState, NthStep, RecordBlock, StreamStep};
use mcapable_core::record_stream::{record_stream_step, RecordStep, RecordStreamKind, RecordStreamState};
use mcapable_core::types::{Channel, Metadata, RawMessage, Schema};
use mcapable_core::writer::{ChannelSpec, SchemaSpec, Validation, Writer, WriterBuilder};

fn finished_bytes(w: &mut Writer, mut file: Vec<u8>) -> Vec<u8> {
    w.finish().unwrap();
    file.extend_from_slice(&w.take_output());
    file
}

/// The opcode and content of every record of a whole file.
fn records(file: &[u8]) -> Vec<(u8, Vec<u8>)> {
    let body = &file[8..file.len() - 8];
    let mut out = Vec::new();
    let mut pos = 0;
    while pos < body.len() {
        let loc = get_record_location(body, pos).expect("record");
        out.push((loc.opcode, body[loc.content_start..loc.next_record_start].to_vec()));
        pos = loc.next_record_start;
    }
    out
}

/// The messages of a file.
fn messages(file: &[u8]) -> Vec<RawMessage> {
    let mut st = MessageStreamState::new(None);
    let mut msgs = Vec::new();
    let mut pos = 8;
    let mut block = None;
    loop {
        match message_stream_step(&mut st, block.take()) {
            StreamStep::Emit(m) => msgs.push(m),
            StreamStep::Done => break,
            StreamStep::Failed(e) => panic!("unreadable file: {e:?}"),
            StreamStep::NeedChannelDecision(_) => unreachable!(),
            StreamStep::NeedBlock => {
                let loc = get_record_location(file, pos).expect("record");
                block = Some(RecordBlock {
                    opcode: loc.opcode,
                    data: file[loc.content_start..loc.next_record_start].to_vec(),
                    offset: pos as u64,
                    index_probes: None,
                });
                pos = loc.next_record_start;
            }
        }
    }
    msgs
}

/// The fields of an Attachment record's content.
fn attachment_fields(c: &[u8]) -> (u64, u64, String, String, Vec<u8>) {
    let u64_at = |p: usize| u64::from_le_bytes(c[p..p + 8].try_into().unwrap());
    let u32_at = |p: usize| u32::from_le_bytes(c[p..p + 4].try_into().unwrap()) as usize;
    let log_time = u64_at(0);
    let create_time = u64_at(8);
    let mut p = 16;
    let n = u32_at(p);
    let name = String::from_utf8(c[p + 4..p + 4 + n].to_vec()).unwrap();
    p += 4 + n;
    let n = u32_at(p);
    let media = String::from_utf8(c[p + 4..p + 4 + n].to_vec()).unwrap();
    p += 4 + n;
    let n = u64_at(p) as usize;
    let data = c[p + 8..p + 8 + n].to_vec();
    (log_time, create_time, name, media, data)
}

fn raw_spec(topic: &str, name: &str) -> ChannelSpec {
    ChannelSpec::new(topic.to_string(), "application/octet-stream".to_string())
        .schema(SchemaSpec::new(name.to_string(), "raw".to_string(), Vec::new()))
}

#[test]
fn writer_finish_is_idempotent() {
    let mut w = WriterBuilder::new().build(0).unwrap();
    w.add_channel(raw_spec("/test", "test")).unwrap();
    w.finish().unwrap();
    w.finish().unwrap();
}

#[test]
fn writer_write_after_finish_errors() {
    let mut w = WriterBuilder::new().build(0).unwrap();
    w.finish().unwrap();
    let schema = Schema { id: 1, name: "x".to_string(), encoding: "y".to_string(), data: Vec::new() };
    match w.copy_schema(&schema).unwrap_err() {
        Error::InvalidRecord(m) => assert!(m.contains("after finish")),
        e => panic!("unexpected error {e:?}"),
    }
}

#[test]
fn writer_header_is_idempotent() {
    let mut w = WriterBuilder::new().build(0).unwrap();
    w.add_channel(raw_spec("/test", "test")).unwrap();
    w.add_channel(raw_spec("/test2", "test2")).unwrap();
    let file = finished_bytes(&mut w, Vec::new());
    assert_eq!(records(&file).iter().filter(|r| r.0 == 0x01).count(), 1);
}

#[test]
fn writer_channel_writer_sequences_increment() {
    let mut w = WriterBuilder::new().build(0).unwrap();
    let spec = ChannelSpec::new("/test".to_string(), "json".to_string()).schema(SchemaSpec::new(
        "pkg/Msg".to_string(),
        "jsonschema".to_string(),
        br#"{"type":"object"}"#.to_vec(),
    ));
    let mut ch = w.add_channel(spec).unwrap();
    ch.write(&mut w, 100, 200, b"one").unwrap();
    ch.write(&mut w, 101, 201, b"two").unwrap();
    let file = finished_bytes(&mut w, Vec::new());
    let got: Vec<(u32, Vec<u8>)> =
        messages(&file).iter().map(|m| (m.sequence, m.payload.as_slice().to_vec())).collect();
    assert_eq!(got, vec![(0, b"one".to_vec()), (1, b"two".to_vec())]);
}

#[test]
fn writer_attachment_round_trip() {
    let mut w = WriterBuilder::new().build(0).unwrap();
    w.write_attachment(123, 456, &"calib.json".to_string(), &"application/json".to_string(), br#"{"k":"v"}"#)
        .unwrap();
    let file = finished_bytes(&mut w, Vec::new());
    let att = records(&file).into_iter().find(|r| r.0 == 0x09).expect("expected attachment record");
    let (log_time, create_time, name, media, data) = attachment_fields(&att.1);
    assert_eq!(log_time, 123);
    assert_eq!(create_time, 456);
    assert_eq!(name, "calib.json");
    assert_eq!(media, "application/json");
    assert_eq!(data, br#"{"k":"v"}"#.to_vec());
}

#[test]
fn writer_copy_record_round_trip() {
    let source = {
        let mut w = WriterBuilder::new().profile("test").chunked(ChunkOptions::default()).build(0).unwrap();
        let schema = Schema {
            id: 1,
            name: "pkg/Msg".to_string(),
            encoding: "jsonschema".to_string(),
            data: br#"{"type":"object"}"#.to_vec(),
        };
        w.copy_schema(&schema).unwrap();
        let channel = Channel {
            id: 1,
            topic: "/test".to_string(),
            message_encoding: "json".to_string(),
            schema_id: 1,
            metadata: StringMap::new(),
        };
        let mut cw = w.copy_channel(&channel).unwrap();
        cw.write(&mut w, 100, 200, b"hello").unwrap();
        w.copy_attachment(300, 400, &"file.bin".to_string(), &"application/octet-stream".to_string(), b"attachment-data")
            .unwrap();
        let mut m = StringMap::new();
        m.insert("version".to_string(), "1.0".to_string());
        w.copy_metadata(&Metadata { name: "build".to_string(), metadata: m }).unwrap();
        finished_bytes(&mut w, Vec::new())
    };

    let mut dest = WriterBuilder::new().profile("test").build(0).unwrap();
    for (opcode, content) in records(&source) {
        if opcode == 0x01 || opcode == 0x0f {
            continue;
        }
        if opcode == 0x02 || opcode == 0x0e {
            break;
        }
        let mut rec = vec![opcode];
        rec.extend_from_slice(&(content.len() as u64).to_le_bytes());
        rec.extend_from_slice(&content);
        dest.copy_raw_record_bytes(&rec).unwrap();
    }
    let file = finished_bytes(&mut dest, Vec::new());

    let msgs = messages(&file);
    assert_eq!(msgs.len(), 1);
    assert_eq!(msgs[0].payload.as_slice(), b"hello");

    let recs = records(&file);
    let att = recs.iter().find(|r| r.0 == 0x09).expect("attachment should be copied");
    let (_, _, name, _, data) = attachment_fields(&att.1);
    assert_eq!(name, "file.bin");
    assert_eq!(data, b"attachment-data".to_vec());
    let md = recs.iter().find(|r| r.0 == 0x0c).expect("metadata should be copied");
    assert_eq!(parse_metadata_name(&md.1).unwrap(), "build");
}

#[test]
fn writer_copy_metadata_round_trip() {
    let mut w = WriterBuilder::new().build(0).unwrap();
    let mut m = StringMap::new();
    m.insert("key1".to_string(), "val1".to_string());
    m.insert("key2".to_string(), "val2".to_string());
    w.copy_metadata(&Metadata { name: "config".to_string(), metadata: m }).unwrap();
    let file = finished_bytes(&mut w, Vec::new());
    let recs = records(&file);
    let md = recs.iter().find(|r| r.0 == 0x0c).expect("metadata record should be present");
    assert_eq!(parse_metadata_name(&md.1).unwrap(), "config");
    // name, then a map of two entries
    let name_len = u32::from_le_bytes(md.1[0..4].try_into().unwrap()) as usize;
    let map = &md.1[4 + name_len..];
    let map_len = u32::from_le_bytes(map[0..4].try_into().unwrap()) as usize;
    assert_eq!(map_len, 2 * (4 + 4 + 4 + 4));
}

#[test]
fn writer_validation_permissive() {
    let mut w = WriterBuilder::new().validation(Validation::Permissive).build(0).unwrap();
    let file = finished_bytes(&mut w, Vec::new());
    assert!(file.len() > 16);
}

#[test]
fn summary_chunk_indexes_lead_to_message_indexes() {
    let mut w = WriterBuilder::new().chunked(ChunkOptions::default()).build(0).unwrap();
    let mut ch = w.add_channel(ChannelSpec::new("/t".to_string(), "raw".to_string())).unwrap();
    ch.write(&mut w, 10, 10, b"a").unwrap();
    ch.write(&mut w, 20, 20, b"b").unwrap();
    let mut file = finished_bytes(&mut w, Vec::new());
    let footer_at = file.len() - 8 - 29;
    let loc = get_record_location(&file, footer_at).unwrap();
    let footer = mcapable_core::decode::parse_footer_record(&file[loc.content_start..loc.next_record_start]).unwrap();
    let indexes = mcapable_core::stream::chunk_index_records(&file, footer.summary_start as usize, footer_at);
    assert_eq!(indexes.len(), 1);
    let (chunk_offset, entries) = indexes[0].clone();
    assert_eq!(get_record_location(&file, chunk_offset as usize).unwrap().opcode, 0x06);
    // This writer records no message indexes.
    assert!(entries.is_empty());

    // A message index record appended to the bytes, as another writer would place it.
    let index_offset = file.len() as u64;
    let mut content = ch.channel_id().to_le_bytes().to_vec();
    content.extend_from_slice(&32u32.to_le_bytes());
    for (t, o) in [(10u64, 0u64), (20, 40)] {
        content.extend_from_slice(&t.to_le_bytes());
        content.extend_from_slice(&o.to_le_bytes());
    }
    file.push(0x07);
    file.extend_from_slice(&(content.len() as u64).to_le_bytes());
    file.extend_from_slice(&content);
    let probe = mcapable_core::stream::probe_at(&file, ch.channel_id(), true, index_offset);
    let ix = probe.index.clone().unwrap();
    assert_eq!(ix.channel_id, ch.channel_id());
    let times: Vec<u64> = ix.records.iter().map(|e| e.timestamp).collect();
    assert_eq!(times, vec![10, 20]);
    // Not a message index there, or nothing there: no index.
    assert!(mcapable_core::stream::probe_at(&file, ch.channel_id(), true, chunk_offset).index.is_none());
    assert!(mcapable_core::stream::probe_at(&file, ch.channel_id(), true, file.len() as u64).index.is_none());
    // The index has no time in [11, 19]: a stream over that range passes the chunk over.
    let loc = get_record_location(&file, chunk_offset as usize).unwrap();
    let mut st = MessageStreamState::new(Some((11, 19)));
    let b = RecordBlock {
        opcode: 0x06,
        data: file[loc.content_start..loc.next_record_start].to_vec(),
        offset: chunk_offset,
        index_probes: Some(vec![probe]),
    };
    assert!(matches!(message_stream_step(&mut st, Some(b)), StreamStep::NeedBlock));
}

/// The footer's summary fields are consistent with the file, the summary's
/// CRC matches, and the summary holds `chunk_indexes` chunk indexes and at
/// least one schema and channel.
fn assert_footer_and_summary(bytes: &[u8], chunk_indexes: usize) {
    let footer_at = bytes.len() - 8 - 29;
    let loc = get_record_location(bytes, footer_at).unwrap();
    let footer = mcapable_core::decode::parse_footer_record(&bytes[loc.content_start..loc.next_record_start]).unwrap();
    assert!(footer.summary_start > 0);
    assert!(footer.summary_offset_start >= footer.summary_start);
    assert!(footer.summary_offset_start <= bytes.len() as u64);
    let (ss, so) = (footer.summary_start as usize, footer.summary_offset_start as usize);
    assert_eq!(crc32fast::hash(&bytes[ss..so]), footer.summary_crc);
    let indexes = mcapable_core::stream::chunk_index_records(bytes, ss, so);
    assert_eq!(indexes.len(), chunk_indexes);
    let summary_ops: Vec<u8> = {
        let mut ops = Vec::new();
        let mut pos = ss;
        while pos < so {
            let l = get_record_location(bytes, pos).unwrap();
            ops.push(l.opcode);
            pos = l.next_record_start;
        }
        ops
    };
    assert!(summary_ops.contains(&0x03));
    assert!(summary_ops.contains(&0x04));
}

fn write_basic_file(chunk_options: Option<ChunkOptions>) -> Vec<u8> {
    let mut builder = WriterBuilder::new().profile("ros2").library("mcapable-test").header_metadata("k", "v");
    if let Some(options) = chunk_options {
        builder = builder.chunked(options);
    }
    let mut w = builder.build(0).unwrap();
    let schema = Schema {
        id: 1,
        name: "pkg/Msg".to_string(),
        encoding: "jsonschema".to_string(),
        data: br#"{"type":"object"}"#.to_vec(),
    };
    w.copy_schema(&schema).unwrap();
    let channel = Channel {
        id: 1,
        topic: "/test".to_string(),
        message_encoding: "json".to_string(),
        schema_id: 1,
        metadata: StringMap::new(),
    };
    let cw = w.copy_channel(&channel).unwrap();
    cw.write_with_sequence(&mut w, 100, 200, b"abc", 42).unwrap();
    finished_bytes(&mut w, Vec::new())
}

#[test]
fn writer_round_trip_unchunked() {
    let bytes = write_basic_file(None);
    let recs = records(&bytes);
    assert_eq!(recs[0].0, 0x01);
    let header = mcapable_core::decode::parse_header_record(&recs[0].1).unwrap();
    assert_eq!(header.profile, "ros2");
    assert_eq!(header.library, "mcapable-test");
    assert_eq!(header.metadata.get(&"k".to_string()).map(|v| v.as_str()), Some("v"));

    let msgs = messages(&bytes);
    assert_eq!(msgs.len(), 1);
    let m = &msgs[0];
    assert_eq!((m.channel_id, m.sequence, m.log_time, m.publish_time), (1, 42, 100, 200));
    assert_eq!(m.payload.as_slice(), b"abc");

    let mut st = MessageStreamState::new(None);
    let mut pos = 8;
    let mut block = None;
    loop {
        match message_stream_step(&mut st, block.take()) {
            StreamStep::NeedBlock => {
                let loc = get_record_location(&bytes, pos).unwrap();
                block = Some(RecordBlock {
                    opcode: loc.opcode,
                    data: bytes[loc.content_start..loc.next_record_start].to_vec(),
                    offset: pos as u64,
                    index_probes: None,
                });
                pos = loc.next_record_start;
            }
            StreamStep::Done => break,
            _ => {}
        }
    }
    let s = &st.schemas()[0];
    assert_eq!((s.id, s.name.as_str(), s.encoding.as_str(), s.data.as_slice()), (1, "pkg/Msg", "jsonschema", &br#"{"type":"object"}"#[..]));
    let c = &st.channels()[0];
    assert_eq!((c.id, c.topic.as_str(), c.message_encoding.as_str(), c.schema_id), (1, "/test", "json", 1));

    assert_footer_and_summary(&bytes, 0);
}

#[test]
fn writer_round_trip_chunked_none() {
    let bytes = write_basic_file(Some(ChunkOptions { compression: None, max_uncompressed_bytes: 1, include_crc: true }));
    let msgs = messages(&bytes);
    assert_eq!(msgs.len(), 1);
    assert_eq!(msgs[0].payload.as_slice(), b"abc");
    assert_footer_and_summary(&bytes, 1);
}

#[test]
fn writer_round_trip_chunked_no_crc() {
    let bytes = write_basic_file(Some(ChunkOptions { compression: None, max_uncompressed_bytes: 1, include_crc: false }));
    let msgs = messages(&bytes);
    assert_eq!(msgs.len(), 1);
    assert_eq!(msgs[0].payload.as_slice(), b"abc");
    assert_footer_and_summary(&bytes, 1);
}

/// The record blocks of a file's data section, in order.
fn data_blocks(file: &[u8]) -> Vec<RecordBlock> {
    let mut out = Vec::new();
    let mut pos = 8;
    loop {
        let loc = get_record_location(file, pos).expect("record");
        if loc.opcode == 0x0f {
            break;
        }
        out.push(RecordBlock {
            opcode: loc.opcode,
            data: file[loc.content_start..loc.next_record_start].to_vec(),
            offset: pos as u64,
            index_probes: None,
        });
        pos = loc.next_record_start;
    }
    out
}

/// Random access to the `n`-th message, fed the data section's blocks.
fn nth(file: &[u8], n: usize) -> Option<RawMessage> {
    let mut st = NthState::new(n, None);
    let mut blocks = data_blocks(file).into_iter();
    loop {
        match nth_message_step(&mut st, blocks.next()) {
            NthStep::Found(m) => return Some(m),
            NthStep::NotFound => return None,
            NthStep::NeedBlock => {}
            NthStep::Failed(e) => panic!("unreadable file: {e:?}"),
        }
    }
}

#[test]
fn writer_calls_read_back_in_order_and_by_index() {
    calls_read_back(WriterBuilder::new());
}

#[test]
fn chunked_writer_calls_read_back_in_order_and_by_index() {
    // Chunks of at most 40 bytes: some messages share a chunk, others do not.
    calls_read_back(WriterBuilder::new().chunked(ChunkOptions {
        compression: None,
        max_uncompressed_bytes: 40,
        include_crc: true,
    }));
}

fn calls_read_back(builder: WriterBuilder) {
    let mut w = builder.build(0).unwrap();
    let spec = ChannelSpec::new("/a".to_string(), "json".to_string())
        .schema(SchemaSpec::new("pkg/A".to_string(), "jsonschema".to_string(), b"{}".to_vec()));
    let mut a = w.add_channel(spec).unwrap();
    let mut b = w.add_channel(ChannelSpec::new("/b".to_string(), "raw".to_string())).unwrap();
    a.write(&mut w, 30, 31, b"first").unwrap();
    b.write(&mut w, 10, 11, b"second").unwrap();
    a.write(&mut w, 20, 21, b"third").unwrap();
    let bytes = finished_bytes(&mut w, Vec::new());

    let msgs = messages(&bytes);
    let got: Vec<(u16, u32, u64, u64, Vec<u8>)> = msgs
        .iter()
        .map(|m| (m.channel_id, m.sequence, m.log_time, m.publish_time, m.payload.as_slice().to_vec()))
        .collect();
    assert_eq!(
        got,
        vec![
            (1, 0, 30, 31, b"first".to_vec()),
            (2, 0, 10, 11, b"second".to_vec()),
            (1, 1, 20, 21, b"third".to_vec()),
        ]
    );
    for (i, m) in msgs.iter().enumerate() {
        let found = nth(&bytes, i).expect("message at index");
        assert_eq!((found.channel_id, found.sequence, found.log_time), (m.channel_id, m.sequence, m.log_time));
        assert_eq!(found.payload.as_slice(), m.payload.as_slice());
    }
    assert!(nth(&bytes, msgs.len()).is_none());
}

#[test]
fn record_stream_caches_written_attachments_and_metadata() {
    let mut w = WriterBuilder::new().build(0).unwrap();
    w.write_attachment(5, 6, &"cal.bin".to_string(), &"application/octet-stream".to_string(), &[1, 2, 3]).unwrap();
    let mut entries = StringMap::new();
    entries.insert("k".to_string(), "v".to_string());
    w.copy_metadata(&Metadata { name: "meta".to_string(), metadata: entries }).unwrap();
    let bytes = finished_bytes(&mut w, Vec::new());

    let mut st = RecordStreamState::new(RecordStreamKind::Records, None);
    let mut pos = 8;
    let mut opcodes = Vec::new();
    loop {
        let mut block = None;
        if pos + 8 < bytes.len() {
            let loc = get_record_location(&bytes, pos).expect("record");
            block = Some(RecordBlock {
                opcode: loc.opcode,
                data: bytes[loc.content_start..loc.next_record_start].to_vec(),
                offset: pos as u64,
                index_probes: None,
            });
            pos = loc.next_record_start;
        }
        match record_stream_step(&mut st, block, true) {
            RecordStep::Record(op, _) => opcodes.push(op),
            RecordStep::NeedBlock => {}
            RecordStep::Done => break,
            RecordStep::Chunk(_) => unreachable!(),
            RecordStep::Failed(e) => panic!("unreadable record: {e:?}"),
        }
    }
    assert_eq!(opcodes.last(), Some(&0x02));
    assert!(opcodes.contains(&0x0a) && opcodes.contains(&0x0d) && opcodes.contains(&0x0b));
    assert_eq!(st.attachments().len(), 1);
    let a = &st.attachments()[0];
    assert_eq!((a.log_time, a.create_time, a.name.as_str(), a.media_type.as_str()), (5, 6, "cal.bin", "application/octet-stream"));
    assert_eq!(a.data, vec![1, 2, 3]);
    assert_eq!(st.metadata().len(), 1);
    assert_eq!(st.metadata()[0].name, "meta");
}

#[test]
fn summary_chunk_indexes_are_found_through_the_footer() {
    let chunked = write_basic_file(Some(ChunkOptions { compression: None, max_uncompressed_bytes: 1, include_crc: true }));
    let found = mcapable_core::stream::summary_chunk_indexes(&chunked);
    assert_eq!(found.len(), 1);
    assert_eq!(found[0].0, recs_offset_of_first_chunk(&chunked));
    let plain = write_basic_file(None);
    assert!(mcapable_core::stream::summary_chunk_indexes(&plain).is_empty());
    assert!(mcapable_core::stream::summary_chunk_indexes(&chunked[..40]).is_empty());
}

/// The file offset of the first Chunk record.
fn recs_offset_of_first_chunk(file: &[u8]) -> u64 {
    let mut pos = 8;
    loop {
        let loc = get_record_location(file, pos).expect("record");
        if loc.opcode == 0x06 {
            return pos as u64;
        }
        pos = loc.next_record_start;
    }
}
