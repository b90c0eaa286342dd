use mcapable_core::chunk::{ChunkOptions, Compression};
use mcapable_core::decode::{get_record_location, parse_footer_record, parse_message_record};
use mcapable_core::error::Error;
use mcapable_core::format::Opcode;
use mcapable_core::kv::StringMap;
use mcapable_core::types::{Channel, Metadata, Schema};
use mcapable_core::writer::{ChannelSpec, SchemaSpec, Writer, WriterBuilder};

const MAGIC: [u8; 8] = [0x89, b'M', b'C', b'A', b'P', b'0', b'\r', b'\n'];

/// (opcode, payload) of every record between the leading and trailing magic.
fn records(file: &[u8]) -> Vec<(u8, Vec<u8>)> {
    assert_eq!(&file[..8], &MAGIC);
    assert_eq!(&file[file.len() - 8..], &MAGIC);
    let body = &file[8..file.len() - 8];
    let mut out = Vec::new();
    let mut pos = 0;
    while pos < body.len() {
        let loc = get_record_location(body, pos).expect("record");
        out.push((loc.opcode, body[loc.content_start..loc.next_record_start].to_vec()));
        pos = loc.next_record_start;
    }
    out
}

fn opcodes(file: &[u8]) -> Vec<u8> {
    records(file).iter().map(|r| r.0).collect()
}

fn drain(w: &mut Writer, file: &mut Vec<u8>) {
    file.extend_from_slice(&w.take_output());
}

#[test]
fn empty_file_has_no_summary() {
    let mut w = WriterBuilder::new().build(0).unwrap();
    w.finish().unwrap();
    let mut file = Vec::new();
    drain(&mut w, &mut file);
    assert_eq!(opcodes(&file), vec![0x01, 0x0f, 0x02]);
    let recs = records(&file);
    let footer = parse_footer_record(&recs[2].1).unwrap();
    assert_eq!((footer.summary_start, footer.summary_offset_start, footer.summary_crc), (0, 0, 0));
    assert_eq!(w.position(), file.len() as u64);
}

#[test]
fn finish_is_idempotent_and_writes_are_refused_after() {
    let mut w = WriterBuilder::new().build(0).unwrap();
    let mut ch = w.add_channel(ChannelSpec::new("/t".to_string(), "raw".to_string())).unwrap();
    w.finish().unwrap();
    let len = w.position();
    w.finish().unwrap();
    assert_eq!(w.position(), len);
    assert!(matches!(ch.write(&mut w, 1, 1, b"x"), Err(Error::InvalidRecord(_))));
    let md = Metadata { name: "m".to_string(), metadata: StringMap::new() };
    assert!(w.copy_metadata(&md).is_err());
    assert_eq!(w.position(), len);
}

#[test]
fn messages_and_summary() {
    let mut w = WriterBuilder::new().profile("test").build(0).unwrap();
    let schema = SchemaSpec::new("pkg/Msg".to_string(), "jsonschema".to_string(), b"{}".to_vec());
    let mut ch = w
        .add_channel(ChannelSpec::new("/a".to_string(), "json".to_string()).schema(schema))
        .unwrap();
    assert_eq!(ch.channel_id(), 1);
    ch.write(&mut w, 10, 11, b"one").unwrap();
    ch.write(&mut w, 5, 6, b"two").unwrap();
    w.finish().unwrap();
    let mut file = Vec::new();
    drain(&mut w, &mut file);

    let recs = records(&file);
    let ops: Vec<u8> = recs.iter().map(|r| r.0).collect();
    // header, schema, channel, 2 messages, data end, summary (schema, channel,
    // statistics), 3 summary offsets, footer
    assert_eq!(ops, vec![0x01, 0x03, 0x04, 0x05, 0x05, 0x0f, 0x03, 0x04, 0x0b, 0x0e, 0x0e, 0x0e, 0x02]);

    let m0 = parse_message_record(&recs[3].1).unwrap();
    assert_eq!((m0.channel_id, m0.sequence, m0.log_time, m0.publish_time), (1, 0, 10, 11));
    let m1 = parse_message_record(&recs[4].1).unwrap();
    assert_eq!((m1.sequence, m1.log_time), (1, 5));

    // statistics: 2 messages, 1 schema, 1 channel, times 5..10, counts {1: 2}
    let stats = &recs[8].1;
    assert_eq!(u64::from_le_bytes(stats[0..8].try_into().unwrap()), 2);
    assert_eq!(u16::from_le_bytes(stats[8..10].try_into().unwrap()), 1);
    assert_eq!(u32::from_le_bytes(stats[10..14].try_into().unwrap()), 1);
    assert_eq!(u64::from_le_bytes(stats[26..34].try_into().unwrap()), 5);
    assert_eq!(u64::from_le_bytes(stats[34..42].try_into().unwrap()), 10);
    assert_eq!(u32::from_le_bytes(stats[42..46].try_into().unwrap()), 10);
    assert_eq!(u16::from_le_bytes(stats[46..48].try_into().unwrap()), 1);
    assert_eq!(u64::from_le_bytes(stats[48..56].try_into().unwrap()), 2);

    // footer points at the summary and carries the CRC of its records
    let footer = parse_footer_record(&recs[12].1).unwrap();
    let start = footer.summary_start as usize;
    let offsets = footer.summary_offset_start as usize;
    assert_eq!(file[start], 0x03);
    assert_eq!(file[offsets], 0x0e);
    assert_eq!(footer.summary_crc, crc32fast::hash(&file[start..offsets]));
    assert_ne!(footer.summary_crc, 0);
}

#[test]
fn identical_schemas_are_reused() {
    let mut w = WriterBuilder::new().build(0).unwrap();
    let spec = || SchemaSpec::new("S".to_string(), "e".to_string(), vec![1, 2, 3]);
    let a = w.add_channel(ChannelSpec::new("/a".to_string(), "x".to_string()).schema(spec())).unwrap();
    let b = w.add_channel(ChannelSpec::new("/b".to_string(), "x".to_string()).schema(spec())).unwrap();
    assert_eq!((a.channel_id(), b.channel_id()), (1, 2));
    w.finish().unwrap();
    let mut file = Vec::new();
    drain(&mut w, &mut file);
    let recs = records(&file);
    let schema_records = recs.iter().take_while(|r| r.0 != 0x0f).filter(|r| r.0 == 0x03).count();
    assert_eq!(schema_records, 1);
    let channel_b = recs.iter().filter(|r| r.0 == 0x04).nth(1).unwrap();
    assert_eq!(u16::from_le_bytes(channel_b.1[2..4].try_into().unwrap()), 1);
}

#[test]
fn schema_id_zero_is_refused() {
    let mut w = WriterBuilder::new().build(0).unwrap();
    let s = Schema { id: 0, name: "n".to_string(), encoding: "e".to_string(), data: vec![] };
    assert!(matches!(w.copy_schema(&s), Err(Error::InvalidRecord(_))));
    assert_eq!(w.position(), 0);
}

#[test]
fn chunked_messages_are_written_in_a_chunk() {
    let mut w = WriterBuilder::new().chunked(ChunkOptions::default()).build(0).unwrap();
    let mut ch = w.add_channel(ChannelSpec::new("/c".to_string(), "raw".to_string())).unwrap();
    ch.write(&mut w, 3, 3, b"aa").unwrap();
    ch.write(&mut w, 1, 1, b"bbb").unwrap();
    w.finish().unwrap();
    let mut file = Vec::new();
    drain(&mut w, &mut file);
    let recs = records(&file);
    let ops: Vec<u8> = recs.iter().map(|r| r.0).collect();
    assert_eq!(&ops[..4], &[0x01, 0x04, 0x06, 0x0f]);
    let chunk = &recs[2].1;
    assert_eq!(u64::from_le_bytes(chunk[0..8].try_into().unwrap()), 1);
    assert_eq!(u64::from_le_bytes(chunk[8..16].try_into().unwrap()), 3);
    let records_len = u64::from_le_bytes(chunk[16..24].try_into().unwrap()) as usize;
    assert_eq!(records_len, 31 + 2 + 31 + 3);
    let crc = u32::from_le_bytes(chunk[24..28].try_into().unwrap());
    assert_eq!(crc, crc32fast::hash(&chunk[chunk.len() - records_len..]));
    assert!(ops.contains(&0x08));
}

#[test]
fn small_chunk_limit_flushes_early() {
    let opts = ChunkOptions { compression: None, max_uncompressed_bytes: 10, include_crc: false };
    let mut w = WriterBuilder::new().chunked(opts).build(0).unwrap();
    let mut ch = w.add_channel(ChannelSpec::new("/c".to_string(), "raw".to_string())).unwrap();
    ch.write(&mut w, 1, 1, b"x").unwrap();
    ch.write(&mut w, 2, 2, b"y").unwrap();
    w.finish().unwrap();
    let mut file = Vec::new();
    drain(&mut w, &mut file);
    let chunks: Vec<_> = records(&file).into_iter().filter(|r| r.0 == 0x06).collect();
    assert_eq!(chunks.len(), 2);
    assert_eq!(u32::from_le_bytes(chunks[0].1[24..28].try_into().unwrap()), 0);
}

#[test]
fn compressed_chunks_are_refused() {
    let opts = ChunkOptions { compression: Some(Compression::Zstd), ..ChunkOptions::default() };
    assert!(matches!(WriterBuilder::new().chunked(opts).build(0), Err(Error::UnsupportedCompression)));
    let mut w = WriterBuilder::new().build(0).unwrap();
    let c = Channel {
        id: 4,
        topic: "/t".to_string(),
        message_encoding: "x".to_string(),
        schema_id: 0,
        metadata: StringMap::new(),
    };
    assert!(matches!(w.copy_channel_with_override(&c, opts), Err(Error::UnsupportedCompression)));
}

#[test]
fn override_stream_collects_its_channel() {
    let mut w = WriterBuilder::new().build(0).unwrap();
    let mut a = w
        .add_channel(ChannelSpec::new("/video".to_string(), "h264".to_string()).uncompressed_chunks())
        .unwrap();
    let mut b = w.add_channel(ChannelSpec::new("/log".to_string(), "raw".to_string())).unwrap();
    assert!(w.has_override_stream(a.channel_id()));
    a.write(&mut w, 1, 1, b"frame").unwrap();
    b.write(&mut w, 2, 2, b"line").unwrap();
    w.finish().unwrap();
    let mut file = Vec::new();
    drain(&mut w, &mut file);
    let ops = opcodes(&file);
    // the top-level message of /log comes before the chunk of /video, flushed at finish
    let msg = ops.iter().position(|&o| o == 0x05).unwrap();
    let chunk = ops.iter().position(|&o| o == 0x06).unwrap();
    assert!(msg < chunk);
}

#[test]
fn attachment_record_carries_crc() {
    let mut w = WriterBuilder::new().build(0).unwrap();
    let mut aw = w.attachment_writer();
    aw.write(&mut w, 5, 6, &"a.txt".to_string(), &"text/plain".to_string(), b"hello").unwrap();
    w.finish().unwrap();
    let mut file = Vec::new();
    drain(&mut w, &mut file);
    let recs = records(&file);
    let att = recs.iter().find(|r| r.0 == 0x09).unwrap();
    let n = att.1.len();
    assert_eq!(u32::from_le_bytes(att.1[n - 4..].try_into().unwrap()), 0x3610a686);
    assert!(recs.iter().any(|r| r.0 == 0x0a));
}

#[test]
fn metadata_is_indexed() {
    let mut w = WriterBuilder::new().build(0).unwrap();
    let mut m = StringMap::new();
    m.insert("k".to_string(), "v".to_string());
    w.copy_metadata(&Metadata { name: "calib".to_string(), metadata: m }).unwrap();
    w.finish().unwrap();
    let mut file = Vec::new();
    drain(&mut w, &mut file);
    let recs = records(&file);
    let idx = recs.iter().find(|r| r.0 == 0x0d).unwrap();
    let offset = u64::from_le_bytes(idx.1[0..8].try_into().unwrap()) as usize;
    assert_eq!(file[offset], 0x0c);
}

#[test]
fn raw_record_bytes_are_copied_and_indexed() {
    let mut src = WriterBuilder::new().build(0).unwrap();
    let mut ch = src.add_channel(ChannelSpec::new("/r".to_string(), "raw".to_string())).unwrap();
    ch.write(&mut src, 7, 7, b"z").unwrap();
    src.finish().unwrap();
    let mut file = Vec::new();
    drain(&mut src, &mut file);
    let body = &file[8..];
    let mut dst = WriterBuilder::new().build(0).unwrap();
    let mut pos = 0;
    loop {
        let loc = get_record_location(body, pos).unwrap();
        if loc.opcode == 0x0f {
            break;
        }
        if loc.opcode != 0x01 {
            dst.copy_raw_record_bytes(&body[pos..loc.next_record_start]).unwrap();
        }
        pos = loc.next_record_start;
    }
    dst.finish().unwrap();
    let mut out = Vec::new();
    drain(&mut dst, &mut out);
    let ops = opcodes(&out);
    assert_eq!(&ops[..4], &[0x01, 0x04, 0x05, 0x0f]);
    let stats = records(&out).into_iter().find(|r| r.0 == 0x0b).unwrap();
    assert_eq!(u64::from_le_bytes(stats.1[0..8].try_into().unwrap()), 1);
    assert!(matches!(dst.copy_raw_record_bytes(&[1, 2]), Err(Error::InvalidRecord(_))));
    let _ = Opcode::Chunk;
}

#[test]
fn start_position_offsets_positions() {
    let mut w = WriterBuilder::new().build(100).unwrap();
    assert_eq!(w.position(), 100);
    w.finish().unwrap();
    let out = w.take_output();
    assert_eq!(w.position(), 100 + out.len() as u64);
}

#[test]
fn writes_after_finish_name_the_record() {
    let mut w = WriterBuilder::new().build(0).unwrap();
    w.finish().unwrap();
    let schema = Schema { id: 1, name: "s".into(), encoding: "e".into(), data: vec![] };
    match w.copy_schema(&schema) {
        Err(Error::InvalidRecord(m)) => assert_eq!(m, "cannot write schema after finish"),
        other => panic!("unexpected {other:?}"),
    }
    match w.copy_raw_record(Opcode::Metadata, &[]) {
        Err(Error::InvalidRecord(m)) => assert_eq!(m, "cannot write record after finish"),
        other => panic!("unexpected {other:?}"),
    }
    match w.copy_raw_record_bytes(&[0x0c, 0, 0, 0, 0, 0, 0, 0, 0]) {
        Err(Error::InvalidRecord(m)) => assert_eq!(m, "cannot write record after finish"),
        other => panic!("unexpected {other:?}"),
    }
}

#[test]
fn refused_raw_record_bytes_leave_the_writer_alone() {
    let mut w = WriterBuilder::new().build(0).unwrap();
    let before = w.position();
    // Unknown opcode.
    assert!(w.copy_raw_record_bytes(&[0x42, 0, 0, 0, 0, 0, 0, 0, 0]).is_err());
    // Length mismatch.
    assert!(w.copy_raw_record_bytes(&[0x0c, 5, 0, 0, 0, 0, 0, 0, 0]).is_err());
    assert_eq!(w.position(), before);
    assert!(w.take_output().is_empty());
}
