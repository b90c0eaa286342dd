use mcapable_core::chunk::{ChunkOptions, Compression};
use mcapable_core::decode::{
    decode_record_header, parse_channel_record, parse_footer_record, parse_header_record,
    parse_schema_record, record_header, scan_messages,
};
use mcapable_core::encode::{
    encode_footer, push_len_prefixed_str, push_metadata_map, push_record_header, write_magic,
};
use mcapable_core::error::Error;
use mcapable_core::format::{mcap_magic, Opcode};
use mcapable_core::kv::StringMap;

#[test]
fn record_header_round_trip() {
    let mut buf = Vec::new();
    push_record_header(&mut buf, Opcode::Schema, 1234);
    let (opcode, length) = record_header(&buf).unwrap();
    assert_eq!(opcode, Opcode::Schema.as_u8());
    assert_eq!(length, 1234);
}

#[test]
fn chunk_options_eq() {
    let a = ChunkOptions {
        compression: Some(Compression::Zstd),
        max_uncompressed_bytes: 4096,
        include_crc: true,
    };
    let b = a.clone();
    assert_eq!(a, b);

    let differs_compression = ChunkOptions {
        compression: None,
        ..a.clone()
    };
    let differs_size = ChunkOptions {
        max_uncompressed_bytes: 0,
        ..a.clone()
    };
    let differs_crc = ChunkOptions {
        include_crc: false,
        ..a.clone()
    };
    assert_ne!(a, differs_compression);
    assert_ne!(a, differs_size);
    assert_ne!(a, differs_crc);
}

#[test]
fn chunk_options_default() {
    let d = ChunkOptions::default();
    assert_eq!(d.compression, None);
    assert_eq!(d.max_uncompressed_bytes, 4 * 1024 * 1024);
    assert!(d.include_crc);
    assert_eq!(Compression::Zstd.as_str(), "zstd");
    assert_eq!(Compression::Lz4.as_str(), "lz4");
}

#[test]
fn opcode_bytes_round_trip() {
    for b in 0u8..=255 {
        match Opcode::from_repr(b) {
            Some(op) => assert_eq!(op.as_u8(), b),
            None => assert!(b == 0 || b > 0x0f),
        }
    }
    assert_eq!(Opcode::DataEnd.as_u8(), 0x0f);
}

#[test]
fn magic_bytes_written() {
    let mut buf = Vec::new();
    write_magic(&mut buf);
    assert_eq!(buf, vec![0x89, b'M', b'C', b'A', b'P', b'0', b'\r', b'\n']);
    assert_eq!(mcap_magic(), buf);
}

#[test]
fn footer_round_trip() {
    let payload = encode_footer(10, 20, 0x12345678);
    let parsed = parse_footer_record(&payload).unwrap();
    assert_eq!(parsed.summary_start, 10);
    assert_eq!(parsed.summary_offset_start, 20);
    assert_eq!(parsed.summary_crc, 0x12345678);
}

#[test]
fn decode_unknown_opcode_is_refused() {
    let mut buf = vec![0x42u8];
    buf.extend_from_slice(&7u64.to_le_bytes());
    assert!(matches!(decode_record_header(&buf), Err(Error::InvalidRecord(_))));
    assert!(record_header(&buf[..5]).is_none());
}

#[test]
fn header_payload_round_trip() {
    let mut payload = Vec::new();
    push_len_prefixed_str(&mut payload, &"ros1".to_string()).unwrap();
    push_len_prefixed_str(&mut payload, &"lib".to_string()).unwrap();
    let mut m = StringMap::new();
    m.insert("k".to_string(), "v".to_string());
    m.insert("k".to_string(), "w".to_string());
    push_metadata_map(&mut payload, &m).unwrap();
    let h = parse_header_record(&payload).unwrap();
    assert_eq!(h.profile, "ros1");
    assert_eq!(h.library, "lib");
    assert_eq!(h.metadata.len(), 1);
    assert_eq!(h.metadata.get(&"k".to_string()), Some(&"w".to_string()));
}

#[test]
fn schema_and_channel_payloads_parse() {
    let mut p = Vec::new();
    p.extend_from_slice(&7u16.to_le_bytes());
    push_len_prefixed_str(&mut p, &"pkg/Msg".to_string()).unwrap();
    push_len_prefixed_str(&mut p, &"ros1msg".to_string()).unwrap();
    p.extend_from_slice(&3u32.to_le_bytes());
    p.extend_from_slice(b"abc");
    let s = parse_schema_record(&p).unwrap();
    assert_eq!((s.id, s.name.as_str(), s.encoding.as_str(), s.data.as_slice()), (7, "pkg/Msg", "ros1msg", &b"abc"[..]));
    assert!(parse_schema_record(&p[..p.len() - 1]).is_err());

    let mut c = Vec::new();
    c.extend_from_slice(&2u16.to_le_bytes());
    c.extend_from_slice(&7u16.to_le_bytes());
    push_len_prefixed_str(&mut c, &"/t".to_string()).unwrap();
    push_len_prefixed_str(&mut c, &"cdr".to_string()).unwrap();
    push_metadata_map(&mut c, &StringMap::new()).unwrap();
    let ch = parse_channel_record(&c).unwrap();
    assert_eq!((ch.id, ch.schema_id, ch.topic.as_str(), ch.message_encoding.as_str()), (2, 7, "/t", "cdr"));
}

#[test]
fn scan_messages_stops_at_truncation() {
    let mut recs = Vec::new();
    // one message on channel 3 at log time 11, with 2 data bytes
    recs.push(0x05);
    recs.extend_from_slice(&24u64.to_le_bytes());
    recs.extend_from_slice(&3u16.to_le_bytes());
    recs.extend_from_slice(&0u32.to_le_bytes());
    recs.extend_from_slice(&11u64.to_le_bytes());
    recs.extend_from_slice(&12u64.to_le_bytes());
    recs.extend_from_slice(b"hi");
    // a truncated record
    recs.push(0x05);
    recs.extend_from_slice(&100u64.to_le_bytes());
    assert_eq!(scan_messages(&recs), vec![(3, 11)]);
}
