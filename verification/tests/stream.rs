use mcapable_core::error::Error;
use mcapable_core::format::Opcode;
use mcapable_core::stream::{
    create_record_metadata, default_schema_parser, default_schema_parser_for,
    is_registry_schema_encoding, message_index_has_timestamp_in_range, normalize_root_name,
    parse_message_metadata, parser_kind_from_str, scoped_name, McapParserKind, SchemaDefaultParser,
    SchemaParser, chunk_might_have_messages_in_range_via_index, IndexProbe, default_parse_route,
    DefaultRoute, chunk_overlaps_time_range, chunk_passes_filters, chunk_to_metadata,
    passes_common_filters_cached, record_channel_decision, FilterStep, next_chunk_message,
};
use mcapable_core::types::{Chunk, MessageIndex, MessageIndexEntry, RecordSource, Schema};

fn index(ts: &[u64]) -> MessageIndex {
    MessageIndex {
        channel_id: 1,
        records: ts
            .iter()
            .enumerate()
            .map(|(i, &t)| MessageIndexEntry { timestamp: t, offset: i as u64 })
            .collect(),
    }
}

#[test]
fn registry_encodings_and_default_parsers() {
    assert!(is_registry_schema_encoding(""));
    assert!(is_registry_schema_encoding("ros2idl"));
    assert!(!is_registry_schema_encoding("ROS1MSG"));
    assert_eq!(default_schema_parser("jsonschema"), Some(SchemaDefaultParser::Json));
    assert_eq!(default_schema_parser("protobuf"), Some(SchemaDefaultParser::Bytes));
    assert_eq!(default_schema_parser("custom"), None);
    assert_eq!(default_schema_parser_for(None), None);
    let schema = Schema { id: 1, name: "n".into(), encoding: "jsonschema".into(), data: vec![] };
    assert_eq!(default_schema_parser_for(Some(&schema)), Some(SchemaDefaultParser::Json));
}

#[test]
fn message_index_time_range() {
    let idx = index(&[10, 20, 30]);
    assert!(message_index_has_timestamp_in_range(&idx, 15, 20));
    assert!(message_index_has_timestamp_in_range(&idx, 0, 10));
    assert!(!message_index_has_timestamp_in_range(&idx, 21, 29));
    assert!(!message_index_has_timestamp_in_range(&idx, 31, 100));
    assert!(!message_index_has_timestamp_in_range(&index(&[]), 0, u64::MAX));
    // Entries out of time order are still found.
    assert!(message_index_has_timestamp_in_range(&index(&[30, 5, 12]), 11, 13));
}

#[test]
fn record_metadata_total_length() {
    let m = create_record_metadata(Opcode::Message, 100, 8, RecordSource::File, None).unwrap();
    assert_eq!(m.total_len, 109);
    assert_eq!(m.offset, 8);
    assert!(matches!(
        create_record_metadata(Opcode::Message, u64::MAX - 8, 42, RecordSource::File, None),
        Err(Error::UnexpectedEof(42))
    ));
}

#[test]
fn message_metadata_from_header_bytes() {
    let mut buf = Vec::new();
    buf.extend_from_slice(&7u16.to_le_bytes());
    buf.extend_from_slice(&9u32.to_le_bytes());
    buf.extend_from_slice(&100u64.to_le_bytes());
    buf.extend_from_slice(&200u64.to_le_bytes());
    let m = parse_message_metadata(&buf, 5);
    assert_eq!((m.channel_id, m.sequence, m.log_time, m.publish_time, m.data_size), (7, 9, 100, 200, 5));
}

#[test]
fn idl_names() {
    assert_eq!(scoped_name(&[], "Point"), "Point");
    assert_eq!(scoped_name(&["geometry".to_string(), "msg".to_string()], "Point"), "geometry::msg::Point");
    assert_eq!(normalize_root_name("geometry_msgs/msg/Point"), "geometry_msgs::msg::Point");
    assert_eq!(normalize_root_name("/a/B"), "a::B");
    assert_eq!(normalize_root_name("::::x"), "x");
}

#[test]
fn parser_kinds() {
    assert_eq!(parser_kind_from_str("JSON"), Ok(McapParserKind::Json));
    assert_eq!(parser_kind_from_str("Schema_Bytes"), Ok(McapParserKind::SchemaBytes));
    assert_eq!(parser_kind_from_str("bytes"), Ok(McapParserKind::Bytes));
    assert_eq!(parser_kind_from_str("xml"), Err("unsupported parser kind: xml".to_string()));
}

#[test]
fn schema_parser_dispatch() {
    let ros1 = Schema { id: 1, name: "p/T".into(), encoding: "ros1msg".into(), data: b"int8 x\n".to_vec() };
    assert!(matches!(SchemaParser::from_schema(&ros1), Ok(SchemaParser::Ros1(_))));
    let other = Schema { id: 2, name: "p/T".into(), encoding: "cbor".into(), data: vec![] };
    assert!(matches!(SchemaParser::from_schema(&other), Err(Error::InvalidRecord(_))));
}

#[test]
fn chunk_index_probes() {
    let probe = |channel_id: u16, allowed: bool, offset: u64, index: Option<MessageIndex>| IndexProbe {
        channel_id,
        allowed,
        offset,
        index,
    };
    assert!(chunk_might_have_messages_in_range_via_index(None, 0, 10));
    assert!(chunk_might_have_messages_in_range_via_index(Some(&vec![]), 0, 10));
    // Index of channel 1 holds 10, 20, 30: no time in [21, 29].
    let miss = vec![probe(1, true, 100, Some(index(&[10, 20, 30])))];
    assert!(!chunk_might_have_messages_in_range_via_index(Some(&miss), 21, 29));
    assert!(chunk_might_have_messages_in_range_via_index(Some(&miss), 21, 30));
    // A filtered-out channel never keeps the chunk.
    let filtered = vec![probe(1, false, 0, None)];
    assert!(!chunk_might_have_messages_in_range_via_index(Some(&filtered), 0, 10));
    // A missing offset, an unreadable index or another channel's index keeps it.
    assert!(chunk_might_have_messages_in_range_via_index(Some(&vec![probe(1, true, 0, None)]), 21, 29));
    assert!(chunk_might_have_messages_in_range_via_index(Some(&vec![probe(1, true, 5, None)]), 21, 29));
    assert!(chunk_might_have_messages_in_range_via_index(Some(&vec![probe(2, true, 5, Some(index(&[10])))]), 21, 29));
}

#[test]
fn schema_parser_decodes_ros1() {
    let ros1 = Schema { id: 1, name: "p/T".into(), encoding: "ros1msg".into(), data: b"uint16 x\n".to_vec() };
    let parser = SchemaParser::from_schema(&ros1).unwrap();
    let tokens = parser.parse_json(&[0x34, 0x12]).unwrap();
    assert_eq!(
        tokens,
        vec![
            mcapable_core::ros1::message::RosToken::Object(1),
            mcapable_core::ros1::message::RosToken::Key("x".to_string()),
            mcapable_core::ros1::message::RosToken::UInt(0x1234),
        ]
    );
}

#[test]
fn default_parser_routes() {
    let schema = |encoding: &str| Schema { id: 1, name: "n".into(), encoding: encoding.into(), data: vec![] };
    assert_eq!(default_parse_route("cbor", None), DefaultRoute::SelfDescribing);
    assert_eq!(default_parse_route("ros1", Some(&schema("jsonschema"))), DefaultRoute::SelfDescribing);
    assert_eq!(default_parse_route("ros1", Some(&schema("ros1msg"))), DefaultRoute::Schema);
    assert_eq!(default_parse_route("cdr", Some(&schema("omgidl"))), DefaultRoute::Schema);
    assert_eq!(default_parse_route("raw", Some(&schema(""))), DefaultRoute::Bytes);
    assert_eq!(default_parse_route("raw", None), DefaultRoute::Bytes);
}

fn chunk(start: u64, end: u64) -> Chunk {
    Chunk {
        message_start_time: start,
        message_end_time: end,
        uncompressed_size: 10,
        uncompressed_crc: 7,
        compression: "zstd".to_string(),
        records: vec![1, 2, 3],
    }
}

#[test]
fn chunk_filters() {
    assert!(chunk_overlaps_time_range(None, 5, 9));
    assert!(chunk_overlaps_time_range(Some((9, 20)), 5, 9));
    assert!(!chunk_overlaps_time_range(Some((10, 20)), 5, 9));
    assert!(!chunk_overlaps_time_range(Some((0, 4)), 5, 9));
    let c = chunk(5, 9);
    assert!(chunk_passes_filters(&c, Some((0, 5)), None));
    assert!(!chunk_passes_filters(&c, Some((0, 5)), Some(&vec![false, false])));
    assert!(chunk_passes_filters(&c, None, Some(&vec![false, true])));
    assert!(!chunk_passes_filters(&c, Some((10, 11)), Some(&vec![true])));
    let m = chunk_to_metadata(&c);
    assert_eq!((m.message_start_time, m.message_end_time, m.uncompressed_size, m.uncompressed_crc), (5, 9, 10, 7));
    assert_eq!(m.compression, "zstd");
    assert_eq!(m.compressed_size, 3);
}

#[test]
fn channel_filter_cache() {
    let mut cache = Vec::new();
    assert_eq!(passes_common_filters_cached(Some((10, 20)), true, &mut cache, 3, 5), FilterStep::Reject);
    assert!(cache.is_empty());
    assert_eq!(passes_common_filters_cached(None, false, &mut cache, 3, 5), FilterStep::Accept);
    assert_eq!(passes_common_filters_cached(None, true, &mut cache, 3, 5), FilterStep::AskPredicate);
    assert_eq!(cache.len(), 65536);
    assert!(!record_channel_decision(&mut cache, 3, false));
    assert!(record_channel_decision(&mut cache, 4, true));
    assert_eq!(passes_common_filters_cached(Some((0, 9)), true, &mut cache, 3, 5), FilterStep::Reject);
    assert_eq!(passes_common_filters_cached(Some((0, 9)), true, &mut cache, 4, 5), FilterStep::Accept);
    assert_eq!(passes_common_filters_cached(Some((0, 9)), true, &mut cache, 5, 5), FilterStep::AskPredicate);
}

fn record(opcode: u8, content: &[u8]) -> Vec<u8> {
    let mut v = vec![opcode];
    v.extend_from_slice(&(content.len() as u64).to_le_bytes());
    v.extend_from_slice(content);
    v
}

fn message_content(channel_id: u16, sequence: u32, log_time: u64, data: &[u8]) -> Vec<u8> {
    let mut c = Vec::new();
    c.extend_from_slice(&channel_id.to_le_bytes());
    c.extend_from_slice(&sequence.to_le_bytes());
    c.extend_from_slice(&log_time.to_le_bytes());
    c.extend_from_slice(&(log_time + 1).to_le_bytes());
    c.extend_from_slice(data);
    c
}

#[test]
fn chunk_message_scan() {
    let mut records = record(0x03, b"schema");
    let first = records.len();
    records.extend(record(0x05, &message_content(2, 7, 100, b"abc")));
    let second = records.len();
    records.extend(record(0x05, &message_content(3, 8, 200, b"")));
    let (m, p) = next_chunk_message(&records, 0).unwrap();
    assert_eq!((m.channel_id, m.sequence, m.log_time, m.publish_time), (2, 7, 100, 101));
    assert_eq!(m.payload.as_slice(), b"abc");
    assert_eq!(p, second);
    let (m, p) = next_chunk_message(&records, p).unwrap();
    assert_eq!((m.channel_id, m.log_time), (3, 200));
    assert_eq!(p, records.len());
    assert!(next_chunk_message(&records, p).is_none());
    // Stepping lists what a scan lists.
    let mut stepped = Vec::new();
    let mut at = 0;
    while let Some((m, next)) = next_chunk_message(&records, at) {
        stepped.push((m.channel_id, m.log_time));
        at = next;
    }
    assert_eq!(stepped, mcapable_core::decode::scan_messages(&records));
    // A truncated record ends the scan.
    assert!(next_chunk_message(&records[..first + 5], 0).is_none());
    // A message too short for its header ends the scan.
    let bad = record(0x05, b"short");
    assert!(next_chunk_message(&bad, 0).is_none());
}
