use mcapable_core::chunk::{prepare_chunk_for_write, ChunkOptions, ChunkState};
use mcapable_core::decode::{parse_data_end_record, parse_header_record};
use mcapable_core::encode::{encode_data_end, push_len_prefixed_str, push_metadata_map};
use mcapable_core::format::MESSAGE_RECORD_PREFIX_LEN;
use mcapable_core::kv::StringMap;
use mcapable_core::writer::ChannelSpec;

#[test]
fn chunk_state_tracks_len_and_crc() {
    let mut state = ChunkState::new(ChunkOptions {
        compression: None,
        max_uncompressed_bytes: 10_000,
        include_crc: true,
    });

    state.push_message(1, 0, 10, 10, b"abc");
    state.push_message(1, 1, 20, 20, b"");
    assert!(state.has_messages);
    assert_eq!(state.message_start_time, 10);
    assert_eq!(state.message_end_time, 20);

    let flush = state.take_for_flush();
    let expected = flush.records.clone();
    assert_eq!(expected.len(), 2 * MESSAGE_RECORD_PREFIX_LEN + 3);
    assert_eq!(flush.uncompressed_size as usize, expected.len());
    assert_eq!(flush.uncompressed_crc, crc32fast::hash(&expected));
}

#[test]
fn chunk_state_crc_is_zero_when_disabled() {
    let mut state = ChunkState::new(ChunkOptions {
        compression: None,
        max_uncompressed_bytes: 10_000,
        include_crc: false,
    });

    state.push_message(1, 0, 10, 10, b"abc");
    state.push_message(1, 1, 20, 20, b"xyz");
    // No checksum is kept for a chunk without CRC.
    assert!(!state.options.include_crc);

    let flush = state.take_for_flush();
    assert_eq!(flush.uncompressed_crc, 0);
    assert!(flush.uncompressed_size > 0);
}

#[test]
fn prepared_chunk_crc_field_is_zero_when_disabled() {
    let mut state = ChunkState::new(ChunkOptions {
        compression: None,
        max_uncompressed_bytes: 10_000,
        include_crc: false,
    });

    state.push_message(1, 0, 100, 100, b"hello");
    let flush = state.take_for_flush();
    let prepared = prepare_chunk_for_write(0, &flush);

    // The CRC field follows message_start_time, message_end_time and uncompressed_size.
    let crc_bytes = &prepared.record_prefix[24..28];
    let crc_value = u32::from_le_bytes(crc_bytes.try_into().unwrap());
    assert_eq!(crc_value, 0);
}

#[test]
fn data_end_round_trip() {
    let payload = encode_data_end(0xaabbccdd);
    let parsed = parse_data_end_record(&payload).unwrap();
    assert_eq!(parsed, 0xaabbccdd);
}

#[test]
fn header_round_trip_with_metadata() {
    let mut payload = Vec::new();
    let profile = "ros2".to_string();
    let library = "mcapable".to_string();
    push_len_prefixed_str(&mut payload, &profile).unwrap();
    push_len_prefixed_str(&mut payload, &library).unwrap();

    let mut metadata = StringMap::new();
    metadata.insert("key1".to_string(), "value1".to_string());
    metadata.insert("key2".to_string(), "value2".to_string());
    push_metadata_map(&mut payload, &metadata).unwrap();

    let parsed = parse_header_record(&payload).unwrap();
    assert_eq!(parsed.profile, profile);
    assert_eq!(parsed.library, library);
    assert_eq!(parsed.metadata.entries(), metadata.entries());
}

#[test]
fn channel_spec_carries_chunk_override() {
    let opts = ChunkOptions {
        compression: None,
        max_uncompressed_bytes: 1024,
        include_crc: false,
    };
    let spec = ChannelSpec::new("/cam".to_string(), "h264".to_string()).chunk_override(opts.clone());
    assert_eq!(spec.chunk_override, Some(opts));
}

#[test]
fn channel_spec_uncompressed_chunks_helper_sets_compression_none() {
    let spec = ChannelSpec::new("/cam".to_string(), "h264".to_string()).uncompressed_chunks();
    let chunk = spec.chunk_override.expect("override set");
    assert!(chunk.compression.is_none());
}

#[test]
fn channel_spec_default_has_no_override() {
    let spec = ChannelSpec::new("/cam".to_string(), "h264".to_string());
    assert!(spec.chunk_override.is_none());
}

#[test]
fn invalid_keeps_its_message() {
    match mcapable_core::error::invalid("bad record") {
        mcapable_core::error::Error::InvalidRecord(m) => assert_eq!(m, "bad record"),
        other => panic!("unexpected error {other:?}"),
    }
}
