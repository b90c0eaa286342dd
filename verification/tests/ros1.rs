use mcapable_core::error::Error;
use mcapable_core::ros1::message::{Ros1SchemaParser, RosToken};
use mcapable_core::ros1::reader::RosReader;
use mcapable_core::ros1::schema::{
    normalize_type_name, parse_ros1_array, parse_ros1_definitions, parse_ros1_type, RosArray,
    RosType,
};
use mcapable_core::text::{chars_of, line_ranges, parse_usize, split_str_ranges, trim_range, word_ranges};
use mcapable_core::types::Schema;

fn schema(name: &str, data: &[u8]) -> Schema {
    Schema {
        id: 1,
        name: name.to_string(),
        encoding: "ros1msg".to_string(),
        data: data.to_vec(),
    }
}

fn key(s: &str) -> RosToken {
    RosToken::Key(s.to_string())
}

#[test]
fn ros1_dynamic_parser_to_json() {
    let schema = schema("test_msgs/Value", b"int32 value\n");
    let parser = Ros1SchemaParser::from_schema(&schema).expect("schema parser");
    let payload = 42i32.to_le_bytes().to_vec();
    let value = parser.parse_json(&payload).expect("parse json");
    assert_eq!(value, vec![RosToken::Object(1), key("value"), RosToken::Int(42)]);
}

#[test]
fn ros1_invalid_schema() {
    let schema = schema("test_msgs/BadMsg", b"int32\n");
    assert!(Ros1SchemaParser::from_schema(&schema).is_err());
}

#[test]
fn ros1_nested_blocks_arrays_and_time() {
    let text = b"# header comment\nstd_msgs/Header header\nfloat32[2] xy\nstring[] names\nint8 K=3\n\n================================================================================\nMSG: std_msgs/Header\nuint32 seq\ntime stamp\n";
    let schema = schema("pkg/Msg", text);
    let parser = Ros1SchemaParser::from_schema(&schema).expect("schema parser");
    let mut payload = Vec::new();
    payload.extend_from_slice(&7u32.to_le_bytes());
    payload.extend_from_slice(&10u32.to_le_bytes());
    payload.extend_from_slice(&20u32.to_le_bytes());
    payload.extend_from_slice(&1.5f32.to_le_bytes());
    payload.extend_from_slice(&f32::NAN.to_le_bytes());
    payload.extend_from_slice(&1u32.to_le_bytes());
    payload.extend_from_slice(&2u32.to_le_bytes());
    payload.extend_from_slice(b"ab");
    let tokens = parser.parse_json(&payload).expect("parse json");
    assert_eq!(
        tokens,
        vec![
            RosToken::Object(3),
            key("header"),
            RosToken::Object(2),
            key("seq"),
            RosToken::UInt(7),
            key("stamp"),
            RosToken::Time(10, 20),
            key("xy"),
            RosToken::Array(2),
            RosToken::F32(1.5f32.to_bits()),
            RosToken::Null,
            key("names"),
            RosToken::Array(1),
            RosToken::Str("ab".to_string()),
        ]
    );
}

#[test]
fn ros1_short_payload_is_refused() {
    let parser = Ros1SchemaParser::from_schema(&schema("test_msgs/Value", b"int32 value\n")).unwrap();
    assert!(matches!(parser.parse_json(&[1, 2, 3]), Err(Error::InvalidRecord(_))));
}

#[test]
fn ros1_missing_message_is_refused() {
    let parser = Ros1SchemaParser::from_schema(&schema("pkg/A", b"B b\n")).unwrap();
    assert!(parser.parse_json(&[]).is_err());
}

#[test]
fn ros1_self_nesting_without_progress_is_refused() {
    let parser = Ros1SchemaParser::from_schema(&schema("pkg/A", b"A a\n")).unwrap();
    assert!(parser.parse_json(&[]).is_err());
}

#[test]
fn ros1_schema_not_utf8_is_refused() {
    assert!(Ros1SchemaParser::from_schema(&schema("pkg/A", &[0xff, 0xfe])).is_err());
}

#[test]
fn ros1_definitions_later_block_replaces_earlier() {
    let text = "int32 a\n================================================================================\nMSG: pkg/Msg\nint64 b\n";
    let defs = parse_ros1_definitions(text, "pkg/Msg").unwrap();
    assert_eq!(defs.len(), 1);
    let msg = defs.get(&"pkg/Msg".to_string()).unwrap();
    assert_eq!(msg.fields.len(), 1);
    assert_eq!(msg.fields[0].name, "b");
}

#[test]
fn ros1_definitions_missing_name_is_refused() {
    assert!(matches!(parse_ros1_definitions("int32   # only a type\n", "p/T"), Err(Error::InvalidRecord(_))));
    assert!(parse_ros1_definitions("int32 x # comment\nstring NAME=foo\n", "p/T").is_ok());
}

#[test]
fn ros1_array_suffixes() {
    let (base, arr) = parse_ros1_array("uint8[16]").unwrap();
    assert_eq!(base, "uint8");
    assert_eq!(arr, RosArray::Fixed(16));
    let (base, arr) = parse_ros1_array("pkg/T[]").unwrap();
    assert_eq!(base, "pkg/T");
    assert_eq!(arr, RosArray::Variable);
    let (base, arr) = parse_ros1_array("float64").unwrap();
    assert_eq!(base, "float64");
    assert_eq!(arr, RosArray::Single);
    assert!(parse_ros1_array("int8[3").is_err());
    assert!(parse_ros1_array("int8[x]").is_err());
    assert!(parse_ros1_array("int8[-1]").is_err());
    assert_eq!(parse_ros1_array("int8[+4]").unwrap().1, RosArray::Fixed(4));
}

#[test]
fn ros1_type_names() {
    assert!(matches!(parse_ros1_type("char", "pkg"), RosType::I8));
    assert!(matches!(parse_ros1_type("byte", "pkg"), RosType::U8));
    assert!(matches!(parse_ros1_type("duration", "pkg"), RosType::Duration));
    match parse_ros1_type("Point", "geometry_msgs") {
        RosType::Named(n) => assert_eq!(n, "geometry_msgs/Point"),
        _ => panic!("expected a nested type"),
    }
    assert_eq!(normalize_type_name("a/B", "pkg"), "a/B");
    assert_eq!(normalize_type_name("B", ""), "B");
    assert_eq!(normalize_type_name("B", "pkg"), "pkg/B");
}

#[test]
fn ros_reader_reads_little_endian_and_strings() {
    let mut data = vec![1u8, 0xff];
    data.extend_from_slice(&(-2i16).to_le_bytes());
    data.extend_from_slice(&3u32.to_le_bytes());
    data.extend_from_slice(b"abc");
    data.extend_from_slice(&f64::INFINITY.to_le_bytes());
    let mut r = RosReader::new(&data);
    assert_eq!(r.read_bool().unwrap(), true);
    assert_eq!(r.read_i8().unwrap(), -1);
    assert_eq!(r.read_i16().unwrap(), -2);
    assert_eq!(r.read_string().unwrap(), "abc");
    assert_eq!(r.read_f64().unwrap(), None);
    assert_eq!(r.offset(), data.len());
    assert!(r.read_u8().is_err());
    assert_eq!(r.offset(), data.len());
}

#[test]
fn text_helpers() {
    let v = chars_of("a\n==\nb\n==\n");
    let sep = chars_of("\n==\n");
    let r = split_str_ranges(&v, &sep);
    let pieces: Vec<String> = r.iter().map(|&(a, b)| v[a..b].iter().collect()).collect();
    assert_eq!(pieces, vec!["a", "b", ""]);
    let v = chars_of("  x  y\r\nz\n");
    let lines = line_ranges(&v, 0, v.len());
    assert_eq!(lines, vec![(0, 6), (8, 9)]);
    assert_eq!(trim_range(&v, 0, 6), (2, 6));
    assert_eq!(word_ranges(&v, 0, 6), vec![(2, 3), (5, 6)]);
    let d = chars_of("+0012");
    assert_eq!(parse_usize(&d, 0, d.len()), Some(12));
    let d = chars_of("18446744073709551616");
    assert_eq!(parse_usize(&d, 0, d.len()), None);
    let d = chars_of("+");
    assert_eq!(parse_usize(&d, 0, d.len()), None);
}

#[test]
fn ros_reader_names_a_short_read() {
    let data = [1u8, 2];
    let mut r = RosReader::new(&data);
    match r.read_u32() {
        Err(Error::InvalidRecord(m)) => assert_eq!(m, "Unexpected end of ROS message"),
        other => panic!("unexpected {other:?}"),
    }
}

#[test]
fn ros_array_errors_name_the_cause() {
    let msg = |t: &str| match parse_ros1_array(t) {
        Err(Error::InvalidRecord(m)) => m,
        other => panic!("expected an error, got {other:?}"),
    };
    assert_eq!(msg("int32[abc]"), "invalid digit found in string");
    assert_eq!(msg("int32[+]"), "invalid digit found in string");
    assert_eq!(msg("int32[99999999999999999999999]"), "number too large to fit in target type");
    assert_eq!(msg("int32[3"), "Invalid ROS array type");
}
