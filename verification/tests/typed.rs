use mcapable_core::error::Error;
use mcapable_core::ros1::message::RosToken;
use mcapable_core::typed::SchemaTypedParser;
use mcapable_core::types::Schema;

#[derive(Debug, PartialEq)]
struct TestMessage {
    value: i32,
}

#[test]
fn typed_parser_rejects_mismatched_schema() {
    let schema = Schema {
        id: 10,
        name: "Test".into(),
        encoding: "jsonschema".into(),
        data: b"{}".to_vec(),
    };
    let result = SchemaTypedParser::from_schema_where(
        &schema,
        |schema: &Schema| schema.encoding == "protobuf",
        |_: Vec<RosToken>| Ok(TestMessage { value: 0 }),
    );
    assert!(result.is_err());
}

fn value_of(tokens: Vec<RosToken>) -> Result<TestMessage, Error> {
    match tokens.as_slice() {
        [RosToken::Object(1), RosToken::Key(k), RosToken::Int(v)] if k == "value" => {
            Ok(TestMessage { value: *v as i32 })
        }
        _ => Err(Error::InvalidRecord("unexpected shape".to_string())),
    }
}

#[test]
fn typed_parser_maps_ros1_message() {
    let schema = Schema {
        id: 2,
        name: "test_msgs/Value".into(),
        encoding: "ros1msg".into(),
        data: b"int32 value\n".to_vec(),
    };
    let parser = SchemaTypedParser::from_schema_where(
        &schema,
        |schema: &Schema| schema.encoding == "ros1msg",
        value_of,
    )
    .expect("typed parser");
    let payload = 42i32.to_le_bytes().to_vec();
    assert_eq!(parser.parse(&payload).unwrap(), TestMessage { value: 42 });
    assert!(parser.parse(&[1]).is_err());
}
