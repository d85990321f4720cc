use model_gateway::decode::parse_envelope;
use model_gateway::envelope::{
    serialize_envelope, serialize_error, ErrorEnvelope, ErrorEnvelopeInner, ModelEntry,
    ResponseEnvelope,
};

#[test]
fn serialize_success_envelope() {
    let env = ResponseEnvelope {
        data: vec![ModelEntry { id: b"m1".to_vec() }, ModelEntry { id: b"m2".to_vec() }],
    };
    assert_eq!(serialize_envelope(&env), b"{\"data\":[{\"id\":\"m1\"},{\"id\":\"m2\"}]}".to_vec());
}

#[test]
fn serialize_empty_success_envelope() {
    let env = ResponseEnvelope { data: vec![] };
    assert_eq!(serialize_envelope(&env), b"{\"data\":[]}".to_vec());
}

#[test]
fn serialize_error_with_metadata_and_escapes() {
    let env = ErrorEnvelope {
        error: ErrorEnvelopeInner {
            code: 42,
            message: b"x\"y\\z\n".to_vec(),
            metadata: Some(b"m".to_vec()),
        },
    };
    assert_eq!(
        serialize_error(&env),
        b"{\"error\":{\"code\":42,\"message\":\"x\\\"y\\\\z\\u000a\",\"metadata\":\"m\"}}".to_vec()
    );
}

#[test]
fn serialize_error_code_zero() {
    let env = ErrorEnvelope {
        error: ErrorEnvelopeInner { code: 0, message: Vec::new(), metadata: None },
    };
    assert_eq!(
        serialize_error(&env),
        b"{\"error\":{\"code\":0,\"message\":\"\",\"metadata\":null}}".to_vec()
    );
}

#[test]
fn parse_canonical_body() {
    let env = parse_envelope(&b"{\"data\":[{\"id\":\"m1\"}]}".to_vec()).expect("should parse");
    assert_eq!(env.data.len(), 1);
    assert_eq!(env.data[0].id, b"m1".to_vec());
}

#[test]
fn parse_body_with_whitespace() {
    let env = parse_envelope(&b"\n{ \"data\" :\t[ { \"id\" : \"a\" } ] }\r\n".to_vec())
        .expect("should parse");
    assert_eq!(env.data.len(), 1);
    assert_eq!(env.data[0].id, b"a".to_vec());
}

#[test]
fn parse_rejects_wrong_key() {
    assert!(parse_envelope(&b"{\"info\":[]}".to_vec()).is_none());
}

#[test]
fn parse_rejects_record_without_id() {
    assert!(parse_envelope(&b"{\"data\":[{}]}".to_vec()).is_none());
}

#[test]
fn parse_rejects_escape_in_string() {
    assert!(parse_envelope(&b"{\"data\":[{\"id\":\"a\\\"b\"}]}".to_vec()).is_none());
}

#[test]
fn parse_rejects_trailing_comma() {
    assert!(parse_envelope(&b"{\"data\":[{\"id\":\"a\"},]}".to_vec()).is_none());
}
