use model_gateway::handler::{handle_upstream_result, UpstreamResult};

#[test]
fn success_body_relayed_with_upstream_status() {
    let body = b"{\"data\":[{\"id\":\"m1\"}]}".to_vec();
    let r = handle_upstream_result(UpstreamResult::Received { status: 200, body });
    assert_eq!(r.status, 200);
    assert_eq!(r.body, b"{\"data\":[{\"id\":\"m1\"}]}".to_vec());
}

#[test]
fn transport_failure_is_500_error_envelope() {
    let r = handle_upstream_result(UpstreamResult::TransportFailure {
        message: b"connection refused".to_vec(),
    });
    assert_eq!(r.status, 500);
    assert_eq!(
        r.body,
        b"{\"error\":{\"code\":500,\"message\":\"connection refused\",\"metadata\":null}}".to_vec()
    );
}

#[test]
fn invalid_body_is_500_even_on_upstream_200() {
    let r = handle_upstream_result(UpstreamResult::Received {
        status: 200,
        body: b"plain text, not json".to_vec(),
    });
    assert_eq!(r.status, 500);
    assert_eq!(
        r.body,
        b"{\"error\":{\"code\":500,\"message\":\"invalid upstream body\",\"metadata\":null}}".to_vec()
    );
}

#[test]
fn upstream_404_with_schema_body_is_relayed_as_404() {
    let r = handle_upstream_result(UpstreamResult::Received {
        status: 404,
        body: b"{\"data\":[]}".to_vec(),
    });
    assert_eq!(r.status, 404);
    assert_eq!(r.body, b"{\"data\":[]}".to_vec());
}

#[test]
fn upstream_503_with_schema_body_is_relayed_as_503() {
    let r = handle_upstream_result(UpstreamResult::Received {
        status: 503,
        body: b"{\"data\":[{\"id\":\"x\"}]}".to_vec(),
    });
    assert_eq!(r.status, 503);
    assert_eq!(r.body, b"{\"data\":[{\"id\":\"x\"}]}".to_vec());
}

#[test]
fn whitespace_body_is_reserialized_canonically() {
    let body = b" { \"data\" : [ { \"id\" : \"a\" } , { \"id\" : \"b\" } ] } ".to_vec();
    let r = handle_upstream_result(UpstreamResult::Received { status: 200, body });
    assert_eq!(r.status, 200);
    assert_eq!(r.body, b"{\"data\":[{\"id\":\"a\"},{\"id\":\"b\"}]}".to_vec());
}

#[test]
fn truncated_body_is_decode_failure() {
    let r = handle_upstream_result(UpstreamResult::Received {
        status: 200,
        body: b"{\"data\":[".to_vec(),
    });
    assert_eq!(r.status, 500);
    assert_eq!(
        r.body,
        b"{\"error\":{\"code\":500,\"message\":\"invalid upstream body\",\"metadata\":null}}".to_vec()
    );
}

#[test]
fn trailing_garbage_is_decode_failure() {
    let r = handle_upstream_result(UpstreamResult::Received {
        status: 200,
        body: b"{\"data\":[]}tail".to_vec(),
    });
    assert_eq!(r.status, 500);
}

#[test]
fn empty_body_is_decode_failure() {
    let r = handle_upstream_result(UpstreamResult::Received { status: 200, body: Vec::new() });
    assert_eq!(r.status, 500);
}

#[test]
fn transport_failure_message_is_escaped() {
    let r = handle_upstream_result(UpstreamResult::TransportFailure {
        message: b"x\"y\\z\n".to_vec(),
    });
    assert_eq!(r.status, 500);
    assert_eq!(
        r.body,
        b"{\"error\":{\"code\":500,\"message\":\"x\\\"y\\\\z\\u000a\",\"metadata\":null}}".to_vec()
    );
}

#[test]
fn relayed_body_stays_in_schema() {
    let first = handle_upstream_result(UpstreamResult::Received {
        status: 200,
        body: b" { \"data\" : [ { \"id\" : \"m one\" } ] } ".to_vec(),
    });
    assert_eq!(first.status, 200);
    let second = handle_upstream_result(UpstreamResult::Received {
        status: 200,
        body: first.body.clone(),
    });
    assert_eq!(second.status, 200);
    assert_eq!(second.body, first.body);
}
