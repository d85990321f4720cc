//! The proxy decision: given the outcome of the single upstream call, build
//! the gateway's outgoing response. A transport failure or a body outside
//! the expected schema is normalized to HTTP 500 with the uniform error
//! envelope; a body inside the schema is re-emitted under the upstream's own
//! status code, whatever that code is.

use vstd::prelude::*;
use crate::envelope::{
    ErrorEnvelope, ErrorEnvelopeInner, serialize_envelope, serialize_error, spec_ser_envelope,
    spec_ser_error,
};
use crate::decode::{sp_envelope, parse_envelope};

verus! {

/// The outcome of the single upstream call, as the surrounding I/O layer
/// reports it: either the call could not be completed, with a diagnostic
/// rendering of the failure, or it completed with a status code and a body.
pub enum UpstreamResult {
    TransportFailure { message: Vec<u8> },
    Received { status: u16, body: Vec<u8> },
}

/// The gateway's outgoing response: an HTTP status code and a JSON body.
pub struct GatewayResponse {
    pub status: u16,
    pub body: Vec<u8>,
}

/// The diagnostic message reported when the upstream body does not match
/// the expected schema: the ASCII text `invalid upstream body`.
pub open spec fn spec_decode_failure_message() -> Seq<u8> {
    seq![0x69u8, 0x6eu8, 0x76u8, 0x61u8, 0x6cu8, 0x69u8, 0x64u8, 0x20u8, 0x75u8, 0x70u8, 0x73u8,
        0x74u8, 0x72u8, 0x65u8, 0x61u8, 0x6du8, 0x20u8, 0x62u8, 0x6fu8, 0x64u8, 0x79u8]
}

/// Builds the decode-failure diagnostic message.
fn decode_failure_message() -> (r: Vec<u8>)
    ensures
        r@ == spec_decode_failure_message(),
{
    let mut m: Vec<u8> = Vec::new();
    m.push(0x69);
    m.push(0x6e);
    m.push(0x76);
    m.push(0x61);
    m.push(0x6c);
    m.push(0x69);
    m.push(0x64);
    m.push(0x20);
    m.push(0x75);
    m.push(0x70);
    m.push(0x73);
    m.push(0x74);
    m.push(0x72);
    m.push(0x65);
    m.push(0x61);
    m.push(0x6d);
    m.push(0x20);
    m.push(0x62);
    m.push(0x6f);
    m.push(0x64);
    m.push(0x79);
    assert(m@ =~= spec_decode_failure_message());
    m
}

/// The gateway's answer, as a function of the upstream outcome alone:
/// a transport failure yields status 500 and the error envelope carrying the
/// failure's diagnostic; a received body in the expected schema yields the
/// upstream's own status and the re-serialized envelope; a received body
/// outside the schema yields status 500 and the error envelope with the
/// decode diagnostic. The error code inside the envelope is always 500.
pub open spec fn spec_gateway_response(result: UpstreamResult) -> (u16, Seq<u8>) {
    match result {
        UpstreamResult::TransportFailure { message } => (
            500u16,
            spec_ser_error(500, message@, Option::None),
        ),
        UpstreamResult::Received { status, body } => match sp_envelope(body@) {
            Option::Some(ids) => (status, spec_ser_envelope(ids)),
            Option::None => (500u16, spec_ser_error(500, spec_decode_failure_message(), Option::None)),
        },
    }
}

/// Performs the gateway's translation of one upstream outcome into exactly
/// one outgoing response.
///
/// The per-case clauses state the translation policy directly: a transport
/// failure is always HTTP 500 with a code-500 error envelope, whatever the
/// failure was; a body outside the schema is always HTTP 500 with a code-500
/// error envelope, even when the upstream status was 200; a body inside the
/// schema is relayed under the upstream's own status code, including 4xx and
/// 5xx codes.
pub fn handle_upstream_result(result: UpstreamResult) -> (r: GatewayResponse)
    ensures
        (r.status, r.body@) == spec_gateway_response(result),
        result matches UpstreamResult::TransportFailure { message } ==> r.status == 500
            && r.body@ == spec_ser_error(500, message@, Option::None),
        result matches UpstreamResult::Received { status, body } ==> match sp_envelope(body@) {
            Option::Some(ids) => r.status == status && r.body@ == spec_ser_envelope(ids),
            Option::None => r.status == 500
                && r.body@ == spec_ser_error(500, spec_decode_failure_message(), Option::None),
        },
{
    match result {
        UpstreamResult::TransportFailure { message } => {
            let env = ErrorEnvelope {
                error: ErrorEnvelopeInner { code: 500, message, metadata: None },
            };
            let body = serialize_error(&env);
            GatewayResponse { status: 500, body }
        }
        UpstreamResult::Received { status, body } => {
            match parse_envelope(&body) {
                Some(env) => {
                    let out = serialize_envelope(&env);
                    GatewayResponse { status, body: out }
                }
                None => {
                    let env = ErrorEnvelope {
                        error: ErrorEnvelopeInner {
                            code: 500,
                            message: decode_failure_message(),
                            metadata: None,
                        },
                    };
                    let out = serialize_error(&env);
                    GatewayResponse { status: 500, body: out }
                }
            }
        }
    }
}

/// The two outgoing shapes are mutually exclusive: no success envelope
/// serializes to the same bytes as any error envelope. (They already differ
/// at the third byte, `d` against `e`.)
pub proof fn lemma_envelopes_distinct(
    ids: Seq<Seq<u8>>,
    code: u16,
    message: Seq<u8>,
    metadata: Option<Seq<u8>>,
)
    ensures
        spec_ser_envelope(ids) != spec_ser_error(code, message, metadata),
{
    assert(spec_ser_envelope(ids)[2] == 0x64);
    assert(spec_ser_error(code, message, metadata)[2] == 0x65);
}

} // verus!
