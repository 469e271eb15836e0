//! The worker side of the RPC protocol: the capability a per-domain worker
//! implements, and the handler that answers each incoming bus message with
//! exactly one reply — the handler's response, or a synthesized server error
//! when the handler fails.

use vstd::prelude::*;
use crate::messages::{
    decode_bus_message, encode_bus_message, spec_dec_message, spec_enc_message, BusMessage,
    BusMessageView, ProxyDescriptor, ProxyRequestData, ProxyResponseData, ResponseView,
};

verus! {

/// A worker's failure, carried into the synthesized error response body.
#[derive(Debug)]
pub struct WorkerError {
    pub message: Vec<u8>,
}

/// The capability contract a per-domain worker implements: publish a
/// descriptor, and answer one request with one response.  Implementations
/// live in the worker processes, outside this crate; nothing is assumed of
/// what they return.
pub trait PrtlService {
    fn descriptor(&self) -> ProxyDescriptor;

    fn handle_request(&self, request: ProxyRequestData) -> Result<ProxyResponseData, WorkerError>;
}

/// The reply a worker publishes for a handler outcome: the handler's own
/// response, or a synthesized 500 carrying the failure message as its body.
pub fn worker_reply_for(outcome: Result<ProxyResponseData, WorkerError>) -> (r: ProxyResponseData)
    ensures
        match outcome {
            Result::Ok(resp) => r == resp,
            Result::Err(e) => r@ == (ResponseView {
                status: 500u16,
                headers: Seq::<(Seq<u8>, Seq<u8>)>::empty(),
                body: e.message@,
            }),
        },
{
    match outcome {
        Ok(resp) => resp,
        Err(e) => {
            let r = ProxyResponseData { status: 500, headers: Vec::new(), body: e.message };
            proof {
                assert(r@.headers =~= Seq::<(Seq<u8>, Seq<u8>)>::empty());
                assert(r@ =~= (ResponseView {
                    status: 500u16,
                    headers: Seq::<(Seq<u8>, Seq<u8>)>::empty(),
                    body: r@.body,
                }));
            }
            r
        },
    }
}

/// The reply bytes are some well-formed `ProxyResponse` envelope.
pub open spec fn spec_is_proxy_response_encoding(s: Seq<u8>) -> bool {
    exists|r: ResponseView|
        crate::messages::wf_response(r) && s == spec_enc_message(
            BusMessageView::ProxyResponse(r),
        )
}

/// Processes one incoming RPC message: a decodable `ProxyRequest` envelope
/// gets exactly one reply, always a `ProxyResponse` envelope; anything else —
/// malformed bytes or an unexpected variant — is dropped without a reply.
pub fn worker_process_message<S: PrtlService>(service: &S, payload: &[u8]) -> (r: Option<Vec<u8>>)
    ensures
        r is Some <==> (spec_dec_message(payload@) matches Option::Some(m)
            && m is ProxyRequest),
        r matches Some(b) ==> spec_is_proxy_response_encoding(b@),
{
    match decode_bus_message(payload) {
        Some(BusMessage::ProxyRequest(req)) => {
            let resp = worker_reply_for(service.handle_request(req));
            let ghost rv = resp@;
            proof {
                crate::messages::lemma_exec_response_wf(&resp);
            }
            let out = encode_bus_message(&BusMessage::ProxyResponse(resp));
            proof {
                assert(crate::messages::wf_response(rv) && out@ == spec_enc_message(
                    BusMessageView::ProxyResponse(rv),
                ));
            }
            Some(out)
        },
        _ => None,
    }
}

} // verus!
