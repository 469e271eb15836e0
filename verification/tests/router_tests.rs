use std::cell::Cell;

use prtl_proxy::cache::ResponseCache;
use prtl_proxy::messages::{
    decode_bus_message, BusMessage, HashComponents, ProxyDescriptor, ProxyRequestData,
    ProxyResponseData,
};
use prtl_proxy::registry::ProxyRegistry;
use prtl_proxy::router::{handle_request, parse_target, route_request, ApiError};
use prtl_proxy::worker::{PrtlService, WorkerError};

struct CountingWorker {
    calls: Cell<u32>,
    body: Vec<u8>,
    status: u16,
}

impl PrtlService for CountingWorker {
    fn descriptor(&self) -> ProxyDescriptor {
        cdnlibs_descriptor()
    }

    fn handle_request(&self, request: ProxyRequestData) -> Result<ProxyResponseData, WorkerError> {
        self.calls.set(self.calls.get() + 1);
        assert_eq!(request.method, b"GET".to_vec());
        assert!(request.uri.starts_with(b"https://api.cdnlibs.org/api/anime/123"));
        Ok(ProxyResponseData {
            status: self.status,
            headers: vec![
                (b"content-type".to_vec(), b"application/json".to_vec()),
                (b"connection".to_vec(), b"keep-alive".to_vec()),
            ],
            body: self.body.clone(),
        })
    }
}

fn cdnlibs_descriptor() -> ProxyDescriptor {
    ProxyDescriptor {
        service_name: b"cdnlibs".to_vec(),
        base_domains: vec![b"cdnlibs.org".to_vec()],
        hash_settings: HashComponents { url: true, query: true, headers: false },
        cache_ttl_secs: Some(3600),
    }
}

#[test]
fn end_to_end_miss_then_hit() {
    let mut registry = ProxyRegistry::new();
    registry.register(cdnlibs_descriptor());
    let mut cache = ResponseCache::new();
    let worker = CountingWorker { calls: Cell::new(0), body: b"BODY".to_vec(), status: 200 };

    let headers = vec![
        (b"host".to_vec(), b"gateway.local".to_vec()),
        (b"accept".to_vec(), b"application/json".to_vec()),
    ];
    let query = Some(b"x=1".to_vec());

    // First call: a miss, exactly one RPC, 200/BODY, cache populated.
    let first = handle_request(
        &registry,
        &mut cache,
        &worker,
        b"GET",
        b"api.cdnlibs.org/api/anime/123",
        &query,
        &headers,
        b"",
        1000,
    )
    .unwrap();
    assert_eq!(first.status, 200);
    assert_eq!(first.body, b"BODY".to_vec());
    assert_eq!(worker.calls.get(), 1);
    // Hop headers are stripped from what comes back.
    assert!(first.headers.iter().all(|(n, _)| n != b"connection"));

    // Second identical call: served from cache, no further RPC, same triple.
    let second = handle_request(
        &registry,
        &mut cache,
        &worker,
        b"GET",
        b"api.cdnlibs.org/api/anime/123",
        &query,
        &headers,
        b"",
        1001,
    )
    .unwrap();
    assert_eq!(worker.calls.get(), 1);
    assert_eq!(second.status, 200);
    assert_eq!(second.body, b"BODY".to_vec());
    assert_eq!(second.headers, first.headers);
}

#[test]
fn non_success_reply_is_returned_but_not_cached() {
    let mut registry = ProxyRegistry::new();
    registry.register(cdnlibs_descriptor());
    let mut cache = ResponseCache::new();
    let worker = CountingWorker { calls: Cell::new(0), body: b"nope".to_vec(), status: 404 };
    let headers = Vec::new();
    let query = None;

    for expected_calls in [1u32, 2u32] {
        let r = handle_request(
            &registry,
            &mut cache,
            &worker,
            b"GET",
            b"api.cdnlibs.org/api/anime/123",
            &query,
            &headers,
            b"",
            1000,
        )
        .unwrap();
        assert_eq!(r.status, 404);
        // Not cached: the worker is asked again each time.
        assert_eq!(worker.calls.get(), expected_calls);
    }
}

#[test]
fn unresolvable_domain_is_service_unavailable() {
    let registry = ProxyRegistry::new();
    let mut cache = ResponseCache::new();
    let worker = CountingWorker { calls: Cell::new(0), body: Vec::new(), status: 200 };
    let err = handle_request(
        &registry,
        &mut cache,
        &worker,
        b"GET",
        b"unknown.example/x",
        &None,
        &Vec::new(),
        b"",
        0,
    )
    .unwrap_err();
    assert!(matches!(err, ApiError::NoParserAvailable));
    assert_eq!(err.status_code(), 503);
    assert_eq!(worker.calls.get(), 0);
}

#[test]
fn malformed_target_is_a_client_error_with_no_side_effects() {
    let mut registry = ProxyRegistry::new();
    registry.register(cdnlibs_descriptor());
    let mut cache = ResponseCache::new();
    let worker = CountingWorker { calls: Cell::new(0), body: Vec::new(), status: 200 };
    for path in [&b""[..], &b"///"[..], &b"bad domain/x"[..]] {
        let err = handle_request(
            &registry, &mut cache, &worker, b"GET", path, &None, &Vec::new(), b"", 0,
        )
        .unwrap_err();
        assert!(matches!(err, ApiError::InvalidUrl(_)));
        assert_eq!(err.status_code(), 400);
    }
    assert_eq!(worker.calls.get(), 0);
}

#[test]
fn parse_target_splits_domain_resource_and_query() {
    let t = parse_target(b"/api.cdnlibs.org/api/anime/123", &Some(b"x=1".to_vec())).unwrap();
    assert_eq!(t.domain, b"api.cdnlibs.org".to_vec());
    assert_eq!(t.resource, b"/api/anime/123".to_vec());
    assert_eq!(t.query, Some(b"x=1".to_vec()));

    let bare = parse_target(b"cdnlibs.org", &Some(Vec::new())).unwrap();
    assert_eq!(bare.domain, b"cdnlibs.org".to_vec());
    assert_eq!(bare.resource, b"/".to_vec());
    assert_eq!(bare.query, None);
}

#[test]
fn route_plan_carries_subject_key_and_filtered_request() {
    let mut registry = ProxyRegistry::new();
    registry.register(cdnlibs_descriptor());
    let headers = vec![
        (b"Host".to_vec(), b"gateway.local".to_vec()),
        (b"accept".to_vec(), b"*/*".to_vec()),
    ];
    let plan = route_request(
        &registry,
        b"GET",
        b"api.cdnlibs.org/api/anime/123",
        &Some(b"x=1".to_vec()),
        &headers,
        b"",
    )
    .unwrap();
    assert_eq!(plan.service_name, b"cdnlibs".to_vec());
    assert_eq!(plan.rpc_subject, b"prtl.proxy.cdnlibs.rpc".to_vec());
    assert_eq!(plan.cache_ttl_secs, 3600);
    let expected_digest = blake3::hash(b"/api/anime/123x=1");
    let mut expected_key = b"proxy:cdnlibs:".to_vec();
    expected_key.extend_from_slice(expected_digest.to_hex().as_bytes());
    assert_eq!(plan.cache_key, expected_key);
    // The case-insensitive hop header is gone; the other one survives.
    assert_eq!(plan.request.headers, vec![(b"accept".to_vec(), b"*/*".to_vec())]);
}

#[test]
fn worker_failure_synthesizes_a_server_error_reply() {
    struct FailingWorker;
    impl PrtlService for FailingWorker {
        fn descriptor(&self) -> ProxyDescriptor {
            cdnlibs_descriptor()
        }

        fn handle_request(
            &self,
            _request: ProxyRequestData,
        ) -> Result<ProxyResponseData, WorkerError> {
            Err(WorkerError { message: b"boom".to_vec() })
        }
    }
    let mut registry = ProxyRegistry::new();
    registry.register(cdnlibs_descriptor());
    let mut cache = ResponseCache::new();
    let r = handle_request(
        &registry,
        &mut cache,
        &FailingWorker,
        b"GET",
        b"api.cdnlibs.org/api/anime/1",
        &None,
        &Vec::new(),
        b"",
        0,
    )
    .unwrap();
    assert_eq!(r.status, 500);
    assert_eq!(r.body, b"boom".to_vec());
    // A server error is never cached.
    let again = handle_request(
        &registry,
        &mut cache,
        &FailingWorker,
        b"GET",
        b"api.cdnlibs.org/api/anime/1",
        &None,
        &Vec::new(),
        b"",
        1,
    )
    .unwrap();
    assert_eq!(again.status, 500);
}

#[test]
fn worker_drops_non_request_envelopes() {
    let worker = CountingWorker { calls: Cell::new(0), body: Vec::new(), status: 200 };
    let discovery = prtl_proxy::messages::encode_bus_message(&BusMessage::Discovery);
    assert!(prtl_proxy::worker::worker_process_message(&worker, discovery.as_slice()).is_none());
    assert!(prtl_proxy::worker::worker_process_message(&worker, &[7, 7, 7]).is_none());
    assert_eq!(worker.calls.get(), 0);
}

#[test]
fn worker_replies_with_a_proxy_response_envelope() {
    let worker = CountingWorker { calls: Cell::new(0), body: b"B".to_vec(), status: 200 };
    let req = BusMessage::ProxyRequest(ProxyRequestData {
        method: b"GET".to_vec(),
        uri: b"https://api.cdnlibs.org/api/anime/123?x=1".to_vec(),
        headers: Vec::new(),
        body: Vec::new(),
    });
    let payload = prtl_proxy::messages::encode_bus_message(&req);
    let reply = prtl_proxy::worker::worker_process_message(&worker, payload.as_slice()).unwrap();
    match decode_bus_message(reply.as_slice()).unwrap() {
        BusMessage::ProxyResponse(r) => {
            assert_eq!(r.status, 200);
            assert_eq!(r.body, b"B".to_vec());
        }
        _ => panic!("worker must reply with a ProxyResponse envelope"),
    }
    assert_eq!(worker.calls.get(), 1);
}

#[test]
fn non_response_reply_envelope_is_an_internal_error() {
    let discovery = prtl_proxy::messages::encode_bus_message(&BusMessage::Discovery);
    let err = prtl_proxy::router::gateway_on_reply(discovery.as_slice()).unwrap_err();
    assert!(matches!(err, ApiError::InternalError(_)));
    assert_eq!(err.status_code(), 500);

    let err = prtl_proxy::router::gateway_on_reply(&[250, 1]).unwrap_err();
    assert!(matches!(err, ApiError::InternalError(_)));
}

#[test]
fn error_status_classes() {
    assert_eq!(ApiError::InvalidPath.status_code(), 400);
    assert_eq!(ApiError::InvalidUrl(String::new()).status_code(), 400);
    assert_eq!(ApiError::NoParserAvailable.status_code(), 503);
    assert_eq!(ApiError::InternalError(String::new()).status_code(), 500);
}

#[test]
fn mixed_case_domain_resolves_like_the_lowercase_one() {
    let mut registry = ProxyRegistry::new();
    registry.register(cdnlibs_descriptor());
    let mut cache = ResponseCache::new();
    let worker = CountingWorker { calls: Cell::new(0), body: b"B".to_vec(), status: 200 };
    let r = handle_request(
        &registry,
        &mut cache,
        &worker,
        b"GET",
        b"API.cdnlibs.ORG/api/anime/123",
        &None,
        &Vec::new(),
        b"",
        0,
    )
    .unwrap();
    assert_eq!(r.status, 200);

    let t = parse_target(b"API.cdnlibs.ORG/x", &None).unwrap();
    assert_eq!(t.domain, b"api.cdnlibs.org".to_vec());
}
