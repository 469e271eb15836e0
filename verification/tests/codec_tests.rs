use prtl_proxy::messages::{
    decode_bus_message, encode_bus_message, BusMessage, HashComponents, ParserCapabilities,
    ProxyDescriptor, ProxyRequestData, ProxyResponseData, RegisterProxyReply,
    RegisterProxyRequest,
};

fn sample_request() -> ProxyRequestData {
    ProxyRequestData {
        method: b"GET".to_vec(),
        uri: b"https://api.cdnlibs.org/api/anime/123?x=1".to_vec(),
        headers: vec![
            (b"accept".to_vec(), b"application/json".to_vec()),
            (b"x-token".to_vec(), vec![0, 1, 2, 255]),
        ],
        body: vec![1, 2, 3, 4, 5],
    }
}

#[test]
fn proxy_request_round_trip() {
    let msg = BusMessage::ProxyRequest(sample_request());
    let bytes = encode_bus_message(&msg);
    let back = decode_bus_message(bytes.as_slice()).unwrap();
    match back {
        BusMessage::ProxyRequest(r) => {
            assert_eq!(r.method, b"GET".to_vec());
            assert_eq!(r.uri, b"https://api.cdnlibs.org/api/anime/123?x=1".to_vec());
            assert_eq!(r.headers.len(), 2);
            assert_eq!(r.headers[0], (b"accept".to_vec(), b"application/json".to_vec()));
            assert_eq!(r.headers[1], (b"x-token".to_vec(), vec![0, 1, 2, 255]));
            assert_eq!(r.body, vec![1, 2, 3, 4, 5]);
        }
        _ => panic!("wrong variant"),
    }
}

#[test]
fn proxy_response_round_trip() {
    let msg = BusMessage::ProxyResponse(ProxyResponseData {
        status: 200,
        headers: vec![(b"content-type".to_vec(), b"text/plain".to_vec())],
        body: b"hello".to_vec(),
    });
    let bytes = encode_bus_message(&msg);
    match decode_bus_message(bytes.as_slice()).unwrap() {
        BusMessage::ProxyResponse(r) => {
            assert_eq!(r.status, 200);
            assert_eq!(r.headers, vec![(b"content-type".to_vec(), b"text/plain".to_vec())]);
            assert_eq!(r.body, b"hello".to_vec());
        }
        _ => panic!("wrong variant"),
    }
}

#[test]
fn register_and_reply_round_trip() {
    let msg = BusMessage::RegisterParser(RegisterProxyRequest {
        descriptor: ProxyDescriptor {
            service_name: b"cdnlibs".to_vec(),
            base_domains: vec![b"cdnlibs.org".to_vec(), b"cdn.example".to_vec()],
            hash_settings: HashComponents { url: true, query: true, headers: false },
            cache_ttl_secs: Some(3600),
        },
    });
    let bytes = encode_bus_message(&msg);
    match decode_bus_message(bytes.as_slice()).unwrap() {
        BusMessage::RegisterParser(r) => {
            assert_eq!(r.descriptor.service_name, b"cdnlibs".to_vec());
            assert_eq!(
                r.descriptor.base_domains,
                vec![b"cdnlibs.org".to_vec(), b"cdn.example".to_vec()]
            );
            assert_eq!(
                r.descriptor.hash_settings,
                HashComponents { url: true, query: true, headers: false }
            );
            assert_eq!(r.descriptor.cache_ttl_secs, Some(3600));
        }
        _ => panic!("wrong variant"),
    }

    let reply = BusMessage::RegisterParserReply(RegisterProxyReply {
        accepted: false,
        reason: Some(b"duplicate".to_vec()),
    });
    let bytes = encode_bus_message(&reply);
    match decode_bus_message(bytes.as_slice()).unwrap() {
        BusMessage::RegisterParserReply(r) => {
            assert!(!r.accepted);
            assert_eq!(r.reason, Some(b"duplicate".to_vec()));
        }
        _ => panic!("wrong variant"),
    }
}

#[test]
fn discovery_round_trip_and_malformed_inputs() {
    let bytes = encode_bus_message(&BusMessage::Discovery);
    assert!(matches!(
        decode_bus_message(bytes.as_slice()),
        Some(BusMessage::Discovery)
    ));

    // Unknown tag, empty input, truncated payload, trailing garbage: all refused.
    assert!(decode_bus_message(&[9]).is_none());
    assert!(decode_bus_message(&[]).is_none());
    let mut truncated = encode_bus_message(&BusMessage::ProxyRequest(sample_request()));
    truncated.pop();
    assert!(decode_bus_message(truncated.as_slice()).is_none());
    let mut trailing = encode_bus_message(&BusMessage::Discovery);
    trailing.push(0);
    assert!(decode_bus_message(trailing.as_slice()).is_none());
}

#[test]
fn subjects_are_deterministic() {
    assert_eq!(
        BusMessage::subject_for_register(b"cdnlibs"),
        b"prtl.proxy.cdnlibs.register".to_vec()
    );
    assert_eq!(BusMessage::subject_for_rpc(b"cdnlibs"), b"prtl.proxy.cdnlibs.rpc".to_vec());
    assert_eq!(BusMessage::subject_for_discovery(), b"prtl.discovery".to_vec());
}

#[test]
fn parser_capabilities_are_distinct() {
    assert_ne!(ParserCapabilities::Rest, ParserCapabilities::GraphQl);
    assert_eq!(ParserCapabilities::Rest.clone(), ParserCapabilities::Rest);
}
