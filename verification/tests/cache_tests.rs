use prtl_proxy::cache::ResponseCache;
use prtl_proxy::messages::ProxyResponseData;

fn sample_response() -> ProxyResponseData {
    ProxyResponseData {
        status: 200,
        headers: vec![(b"content-type".to_vec(), b"application/json".to_vec())],
        body: b"{\"id\":123}".to_vec(),
    }
}

#[test]
fn set_then_get_returns_identical_triple() {
    let mut cache = ResponseCache::new();
    cache.set_response(b"proxy:svc:k1", &sample_response(), 3600, 1000);
    let got = cache.get_response(b"proxy:svc:k1", 1000).unwrap();
    assert_eq!(got.status, 200);
    assert_eq!(got.headers, vec![(b"content-type".to_vec(), b"application/json".to_vec())]);
    assert_eq!(got.body, b"{\"id\":123}".to_vec());
}

#[test]
fn get_after_expiry_is_a_miss() {
    let mut cache = ResponseCache::new();
    cache.set_response(b"k", &sample_response(), 60, 1000);
    assert!(cache.get_response(b"k", 1059).is_some());
    assert!(cache.get_response(b"k", 1060).is_none());
    assert!(cache.get_response(b"k", 5000).is_none());
}

#[test]
fn get_of_absent_key_is_a_miss() {
    let cache = ResponseCache::new();
    assert!(cache.get_response(b"missing", 0).is_none());
}

#[test]
fn undecodable_value_is_a_miss_not_an_error() {
    let mut cache = ResponseCache::new();
    cache.set(b"k", b"not an encoded response", 3600, 0);
    assert!(cache.get(b"k", 1).is_some());
    assert!(cache.get_response(b"k", 1).is_none());
}

#[test]
fn rewrite_replaces_the_stored_value() {
    let mut cache = ResponseCache::new();
    cache.set_response(b"k", &sample_response(), 3600, 0);
    let second = ProxyResponseData { status: 204, headers: Vec::new(), body: Vec::new() };
    cache.set_response(b"k", &second, 3600, 10);
    let got = cache.get_response(b"k", 11).unwrap();
    assert_eq!(got.status, 204);
    assert!(got.body.is_empty());
}
