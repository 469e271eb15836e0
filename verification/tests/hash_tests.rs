use prtl_proxy::hash::{cache_key, compute_cache_key};
use prtl_proxy::messages::HashComponents;

type Headers = Vec<(Vec<u8>, Vec<u8>)>;

fn url_query() -> HashComponents {
    HashComponents { url: true, query: true, headers: false }
}

#[test]
fn key_reproducible_and_blind_to_unselected_fields() {
    let headers1: Headers = vec![(b"accept".to_vec(), b"a".to_vec())];
    let headers2: Headers = vec![(b"accept".to_vec(), b"b".to_vec())];
    let q = Some(b"x=1".to_vec());
    let k1 = compute_cache_key(b"/api/anime/123", &q, &headers1, url_query());
    let k2 = compute_cache_key(b"/api/anime/123", &q, &headers2, url_query());
    // Headers are excluded by the policy: varying them does not change the key.
    assert_eq!(k1, k2);
    // Reproducible byte for byte.
    let k3 = compute_cache_key(b"/api/anime/123", &q, &headers1, url_query());
    assert_eq!(k1, k3);
}

#[test]
fn key_varies_with_selected_fields() {
    let headers: Headers = Vec::new();
    let q = Some(b"x=1".to_vec());
    let base = compute_cache_key(b"/api/anime/123", &q, &headers, url_query());
    let other_path = compute_cache_key(b"/api/anime/124", &q, &headers, url_query());
    assert_ne!(base, other_path);
    let other_query = compute_cache_key(b"/api/anime/123", &Some(b"x=2".to_vec()), &headers, url_query());
    assert_ne!(base, other_query);
}

#[test]
fn header_order_does_not_matter() {
    let policy = HashComponents { url: true, query: false, headers: true };
    let one: Headers = vec![
        (b"b-header".to_vec(), b"2".to_vec()),
        (b"a-header".to_vec(), b"1".to_vec()),
    ];
    let two: Headers = vec![
        (b"a-header".to_vec(), b"1".to_vec()),
        (b"b-header".to_vec(), b"2".to_vec()),
    ];
    let k1 = compute_cache_key(b"/p", &None, &one, policy);
    let k2 = compute_cache_key(b"/p", &None, &two, policy);
    assert_eq!(k1, k2);
}

#[test]
fn digest_matches_the_outside_hash() {
    // Policy {URL, QUERY}: the hash input is the path bytes then the query
    // bytes.  The digest must be what the hash library itself computes.
    let q = Some(b"x=1".to_vec());
    let digest = compute_cache_key(b"/api/anime/123", &q, &Vec::new(), url_query());
    let expected = blake3::hash(b"/api/anime/123x=1");
    assert_eq!(digest, expected.to_hex().as_bytes().to_vec());
    assert_eq!(digest.len(), 64);
}

#[test]
fn header_serialization_feeds_name_colon_value_newline() {
    let policy = HashComponents { url: false, query: false, headers: true };
    let headers: Headers = vec![(b"a".to_vec(), b"1".to_vec()), (b"b".to_vec(), b"2".to_vec())];
    let digest = compute_cache_key(b"/ignored", &None, &headers, policy);
    let expected = blake3::hash(b"a:1\nb:2\n");
    assert_eq!(digest, expected.to_hex().as_bytes().to_vec());
}

#[test]
fn absent_or_empty_query_contributes_nothing() {
    let digest_none = compute_cache_key(b"/p", &None, &Vec::new(), url_query());
    let expected = blake3::hash(b"/p");
    assert_eq!(digest_none, expected.to_hex().as_bytes().to_vec());
}

#[test]
fn full_key_has_the_documented_shape() {
    let key = cache_key(b"cdnlibs", b"abc123");
    assert_eq!(key, b"proxy:cdnlibs:abc123".to_vec());
}
