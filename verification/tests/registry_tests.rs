use prtl_proxy::messages::{HashComponents, ProxyDescriptor};
use prtl_proxy::registry::ProxyRegistry;

fn descriptor(name: &[u8], domains: &[&[u8]], ttl: Option<u64>) -> ProxyDescriptor {
    ProxyDescriptor {
        service_name: name.to_vec(),
        base_domains: domains.iter().map(|d| d.to_vec()).collect(),
        hash_settings: HashComponents { url: true, query: true, headers: false },
        cache_ttl_secs: ttl,
    }
}

#[test]
fn resolves_exact_and_suffix_domains() {
    let mut registry = ProxyRegistry::new();
    registry.register(descriptor(b"cdnlibs", &[b"cdnlibs.org"], None));

    let suffix = registry.find_proxy_for_domain(b"api.cdnlibs.org");
    assert!(suffix.is_some());
    assert_eq!(suffix.unwrap().service_name, b"cdnlibs".to_vec());

    let exact = registry.find_proxy_for_domain(b"cdnlibs.org");
    assert!(exact.is_some());
    assert_eq!(exact.unwrap().service_name, b"cdnlibs".to_vec());

    assert!(registry.find_proxy_for_domain(b"notcdnlibs.org").is_none());
}

#[test]
fn unrelated_domain_does_not_resolve() {
    let mut registry = ProxyRegistry::new();
    registry.register(descriptor(b"cdnlibs", &[b"cdnlibs.org"], None));
    assert!(registry.find_proxy_for_domain(b"example.com").is_none());
    assert!(registry.find_proxy_for_domain(b"org").is_none());
    assert!(registry.find_proxy_for_domain(b"").is_none());
}

#[test]
fn reregistration_replaces_whole_descriptor() {
    let mut registry = ProxyRegistry::new();
    registry.register(descriptor(b"svc", &[b"old.example"], Some(100)));
    registry.register(descriptor(b"svc", &[b"new.example"], None));

    assert!(registry.find_proxy_for_domain(b"old.example").is_none());
    let found = registry.find_proxy_for_domain(b"new.example").unwrap();
    assert_eq!(found.service_name, b"svc".to_vec());
    assert_eq!(found.base_domains, vec![b"new.example".to_vec()]);
    assert_eq!(found.cache_ttl_secs, None);
}

#[test]
fn first_registered_match_wins() {
    let mut registry = ProxyRegistry::new();
    registry.register(descriptor(b"first", &[b"example.org"], None));
    registry.register(descriptor(b"second", &[b"api.example.org"], None));
    let found = registry.find_proxy_for_domain(b"api.example.org").unwrap();
    assert_eq!(found.service_name, b"first".to_vec());
}
