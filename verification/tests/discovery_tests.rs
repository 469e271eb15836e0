use prtl_proxy::discovery::{gateway_on_registration, registration_payload, worker_on_discovery};
use prtl_proxy::messages::{
    decode_bus_message, encode_bus_message, BusMessage, HashComponents, ProxyDescriptor,
};
use prtl_proxy::registry::ProxyRegistry;

fn descriptor(name: &[u8], domain: &[u8]) -> ProxyDescriptor {
    ProxyDescriptor {
        service_name: name.to_vec(),
        base_domains: vec![domain.to_vec()],
        hash_settings: HashComponents { url: true, query: false, headers: false },
        cache_ttl_secs: None,
    }
}

#[test]
fn any_discovery_payload_draws_exactly_one_reannouncement() {
    let desc = descriptor(b"cdnlibs", b"cdnlibs.org");
    let startup = registration_payload(&desc);

    // Whatever arrives on the discovery subject means "re-register": the
    // crate's own Discovery envelope, an empty payload, or arbitrary bytes
    // all draw the same single announcement, byte-identical to the startup
    // registration payload.
    let envelope = encode_bus_message(&BusMessage::Discovery);
    for payload in [&envelope[..], &[][..], &[0xDE, 0xAD][..]] {
        let announcement = worker_on_discovery(&desc, payload);
        assert_eq!(announcement, startup);
        match decode_bus_message(announcement.as_slice()).unwrap() {
            BusMessage::RegisterParser(r) => {
                assert_eq!(r.descriptor.service_name, b"cdnlibs".to_vec());
                assert_eq!(r.descriptor.base_domains, vec![b"cdnlibs.org".to_vec()]);
            }
            _ => panic!("the re-announcement must be a RegisterParser envelope"),
        }
    }
}

#[test]
fn registry_converges_whatever_the_arrival_order() {
    let discovery = encode_bus_message(&BusMessage::Discovery);
    let a = worker_on_discovery(&descriptor(b"alpha", b"alpha.example"), discovery.as_slice());
    let b = worker_on_discovery(&descriptor(b"beta", b"beta.example"), discovery.as_slice());

    for order in [[&a, &b], [&b, &a]] {
        let mut registry = ProxyRegistry::new();
        for payload in order {
            gateway_on_registration(&mut registry, payload.as_slice());
        }
        let alpha = registry.find_proxy_for_domain(b"alpha.example").unwrap();
        assert_eq!(alpha.service_name, b"alpha".to_vec());
        let beta = registry.find_proxy_for_domain(b"beta.example").unwrap();
        assert_eq!(beta.service_name, b"beta".to_vec());
    }
}

#[test]
fn malformed_registration_messages_leave_the_registry_alone() {
    let mut registry = ProxyRegistry::new();
    gateway_on_registration(&mut registry, &[42, 0, 1]);
    gateway_on_registration(
        &mut registry,
        encode_bus_message(&BusMessage::Discovery).as_slice(),
    );
    assert!(registry.find_proxy_for_domain(b"alpha.example").is_none());
}
