//! The discovery and registration handshake that keeps the registry fresh:
//! a worker announces its descriptor at startup and re-announces it — exactly
//! once — for every broadcast it hears on the discovery subject; the gateway
//! folds every announcement it receives into the registry.

use vstd::prelude::*;
use vstd::slice::slice_to_vec;
use crate::codec::list_view;
use crate::messages::{
    decode_bus_message, encode_bus_message, spec_dec_message, spec_enc_message, BusMessage,
    BusMessageView, DescriptorView, ProxyDescriptor, RegisterProxyRequest, RegisterRequestView,
};
use crate::registry::{
    lemma_register_effect, spec_find_by_name, spec_register, spec_unique_names, ProxyRegistry,
};

verus! {

broadcast use vstd::std_specs::vec::axiom_spec_len;

/// Copies a descriptor (so the caller keeps its own).
pub fn copy_descriptor(d: &ProxyDescriptor) -> (r: ProxyDescriptor)
    ensures
        r@ == d@,
{
    let mut domains: Vec<Vec<u8>> = Vec::new();
    let mut i: usize = 0;
    proof {
        assert(list_view(domains@) =~= list_view(d.base_domains@).take(0));
    }
    while i < d.base_domains.len()
        invariant
            i <= d.base_domains@.len(),
            list_view(domains@) == list_view(d.base_domains@).take(i as int),
        decreases d.base_domains@.len() - i,
    {
        let ghost before = list_view(domains@);
        domains.push(slice_to_vec(d.base_domains[i].as_slice()));
        proof {
            assert(list_view(domains@) =~= before.push(list_view(d.base_domains@)[i as int]));
            assert(list_view(d.base_domains@).take(i as int + 1) =~= list_view(
                d.base_domains@,
            ).take(i as int).push(list_view(d.base_domains@)[i as int]));
        }
        i = i + 1;
    }
    proof {
        assert(list_view(d.base_domains@).take(i as int) =~= list_view(d.base_domains@));
    }
    let r = ProxyDescriptor {
        service_name: slice_to_vec(d.service_name.as_slice()),
        base_domains: domains,
        hash_settings: d.hash_settings,
        cache_ttl_secs: d.cache_ttl_secs,
    };
    proof {
        assert(r@ =~= d@);
    }
    r
}

/// The announcement a worker publishes: its descriptor in a `RegisterParser`
/// envelope.
pub fn registration_payload(descriptor: &ProxyDescriptor) -> (r: Vec<u8>)
    ensures
        r@ == spec_enc_message(
            BusMessageView::RegisterParser(RegisterRequestView { descriptor: descriptor@ }),
        ),
{
    let msg = BusMessage::RegisterParser(
        RegisterProxyRequest { descriptor: copy_descriptor(descriptor) },
    );
    encode_bus_message(&msg)
}

/// A worker's reaction to one message on the discovery subject: any payload
/// there — whatever its bytes — means "re-register" and draws exactly one
/// re-announcement, byte-identical to the startup registration payload.
pub fn worker_on_discovery(descriptor: &ProxyDescriptor, _payload: &[u8]) -> (r: Vec<u8>)
    ensures
        r@ == spec_enc_message(
            BusMessageView::RegisterParser(RegisterRequestView { descriptor: descriptor@ }),
        ),
{
    registration_payload(descriptor)
}

/// The gateway's reaction to one message on a registration subject: a
/// decodable `RegisterParser` envelope is folded into the registry; anything
/// else leaves it untouched.
pub fn gateway_on_registration(registry: &mut ProxyRegistry, payload: &[u8])
    requires
        old(registry).inv(),
    ensures
        final(registry).inv(),
        match spec_dec_message(payload@) {
            Option::Some(m) => match m {
                BusMessageView::RegisterParser(r) => final(registry)@ == spec_register(
                    old(registry)@,
                    r.descriptor,
                ),
                _ => final(registry)@ == old(registry)@,
            },
            Option::None => final(registry)@ == old(registry)@,
        },
{
    match decode_bus_message(payload) {
        Some(BusMessage::RegisterParser(req)) => {
            registry.register(req.descriptor);
        },
        _ => {},
    }
}

// ---------------------------------------------------------------------------
// Convergence of the handshake
// ---------------------------------------------------------------------------

/// The registry contents after folding in a sequence of announcements.
pub open spec fn spec_apply_registrations(
    s: Seq<DescriptorView>,
    ds: Seq<DescriptorView>,
) -> Seq<DescriptorView>
    decreases ds.len(),
{
    if ds.len() == 0 {
        s
    } else {
        spec_apply_registrations(spec_register(s, ds.first()), ds.drop_first())
    }
}

/// Registrations that never mention `name` leave its binding untouched.
proof fn lemma_apply_preserves_other(s: Seq<DescriptorView>, ds: Seq<DescriptorView>, n: Seq<u8>)
    requires
        spec_unique_names(s),
        forall|k: int| 0 <= k < ds.len() ==> (#[trigger] ds[k]).service_name != n,
    ensures
        spec_unique_names(spec_apply_registrations(s, ds)),
        spec_find_by_name(spec_apply_registrations(s, ds), n) == spec_find_by_name(s, n),
    decreases ds.len(),
{
    if ds.len() > 0 {
        let d0 = ds.first();
        lemma_register_effect(s, d0);
        assert forall|k: int| 0 <= k < ds.drop_first().len() implies (
        #[trigger] ds.drop_first()[k]).service_name != n by {
            assert(ds.drop_first()[k] == ds[k + 1]);
        }
        lemma_apply_preserves_other(spec_register(s, d0), ds.drop_first(), n);
        assert(ds[0].service_name != n);
    }
}

/// Convergence: however the announcements of a set of workers with pairwise
/// distinct service names are ordered, once they have all been folded in the
/// registry binds every worker's name to exactly the descriptor that worker
/// announced.
pub proof fn lemma_registry_convergence(s: Seq<DescriptorView>, ds: Seq<DescriptorView>)
    requires
        spec_unique_names(s),
        forall|i: int, j: int|
            0 <= i < j < ds.len() ==> (#[trigger] ds[i]).service_name != (
            #[trigger] ds[j]).service_name,
    ensures
        spec_unique_names(spec_apply_registrations(s, ds)),
        forall|k: int|
            0 <= k < ds.len() ==> spec_find_by_name(
                spec_apply_registrations(s, ds),
                (#[trigger] ds[k]).service_name,
            ) == Option::Some(ds[k]),
    decreases ds.len(),
{
    if ds.len() == 0 {
    } else {
        let d0 = ds.first();
        let s1 = spec_register(s, d0);
        let tl = ds.drop_first();
        lemma_register_effect(s, d0);
        assert forall|i: int, j: int| 0 <= i < j < tl.len() implies (
        #[trigger] tl[i]).service_name != (#[trigger] tl[j]).service_name by {
            assert(tl[i] == ds[i + 1]);
            assert(tl[j] == ds[j + 1]);
        }
        lemma_registry_convergence(s1, tl);
        assert forall|k: int| 0 <= k < tl.len() implies (#[trigger] tl[k]).service_name
            != d0.service_name by {
            assert(tl[k] == ds[k + 1]);
        }
        lemma_apply_preserves_other(s1, tl, d0.service_name);
        assert(spec_find_by_name(spec_apply_registrations(s1, tl), d0.service_name)
            == Option::Some(d0));
        assert forall|k: int| 0 <= k < ds.len() implies spec_find_by_name(
            spec_apply_registrations(s, ds),
            (#[trigger] ds[k]).service_name,
        ) == Option::Some(ds[k]) by {
            if k > 0 {
                assert(tl[k - 1] == ds[k]);
                assert(spec_find_by_name(
                    spec_apply_registrations(s1, tl),
                    tl[k - 1].service_name,
                ) == Option::Some(tl[k - 1]));
            }
        }
    }
}

} // verus!
