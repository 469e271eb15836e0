//! The proxy registry: the gateway's only cross-request state.  It maps
//! service names to descriptors; registration inserts or fully replaces, and
//! lookup resolves a domain to the first descriptor whose base-domain set
//! contains it exactly or as a proper dot-suffix.

use vstd::prelude::*;
use crate::messages::{DescriptorView, ProxyDescriptor};

verus! {

broadcast use vstd::std_specs::vec::axiom_spec_len;

/// `domain` equals `base`, or ends with `"." + base`.
pub open spec fn spec_domain_matches(domain: Seq<u8>, base: Seq<u8>) -> bool {
    ||| domain == base
    ||| {
        &&& domain.len() > base.len()
        &&& domain[domain.len() - base.len() - 1] == '.' as u8
        &&& domain.subrange(domain.len() - base.len(), domain.len() as int) == base
    }
}

/// Some base domain of `d` matches `domain`.
pub open spec fn spec_descriptor_matches(d: DescriptorView, domain: Seq<u8>) -> bool {
    exists|i: int|
        0 <= i < d.base_domains.len() && spec_domain_matches(domain, #[trigger] d.base_domains[i])
}

/// Index of the first descriptor registered under `name`, or -1.
pub open spec fn spec_index_of_service(s: Seq<DescriptorView>, name: Seq<u8>) -> int
    decreases s.len(),
{
    if s.len() == 0 {
        -1
    } else if s.first().service_name == name {
        0
    } else {
        let r = spec_index_of_service(s.drop_first(), name);
        if r == -1 {
            -1
        } else {
            r + 1
        }
    }
}

/// The descriptor registered under `name`, if any.
pub open spec fn spec_find_by_name(s: Seq<DescriptorView>, name: Seq<u8>) -> Option<DescriptorView> {
    let i = spec_index_of_service(s, name);
    if i == -1 {
        Option::None
    } else {
        Option::Some(s[i])
    }
}

/// The first descriptor whose base-domain set matches `domain`, if any.
pub open spec fn spec_find_by_domain(s: Seq<DescriptorView>, domain: Seq<u8>) -> Option<
    DescriptorView,
>
    decreases s.len(),
{
    if s.len() == 0 {
        Option::None
    } else if spec_descriptor_matches(s.first(), domain) {
        Option::Some(s.first())
    } else {
        spec_find_by_domain(s.drop_first(), domain)
    }
}

/// What registration does to the registry contents: replace the first entry
/// with the same service name whole, or append.
pub open spec fn spec_register(s: Seq<DescriptorView>, d: DescriptorView) -> Seq<DescriptorView> {
    let i = spec_index_of_service(s, d.service_name);
    if i == -1 {
        s.push(d)
    } else {
        s.update(i, d)
    }
}

/// `spec_index_of_service` finds exactly the first index carrying `name`.
pub proof fn lemma_index_of_service_props(s: Seq<DescriptorView>, name: Seq<u8>)
    ensures
        ({
            let r = spec_index_of_service(s, name);
            &&& r == -1 ==> forall|j: int|
                0 <= j < s.len() ==> (#[trigger] s[j]).service_name != name
            &&& r != -1 ==> {
                &&& 0 <= r < s.len()
                &&& s[r].service_name == name
                &&& forall|j: int| 0 <= j < r ==> (#[trigger] s[j]).service_name != name
            }
        }),
    decreases s.len(),
{
    if s.len() == 0 {
    } else if s.first().service_name == name {
    } else {
        lemma_index_of_service_props(s.drop_first(), name);
        let r = spec_index_of_service(s, name);
        let rt = spec_index_of_service(s.drop_first(), name);
        if rt == -1 {
            assert forall|j: int| 0 <= j < s.len() implies (#[trigger] s[j]).service_name
                != name by {
                if j > 0 {
                    assert(s.drop_first()[j - 1] == s[j]);
                }
            }
        } else {
            assert(s[r] == s.drop_first()[rt]);
            assert forall|j: int| 0 <= j < r implies (#[trigger] s[j]).service_name != name by {
                if j > 0 {
                    assert(s.drop_first()[j - 1] == s[j]);
                }
            }
        }
    }
}

/// No two entries carry the same service name.
pub open spec fn spec_unique_names(s: Seq<DescriptorView>) -> bool {
    forall|i: int, j: int|
        0 <= i < j < s.len() ==> (#[trigger] s[i]).service_name != (#[trigger] s[j]).service_name
}

/// Registration preserves name uniqueness, binds its own name to the new
/// descriptor whole, and leaves every other name's binding untouched.
pub proof fn lemma_register_effect(s: Seq<DescriptorView>, d: DescriptorView)
    requires
        spec_unique_names(s),
    ensures
        spec_unique_names(spec_register(s, d)),
        spec_find_by_name(spec_register(s, d), d.service_name) == Option::Some(d),
        forall|n: Seq<u8>|
            n != d.service_name ==> #[trigger] spec_find_by_name(spec_register(s, d), n)
                == spec_find_by_name(s, n),
{
    let i0 = spec_index_of_service(s, d.service_name);
    let s2 = spec_register(s, d);
    lemma_index_of_service_props(s, d.service_name);
    assert forall|n: Seq<u8>| true implies #[trigger] spec_index_of_service(s2, n) == (if n
        == d.service_name {
        if i0 == -1 {
            s.len() as int
        } else {
            i0
        }
    } else {
        spec_index_of_service(s, n)
    }) by {
        lemma_index_of_service_props(s, n);
        lemma_index_of_service_props(s2, n);
        let r = spec_index_of_service(s, n);
        let r2 = spec_index_of_service(s2, n);
        if n == d.service_name {
            let want: int = if i0 == -1 {
                s.len() as int
            } else {
                i0
            };
            assert(s2[want].service_name == n);
            assert(r2 != -1);
            assert(forall|j: int| 0 <= j < want ==> (#[trigger] s2[j]).service_name != n);
            if r2 < want {
                assert(s2[r2].service_name != n);
            }
            if r2 > want {
                assert(s2[want].service_name != n);
            }
        } else {
            if r == -1 {
                assert forall|j: int| 0 <= j < s2.len() implies (#[trigger] s2[j]).service_name
                    != n by {
                    if j < s.len() && (i0 == -1 || j != i0) {
                        assert(s2[j] == s[j]);
                    }
                }
                assert(r2 == -1);
            } else {
                assert(s2[r] == s[r]);
                assert(s2[r].service_name == n);
                assert(r2 != -1);
                assert forall|j: int| 0 <= j < r implies (#[trigger] s2[j]).service_name != n by {
                    if j < s.len() && (i0 == -1 || j != i0) {
                        assert(s2[j] == s[j]);
                    }
                }
                if r2 < r {
                    assert(s2[r2].service_name == n);
                    assert(s2[r2].service_name != n);
                }
                if r2 > r {
                    assert(s2[r].service_name != n);
                }
            }
        }
    }
    assert forall|n: Seq<u8>| n != d.service_name implies #[trigger] spec_find_by_name(s2, n)
        == spec_find_by_name(s, n) by {
        lemma_index_of_service_props(s, n);
        let r = spec_index_of_service(s, n);
        assert(spec_index_of_service(s2, n) == r);
        if r != -1 {
            if i0 != -1 {
                assert(s[i0].service_name == d.service_name);
                assert(r != i0);
            }
            assert(s2[r] == s[r]);
        }
    }
    assert forall|i: int, j: int| 0 <= i < j < s2.len() implies (
    #[trigger] s2[i]).service_name != (#[trigger] s2[j]).service_name by {
        if i0 == -1 {
            if j < s.len() {
            } else {
                assert(s2[j] == d);
                assert(s2[i] == s[i]);
                assert(s[i].service_name != d.service_name);
            }
        } else {
            if i == i0 {
                assert(s2[j] == s[j]);
                if s[j].service_name == d.service_name {
                    assert(s[i0].service_name == d.service_name);
                }
            } else if j == i0 {
                assert(s2[i] == s[i]);
                if s[i].service_name == d.service_name {
                    assert(s[i0].service_name == d.service_name);
                }
            }
        }
    }
}

/// Compares two byte strings.
pub fn bytes_eq(a: &[u8], b: &[u8]) -> (r: bool)
    ensures
        r == (a@ == b@),
{
    if a.len() != b.len() {
        return false;
    }
    let mut i: usize = 0;
    while i < a.len()
        invariant
            i <= a@.len(),
            a@.len() == b@.len(),
            forall|j: int| 0 <= j < i ==> a@[j] == b@[j],
        decreases a@.len() - i,
    {
        if a[i] != b[i] {
            return false;
        }
        i = i + 1;
    }
    proof {
        assert(a@ =~= b@);
    }
    true
}

/// Does `domain` fall under `base` (exactly, or as a proper dot-suffix)?
pub fn domain_matches(domain: &[u8], base: &[u8]) -> (r: bool)
    ensures
        r == spec_domain_matches(domain@, base@),
{
    if domain.len() == base.len() {
        bytes_eq(domain, base)
    } else if domain.len() > base.len() {
        let off = domain.len() - base.len();
        if domain[off - 1] != ('.' as u8) {
            return false;
        }
        let tail = vstd::slice::slice_subrange(domain, off, domain.len());
        let r = bytes_eq(tail, base);
        proof {
            assert(tail@ == domain@.subrange(
                domain@.len() - base@.len(),
                domain@.len() as int,
            ));
            if domain@ == base@ {
                assert(domain@.len() == base@.len());
            }
        }
        r
    } else {
        proof {
            if domain@ == base@ {
                assert(domain@.len() == base@.len());
            }
        }
        false
    }
}

/// The gateway's service-name → descriptor map, scanned in registration order.
#[derive(Debug)]
pub struct ProxyRegistry {
    proxies: Vec<ProxyDescriptor>,
}

impl View for ProxyRegistry {
    type V = Seq<DescriptorView>;

    closed spec fn view(&self) -> Seq<DescriptorView> {
        self.proxies@.map_values(|d: ProxyDescriptor| d@)
    }
}

impl ProxyRegistry {
    /// Each service name is registered at most once.
    pub open spec fn inv(&self) -> bool {
        spec_unique_names(self@)
    }

    /// An empty registry.
    pub fn new() -> (r: ProxyRegistry)
        ensures
            r@ == Seq::<DescriptorView>::empty(),
            r.inv(),
    {
        let r = ProxyRegistry { proxies: Vec::new() };
        proof {
            assert(r@ =~= Seq::<DescriptorView>::empty());
        }
        r
    }

    /// Inserts the descriptor, or replaces — whole, no field merging — the
    /// descriptor previously registered under the same service name.
    pub fn register(&mut self, descriptor: ProxyDescriptor)
        requires
            old(self).inv(),
        ensures
            final(self).inv(),
            final(self)@ == spec_register(old(self)@, descriptor@),
    {
        proof {
            lemma_register_effect(self@, descriptor@);
            lemma_index_of_service_props(self@, descriptor@.service_name);
        }
        let ghost s0 = self@;
        let mut i: usize = 0;
        while i < self.proxies.len()
            invariant
                self@ == s0,
                s0 == old(self)@,
                spec_unique_names(s0),
                i <= self.proxies@.len(),
                self@.len() == self.proxies@.len(),
                forall|j: int|
                    0 <= j < i ==> (#[trigger] s0[j]).service_name != descriptor@.service_name,
            decreases self.proxies@.len() - i,
        {
            if bytes_eq(
                self.proxies[i].service_name.as_slice(),
                descriptor.service_name.as_slice(),
            ) {
                proof {
                    lemma_register_effect(s0, descriptor@);
                    lemma_index_of_service_props(s0, descriptor@.service_name);
                    let name = descriptor@.service_name;
                    assert(s0[i as int] == self.proxies@[i as int]@);
                    assert(s0[i as int].service_name == name);
                    let r = spec_index_of_service(s0, name);
                    if r == -1 {
                        assert(s0[i as int].service_name != name);
                    } else if r < i as int {
                        assert(s0[r].service_name != name);
                    } else if r > i as int {
                        assert(s0[i as int].service_name != name);
                    }
                    assert(r == i as int);
                }
                self.proxies[i] = descriptor;
                proof {
                    assert(self@ =~= s0.update(i as int, descriptor@));
                }
                return ;
            }
            i = i + 1;
        }
        proof {
            lemma_register_effect(s0, descriptor@);
            lemma_index_of_service_props(s0, descriptor@.service_name);
            let name = descriptor@.service_name;
            let r = spec_index_of_service(s0, name);
            if r != -1 {
                assert(s0[r].service_name != name);
            }
            assert(r == -1);
        }
        self.proxies.push(descriptor);
        proof {
            assert(self@ =~= s0.push(descriptor@));
        }
    }

    /// Resolves a domain to the first matching descriptor, if any.
    pub fn find_proxy_for_domain(&self, domain: &[u8]) -> (r: Option<&ProxyDescriptor>)
        ensures
            r is Some <==> spec_find_by_domain(self@, domain@) is Some,
            r matches Some(d) ==> spec_find_by_domain(self@, domain@) == Option::Some(d@),
    {
        let ghost s = self@;
        proof {
            assert(s.skip(0) =~= s);
        }
        let mut i: usize = 0;
        while i < self.proxies.len()
            invariant
                s == self@,
                i <= self.proxies@.len(),
                s.len() == self.proxies@.len(),
                spec_find_by_domain(s, domain@) == spec_find_by_domain(
                    s.skip(i as int),
                    domain@,
                ),
            decreases self.proxies@.len() - i,
        {
            let desc = &self.proxies[i];
            let mut k: usize = 0;
            let mut matched = false;
            while k < desc.base_domains.len() && !matched
                invariant
                    !matched ==> forall|j: int|
                        0 <= j < k ==> !spec_domain_matches(
                            domain@,
                            #[trigger] desc@.base_domains[j],
                        ),
                    matched ==> spec_descriptor_matches(desc@, domain@),
                    k <= desc.base_domains@.len(),
                    desc@.base_domains.len() == desc.base_domains@.len(),
                decreases desc.base_domains@.len() - k + (if matched {
                    0int
                } else {
                    1int
                }),
            {
                if domain_matches(domain, desc.base_domains[k].as_slice()) {
                    matched = true;
                    proof {
                        assert(desc@.base_domains[k as int] == desc.base_domains@[k as int]@);
                        assert(spec_domain_matches(domain@, desc@.base_domains[k as int]));
                    }
                } else {
                    k = k + 1;
                }
            }
            proof {
                assert(s.skip(i as int).first() == s[i as int]);
                assert(s[i as int] == self.proxies@[i as int]@);
                assert(s[i as int] == desc@);
            }
            if matched {
                proof {
                    assert(spec_find_by_domain(s.skip(i as int), domain@) == Option::Some(
                        desc@,
                    ));
                }
                return Some(desc);
            }
            proof {
                if spec_descriptor_matches(desc@, domain@) {
                    let wi = choose|wi: int|
                        0 <= wi < desc@.base_domains.len() && spec_domain_matches(
                            domain@,
                            #[trigger] desc@.base_domains[wi],
                        );
                    assert(!spec_domain_matches(domain@, desc@.base_domains[wi]));
                }
                assert(!spec_descriptor_matches(desc@, domain@));
                assert(s.skip(i as int).drop_first() =~= s.skip(i as int + 1));
            }
            i = i + 1;
        }
        proof {
            assert(s.skip(i as int).len() == 0);
        }
        None
    }
}

} // verus!

