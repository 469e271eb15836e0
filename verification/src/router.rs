//! The gateway's request pipeline: parse the target out of the inbound path,
//! resolve the domain against the registry, build the canonical outbound
//! request with hop headers stripped, derive the cache key, and — on a miss —
//! dispatch one RPC envelope and write a successful reply through to the
//! cache.  Every error is terminal: each request yields exactly one outcome.

use vstd::prelude::*;
use vstd::slice::{slice_subrange, slice_to_vec};
use crate::cache::{spec_cache_get_result, spec_expiry, spec_store_set, ResponseCache};
use crate::codec::pairs_view;
use crate::hash::{
    compute_cache_key, opt_bytes_view, spec_cache_digest, spec_cache_key, cache_key,
};
use crate::messages::{
    encode_bus_message, decode_bus_message, spec_dec_message, spec_enc_message,
    spec_enc_response, spec_subject_for_rpc, BusMessage, BusMessageView, HashComponents,
    ProxyRequestData, ProxyResponseData, RequestView, ResponseView,
};
use crate::registry::{spec_find_by_domain, ProxyRegistry};
use crate::worker::{worker_process_message, PrtlService};

verus! {

broadcast use vstd::std_specs::vec::axiom_spec_len;

// ---------------------------------------------------------------------------
// Errors: the terminal outcome classes of the pipeline
// ---------------------------------------------------------------------------

/// The error taxonomy of the gateway: client errors, an unresolvable domain,
/// and internal (transport or protocol) failures.
#[derive(Debug)]
pub enum ApiError {
    InvalidPath,
    InvalidUrl(String),
    NoParserAvailable,
    InternalError(String),
}

impl ApiError {
    /// The HTTP status class of each error.
    pub open spec fn spec_status_code(&self) -> u16 {
        match self {
            ApiError::InvalidPath => 400u16,
            ApiError::InvalidUrl(_) => 400u16,
            ApiError::NoParserAvailable => 503u16,
            ApiError::InternalError(_) => 500u16,
        }
    }

    /// The HTTP status this error is reported with.
    pub fn status_code(&self) -> (r: u16)
        ensures
            r == self.spec_status_code(),
    {
        match self {
            ApiError::InvalidPath => 400,
            ApiError::InvalidUrl(_) => 400,
            ApiError::NoParserAvailable => 503,
            ApiError::InternalError(_) => 500,
        }
    }
}

// ---------------------------------------------------------------------------
// Hop-specific headers are stripped from what crosses the gateway
// ---------------------------------------------------------------------------

pub open spec fn spec_lower_byte(b: u8) -> u8 {
    if 65 <= b <= 90 {
        (b + 32) as u8
    } else {
        b
    }
}

pub open spec fn spec_lower(s: Seq<u8>) -> Seq<u8> {
    s.map_values(|b: u8| spec_lower_byte(b))
}

pub open spec fn spec_host_name() -> Seq<u8> {
    seq!['h' as u8, 'o' as u8, 's' as u8, 't' as u8]
}

pub open spec fn spec_connection_name() -> Seq<u8> {
    seq![
        'c' as u8,
        'o' as u8,
        'n' as u8,
        'n' as u8,
        'e' as u8,
        'c' as u8,
        't' as u8,
        'i' as u8,
        'o' as u8,
        'n' as u8,
    ]
}

/// Is this header name, case-insensitively, `host` or `connection`?
pub open spec fn spec_is_hop_name(n: Seq<u8>) -> bool {
    spec_lower(n) == spec_host_name() || spec_lower(n) == spec_connection_name()
}

pub open spec fn spec_keep_header_fn() -> spec_fn((Seq<u8>, Seq<u8>)) -> bool {
    |p: (Seq<u8>, Seq<u8>)| !spec_is_hop_name(p.0)
}

/// The header list with hop-specific entries removed, order kept.
pub open spec fn spec_filter_hop(hs: Seq<(Seq<u8>, Seq<u8>)>) -> Seq<(Seq<u8>, Seq<u8>)> {
    hs.filter(spec_keep_header_fn())
}

fn lower_byte(b: u8) -> (r: u8)
    ensures
        r == spec_lower_byte(b),
{
    if 65 <= b && b <= 90 {
        b + 32
    } else {
        b
    }
}

/// Lowercases the ASCII letters of a byte string.
pub fn lower_bytes(s: &[u8]) -> (r: Vec<u8>)
    ensures
        r@ == spec_lower(s@),
{
    let mut v: Vec<u8> = Vec::new();
    let mut i: usize = 0;
    while i < s.len()
        invariant
            i <= s@.len(),
            v@.len() == i,
            forall|j: int| 0 <= j < i ==> v@[j] == spec_lower_byte(s@[j]),
        decreases s@.len() - i,
    {
        v.push(lower_byte(s[i]));
        i = i + 1;
    }
    proof {
        assert(v@ =~= spec_lower(s@));
    }
    v
}

/// Does `name`, lowercased, equal `target` (itself already lowercase)?
fn lower_eq(name: &[u8], target: &[u8]) -> (r: bool)
    ensures
        r == (spec_lower(name@) == target@),
{
    if name.len() != target.len() {
        proof {
            assert(spec_lower(name@).len() == name@.len());
        }
        return false;
    }
    let mut i: usize = 0;
    while i < name.len()
        invariant
            i <= name@.len(),
            name@.len() == target@.len(),
            forall|j: int| 0 <= j < i ==> spec_lower(name@)[j] == target@[j],
        decreases name@.len() - i,
    {
        if lower_byte(name[i]) != target[i] {
            proof {
                assert(spec_lower(name@)[i as int] != target@[i as int]);
            }
            return false;
        }
        i = i + 1;
    }
    proof {
        assert(spec_lower(name@) =~= target@);
    }
    true
}

fn host_name() -> (r: Vec<u8>)
    ensures
        r@ == spec_host_name(),
{
    let mut v: Vec<u8> = Vec::new();
    v.push('h' as u8);
    v.push('o' as u8);
    v.push('s' as u8);
    v.push('t' as u8);
    assert(v@ =~= spec_host_name());
    v
}

fn connection_name() -> (r: Vec<u8>)
    ensures
        r@ == spec_connection_name(),
{
    let mut v: Vec<u8> = Vec::new();
    v.push('c' as u8);
    v.push('o' as u8);
    v.push('n' as u8);
    v.push('n' as u8);
    v.push('e' as u8);
    v.push('c' as u8);
    v.push('t' as u8);
    v.push('i' as u8);
    v.push('o' as u8);
    v.push('n' as u8);
    assert(v@ =~= spec_connection_name());
    v
}

/// Is this, case-insensitively, a hop-specific header name?
pub fn is_hop_name(name: &[u8]) -> (r: bool)
    ensures
        r == spec_is_hop_name(name@),
{
    let host = host_name();
    let conn = connection_name();
    lower_eq(name, host.as_slice()) || lower_eq(name, conn.as_slice())
}

/// Strips the hop-specific headers (`host`, `connection`), keeping order.
pub fn filter_hop_headers(hs: &Vec<(Vec<u8>, Vec<u8>)>) -> (r: Vec<(Vec<u8>, Vec<u8>)>)
    ensures
        pairs_view(r@) == spec_filter_hop(pairs_view(hs@)),
{
    let ghost pred = spec_keep_header_fn();
    let mut out: Vec<(Vec<u8>, Vec<u8>)> = Vec::new();
    let mut i: usize = 0;
    proof {
        reveal(Seq::filter);
        assert(pairs_view(out@) =~= pairs_view(hs@).take(0).filter(pred));
    }
    while i < hs.len()
        invariant
            i <= hs@.len(),
            pairs_view(out@) == pairs_view(hs@).take(i as int).filter(spec_keep_header_fn()),
        decreases hs@.len() - i,
    {
        let ghost hv = pairs_view(hs@)[i as int];
        let ghost out0 = pairs_view(out@);
        let keep = !is_hop_name(hs[i].0.as_slice());
        if keep {
            let p = (slice_to_vec(hs[i].0.as_slice()), slice_to_vec(hs[i].1.as_slice()));
            out.push(p);
        }
        proof {
            reveal(Seq::filter);
            let t = pairs_view(hs@).take(i as int + 1);
            assert(t.drop_last() =~= pairs_view(hs@).take(i as int));
            assert(t.last() == hv);
            assert(hv == (hs@[i as int].0@, hs@[i as int].1@));
            if keep {
                assert(pairs_view(out@) =~= out0.push(hv));
            }
            assert(pairs_view(out@) =~= t.filter(spec_keep_header_fn()));
        }
        i = i + 1;
    }
    proof {
        assert(pairs_view(hs@).take(i as int) =~= pairs_view(hs@));
    }
    out
}

// ---------------------------------------------------------------------------
// Target parsing: first path segment = destination domain
// ---------------------------------------------------------------------------

/// The inbound path with its leading slashes removed.
pub open spec fn spec_trim_slashes(p: Seq<u8>) -> Seq<u8>
    decreases p.len(),
{
    if p.len() > 0 && p.first() == '/' as u8 {
        spec_trim_slashes(p.drop_first())
    } else {
        p
    }
}

/// Index of the first `/`, or the length if there is none.
pub open spec fn spec_first_slash(p: Seq<u8>) -> int
    decreases p.len(),
{
    if p.len() == 0 {
        0
    } else if p.first() == '/' as u8 {
        0
    } else {
        1 + spec_first_slash(p.drop_first())
    }
}

/// The destination domain: the first segment of the trimmed path.
pub open spec fn spec_domain_of(p: Seq<u8>) -> Seq<u8> {
    let t = spec_trim_slashes(p);
    t.take(spec_first_slash(t))
}

/// The resource path: what follows the domain segment, `/` when empty.
pub open spec fn spec_resource_of(p: Seq<u8>) -> Seq<u8> {
    let t = spec_trim_slashes(p);
    let raw = t.skip(spec_first_slash(t));
    if raw.len() == 0 {
        seq!['/' as u8]
    } else {
        raw
    }
}

/// A byte a domain name may hold.
pub open spec fn spec_valid_domain_byte(b: u8) -> bool {
    ||| 48 <= b <= 57
    ||| 65 <= b <= 90
    ||| 97 <= b <= 122
    ||| b == '-' as u8
    ||| b == '.' as u8
    ||| b == '_' as u8
}

/// The target parses: a nonempty domain segment of domain-name bytes.
pub open spec fn spec_target_ok(p: Seq<u8>) -> bool {
    let d = spec_domain_of(p);
    d.len() > 0 && forall|i: int| 0 <= i < d.len() ==> spec_valid_domain_byte(#[trigger] d[i])
}

/// The query passed through verbatim; an absent or empty one is no query.
pub open spec fn spec_query_of(q: Option<Seq<u8>>) -> Option<Seq<u8>> {
    match q {
        Option::Some(s) => if s.len() > 0 {
            Option::Some(s)
        } else {
            Option::None
        },
        Option::None => Option::None,
    }
}

proof fn lemma_trim_skip(p: Seq<u8>, s: int)
    requires
        0 <= s <= p.len(),
        forall|j: int| 0 <= j < s ==> p[j] == '/' as u8,
        s == p.len() || p[s] != '/' as u8,
    ensures
        spec_trim_slashes(p) == p.skip(s),
    decreases s,
{
    if s == 0 {
        assert(p.skip(0) =~= p);
    } else {
        assert(p.first() == '/' as u8);
        let q = p.drop_first();
        assert forall|j: int| 0 <= j < s - 1 implies q[j] == '/' as u8 by {
            assert(p[j + 1] == '/' as u8);
        }
        assert(q.skip(s - 1) =~= p.skip(s));
        lemma_trim_skip(q, s - 1);
    }
}

proof fn lemma_first_slash_at(t: Seq<u8>, k: int)
    requires
        0 <= k <= t.len(),
        forall|j: int| 0 <= j < k ==> t[j] != '/' as u8,
        k == t.len() || t[k] == '/' as u8,
    ensures
        spec_first_slash(t) == k,
    decreases k,
{
    if k > 0 {
        let q = t.drop_first();
        assert forall|j: int| 0 <= j < k - 1 implies q[j] != '/' as u8 by {
            assert(t[j + 1] != '/' as u8);
        }
        lemma_first_slash_at(q, k - 1);
    }
}

proof fn lemma_first_slash_lower_bound(t: Seq<u8>, k: int)
    requires
        0 <= k <= t.len(),
        forall|j: int| 0 <= j < k ==> t[j] != '/' as u8,
    ensures
        spec_first_slash(t) >= k,
    decreases k,
{
    lemma_first_slash_bounds(t);
    if k > 0 {
        assert(t[0] != '/' as u8);
        let q = t.drop_first();
        assert forall|j: int| 0 <= j < k - 1 implies q[j] != '/' as u8 by {
            assert(t[j + 1] != '/' as u8);
        }
        lemma_first_slash_lower_bound(q, k - 1);
    }
}

proof fn lemma_first_slash_bounds(t: Seq<u8>)
    ensures
        0 <= spec_first_slash(t) <= t.len(),
    decreases t.len(),
{
    if t.len() > 0 && t.first() != '/' as u8 {
        lemma_first_slash_bounds(t.drop_first());
    }
}

fn valid_domain_byte(b: u8) -> (r: bool)
    ensures
        r == spec_valid_domain_byte(b),
{
    (48 <= b && b <= 57) || (65 <= b && b <= 90) || (97 <= b && b <= 122) || b == ('-' as u8)
        || b == ('.' as u8) || b == ('_' as u8)
}

/// A parsed target: destination domain, resource path, query.
#[derive(Debug)]
pub struct Target {
    pub domain: Vec<u8>,
    pub resource: Vec<u8>,
    pub query: Option<Vec<u8>>,
}

/// Parses the wildcard path into a target.  The first path segment is the
/// destination domain, normalized to ASCII lowercase; the remainder is the
/// resource path; the query passes through verbatim.  A malformed target —
/// empty or invalid domain segment — fails immediately, and nothing else
/// does.
pub fn parse_target(path: &[u8], query: &Option<Vec<u8>>) -> (r: Result<Target, ApiError>)
    ensures
        r is Ok <==> spec_target_ok(path@),
        r matches Ok(t) ==> {
            &&& t.domain@ == spec_lower(spec_domain_of(path@))
            &&& t.resource@ == spec_resource_of(path@)
            &&& opt_bytes_view(t.query) == spec_query_of(opt_bytes_view(*query))
        },
        r matches Err(e) ==> e is InvalidUrl,
{
    let n = path.len();
    let mut s: usize = 0;
    while s < n && path[s] == ('/' as u8)
        invariant
            s <= n,
            n == path@.len(),
            forall|j: int| 0 <= j < s ==> path@[j] == '/' as u8,
        decreases n - s,
    {
        s = s + 1;
    }
    proof {
        lemma_trim_skip(path@, s as int);
    }
    let ghost t = path@.skip(s as int);
    let mut e: usize = s;
    while e < n && path[e] != ('/' as u8)
        invariant
            s <= e <= n,
            n == path@.len(),
            t == path@.skip(s as int),
            spec_trim_slashes(path@) == t,
            forall|j: int| s <= j < e ==> path@[j] != '/' as u8,
            forall|j: int| s <= j < e ==> spec_valid_domain_byte(#[trigger] path@[j]),
        decreases n - e,
    {
        if !valid_domain_byte(path[e]) {
            proof {
                lemma_first_slash_bounds(t);
                assert forall|j: int| 0 <= j < e - s + 1 implies t[j] != '/' as u8 by {
                    assert(t[j] == path@[s + j]);
                }
                lemma_first_slash_lower_bound(t, e as int - s as int + 1);
                let fs = spec_first_slash(t);
                let d = spec_domain_of(path@);
                assert(d.len() == fs);
                assert((e as int - s as int) < fs);
                assert(d[e as int - s as int] == t[e as int - s as int]);
                assert(t[e as int - s as int] == path@[e as int]);
                assert(!spec_valid_domain_byte(d[e as int - s as int]));
            }
            return Err(ApiError::InvalidUrl("invalid domain segment".to_owned()));
        }
        e = e + 1;
    }
    proof {
        assert forall|j: int| 0 <= j < e - s implies t[j] != '/' as u8 by {
            assert(t[j] == path@[s + j]);
        }
        lemma_first_slash_at(t, e as int - s as int);
        assert(spec_domain_of(path@) =~= path@.subrange(s as int, e as int));
    }
    if e == s {
        proof {
            assert(spec_domain_of(path@).len() == 0);
        }
        return Err(ApiError::InvalidUrl("empty domain segment".to_owned()));
    }
    let domain = lower_bytes(slice_subrange(path, s, e));
    proof {
        let d = spec_domain_of(path@);
        assert forall|i: int| 0 <= i < d.len() implies spec_valid_domain_byte(
            #[trigger] d[i],
        ) by {
            assert(d[i] == path@[s + i]);
        }
    }
    let resource: Vec<u8> = if e == n {
        let mut v: Vec<u8> = Vec::new();
        v.push('/' as u8);
        proof {
            assert(t.skip(e as int - s as int).len() == 0);
            assert(v@ =~= spec_resource_of(path@));
        }
        v
    } else {
        let v = slice_to_vec(slice_subrange(path, e, n));
        proof {
            assert(t.skip(e as int - s as int) =~= path@.subrange(e as int, n as int));
            assert(t.skip(e as int - s as int).len() > 0);
        }
        v
    };
    let q: Option<Vec<u8>> = match query {
        Some(qs) => {
            if qs.len() > 0 {
                Some(slice_to_vec(qs.as_slice()))
            } else {
                None
            }
        },
        None => None,
    };
    Ok(Target { domain, resource, query: q })
}

// ---------------------------------------------------------------------------
// The canonical outbound request
// ---------------------------------------------------------------------------

/// The absolute URL the outbound request carries:
/// `https://<domain><resource>[?<query>]`.
pub open spec fn spec_url_of(domain: Seq<u8>, resource: Seq<u8>, query: Option<Seq<u8>>) -> Seq<
    u8,
> {
    seq!['h' as u8, 't' as u8, 't' as u8, 'p' as u8, 's' as u8, ':' as u8, '/' as u8, '/' as u8]
        + domain + resource + (match query {
        Option::Some(q) => seq!['?' as u8] + q,
        Option::None => Seq::<u8>::empty(),
    })
}

/// Builds the absolute outbound URL.
pub fn build_url(domain: &[u8], resource: &[u8], query: &Option<Vec<u8>>) -> (r: Vec<u8>)
    ensures
        r@ == spec_url_of(domain@, resource@, opt_bytes_view(*query)),
{
    let mut v: Vec<u8> = Vec::new();
    v.push('h' as u8);
    v.push('t' as u8);
    v.push('t' as u8);
    v.push('p' as u8);
    v.push('s' as u8);
    v.push(':' as u8);
    v.push('/' as u8);
    v.push('/' as u8);
    v.extend_from_slice(domain);
    v.extend_from_slice(resource);
    match query {
        Some(q) => {
            v.push('?' as u8);
            v.extend_from_slice(q.as_slice());
            assert(v@ =~= spec_url_of(domain@, resource@, opt_bytes_view(Option::Some(*q))));
        },
        None => {
            assert(v@ =~= spec_url_of(domain@, resource@, Option::None));
        },
    }
    v
}

/// What the resolved worker is asked: method and body pass through, the URL
/// is absolute, and hop headers are stripped.
pub fn build_outbound(
    method: &[u8],
    target: &Target,
    headers: &Vec<(Vec<u8>, Vec<u8>)>,
    body: &[u8],
) -> (r: ProxyRequestData)
    ensures
        r@ == (RequestView {
            method: method@,
            uri: spec_url_of(target.domain@, target.resource@, opt_bytes_view(target.query)),
            headers: spec_filter_hop(pairs_view(headers@)),
            body: body@,
        }),
{
    let r = ProxyRequestData {
        method: slice_to_vec(method),
        uri: build_url(target.domain.as_slice(), target.resource.as_slice(), &target.query),
        headers: filter_hop_headers(headers),
        body: slice_to_vec(body),
    };
    proof {
        assert(r@ =~= (RequestView {
            method: method@,
            uri: spec_url_of(target.domain@, target.resource@, opt_bytes_view(target.query)),
            headers: spec_filter_hop(pairs_view(headers@)),
            body: body@,
        }));
    }
    r
}

// ---------------------------------------------------------------------------
// Routing: from an inbound request to a dispatch plan
// ---------------------------------------------------------------------------

/// The normalized (lowercased) destination domain of the inbound path.
pub open spec fn spec_norm_domain_of(path: Seq<u8>) -> Seq<u8> {
    spec_lower(spec_domain_of(path))
}

/// The target parses and the registry resolves its normalized domain.
pub open spec fn spec_route_ok(reg: Seq<crate::messages::DescriptorView>, path: Seq<u8>) -> bool {
    spec_target_ok(path) && spec_find_by_domain(reg, spec_norm_domain_of(path)) is Some
}

/// The cache time to live the resolved descriptor asks for (3600 s default).
pub open spec fn spec_ttl_of(d: crate::messages::DescriptorView) -> u64 {
    match d.cache_ttl_secs {
        Option::Some(t) => t,
        Option::None => 3600u64,
    }
}

/// The store key a routed request is cached under.
pub open spec fn spec_key_for(
    reg: Seq<crate::messages::DescriptorView>,
    path: Seq<u8>,
    query: Option<Seq<u8>>,
    headers: Seq<(Seq<u8>, Seq<u8>)>,
) -> Seq<u8>
    recommends
        spec_route_ok(reg, path),
{
    let d = spec_find_by_domain(reg, spec_norm_domain_of(path))->Some_0;
    spec_cache_key(
        d.service_name,
        spec_cache_digest(
            spec_resource_of(path),
            spec_query_of(query),
            spec_filter_hop(headers),
            d.hash_settings,
        ),
    )
}

/// Everything the gateway needs to serve one routed request.
#[derive(Debug)]
pub struct RoutePlan {
    pub service_name: Vec<u8>,
    pub hash_settings: HashComponents,
    pub cache_ttl_secs: u64,
    pub cache_key: Vec<u8>,
    pub rpc_subject: Vec<u8>,
    pub request: ProxyRequestData,
}

/// Resolves one inbound request: parse the target, look its domain up in the
/// registry, build the canonical outbound request and derive the cache key
/// and RPC subject.  Fails — with no side effects anywhere — exactly on a
/// malformed target or an unresolvable domain.
pub fn route_request(
    registry: &ProxyRegistry,
    method: &[u8],
    path: &[u8],
    query: &Option<Vec<u8>>,
    headers: &Vec<(Vec<u8>, Vec<u8>)>,
    body: &[u8],
) -> (r: Result<RoutePlan, ApiError>)
    ensures
        r is Ok <==> spec_route_ok(registry@, path@),
        r matches Ok(p) ==> {
            let d = spec_find_by_domain(registry@, spec_norm_domain_of(path@))->Some_0;
            &&& p.service_name@ == d.service_name
            &&& p.hash_settings == d.hash_settings
            &&& p.cache_ttl_secs == spec_ttl_of(d)
            &&& p.cache_key@ == spec_key_for(
                registry@,
                path@,
                opt_bytes_view(*query),
                pairs_view(headers@),
            )
            &&& p.rpc_subject@ == spec_subject_for_rpc(d.service_name)
            &&& p.request@ == (RequestView {
                method: method@,
                uri: spec_url_of(
                    spec_norm_domain_of(path@),
                    spec_resource_of(path@),
                    spec_query_of(opt_bytes_view(*query)),
                ),
                headers: spec_filter_hop(pairs_view(headers@)),
                body: body@,
            })
        },
        r matches Err(e) ==> {
            ||| (e is InvalidUrl && !spec_target_ok(path@))
            ||| (e is NoParserAvailable && spec_target_ok(path@) && spec_find_by_domain(
                registry@,
                spec_norm_domain_of(path@),
            ) is None)
        },
{
    let target = match parse_target(path, query) {
        Ok(t) => t,
        Err(e) => {
            return Err(e);
        },
    };
    let desc = match registry.find_proxy_for_domain(target.domain.as_slice()) {
        Some(d) => d,
        None => {
            return Err(ApiError::NoParserAvailable);
        },
    };
    let service_name = slice_to_vec(desc.service_name.as_slice());
    let cache_ttl_secs: u64 = match desc.cache_ttl_secs {
        Some(t) => t,
        None => 3600,
    };
    let hash_settings = desc.hash_settings;
    let request = build_outbound(method, &target, headers, body);
    let digest = compute_cache_key(
        target.resource.as_slice(),
        &target.query,
        &request.headers,
        hash_settings,
    );
    let key = cache_key(service_name.as_slice(), digest.as_slice());
    let rpc_subject = BusMessage::subject_for_rpc(service_name.as_slice());
    Ok(
        RoutePlan {
            service_name,
            hash_settings,
            cache_ttl_secs,
            cache_key: key,
            rpc_subject,
            request,
        },
    )
}

// ---------------------------------------------------------------------------
// The reply path
// ---------------------------------------------------------------------------

/// Is this status in the 2xx success class?
pub open spec fn spec_is_success(status: u16) -> bool {
    200 <= status < 300
}

/// Interprets the raw RPC reply: a decodable `ProxyResponse` envelope yields
/// the response with hop headers stripped; anything else is an internal
/// error.
pub fn gateway_on_reply(payload: &[u8]) -> (r: Result<ProxyResponseData, ApiError>)
    ensures
        r is Ok <==> (spec_dec_message(payload@) matches Option::Some(m)
            && m is ProxyResponse),
        r matches Ok(resp) ==> (spec_dec_message(payload@) matches Option::Some(
            BusMessageView::ProxyResponse(rv),
        ) && resp@ == (ResponseView {
            status: rv.status,
            headers: spec_filter_hop(rv.headers),
            body: rv.body,
        })),
        r matches Err(e) ==> e is InternalError,
{
    match decode_bus_message(payload) {
        Some(BusMessage::ProxyResponse(resp)) => {
            let filtered = filter_hop_headers(&resp.headers);
            let out = ProxyResponseData { status: resp.status, headers: filtered, body: resp.body };
            proof {
                assert(out@ =~= (ResponseView {
                    status: resp@.status,
                    headers: spec_filter_hop(resp@.headers),
                    body: resp@.body,
                }));
            }
            Ok(out)
        },
        Some(_) => Err(ApiError::InternalError("unexpected reply envelope".to_owned())),
        None => Err(ApiError::InternalError("undecodable reply envelope".to_owned())),
    }
}

// ---------------------------------------------------------------------------
// The whole pipeline over the model cache and a worker
// ---------------------------------------------------------------------------

/// Serves one inbound request end to end: resolve, consult the cache, and on
/// a miss dispatch exactly one RPC envelope to the worker and write a 2xx
/// reply through to the cache under the descriptor's time to live.  A cache
/// hit answers without touching the worker; every failure leaves the cache
/// untouched; each request yields exactly one outcome.
pub fn handle_request<S: PrtlService>(
    registry: &ProxyRegistry,
    cache: &mut ResponseCache,
    worker: &S,
    method: &[u8],
    path: &[u8],
    query: &Option<Vec<u8>>,
    headers: &Vec<(Vec<u8>, Vec<u8>)>,
    body: &[u8],
    now: u64,
) -> (r: Result<ProxyResponseData, ApiError>)
    requires
        old(cache).inv(),
    ensures
        final(cache).inv(),
        !spec_route_ok(registry@, path@) ==> r is Err && final(cache)@ == old(cache)@,
        !spec_target_ok(path@) ==> (r matches Err(e) && e is InvalidUrl),
        spec_target_ok(path@) && spec_find_by_domain(
            registry@,
            spec_norm_domain_of(path@),
        ) is None ==> (r matches Err(e) && e is NoParserAvailable),
        spec_route_ok(registry@, path@) ==> {
            let d = spec_find_by_domain(registry@, spec_norm_domain_of(path@))->Some_0;
            let key = spec_key_for(registry@, path@, opt_bytes_view(*query), pairs_view(headers@));
            match spec_cache_get_result(old(cache)@, key, now) {
                Option::Some(hit) => {
                    &&& r matches Ok(out) && out@ == hit
                    &&& final(cache)@ == old(cache)@
                },
                Option::None => match r {
                    Result::Ok(out) => {
                        &&& spec_is_success(out@.status) ==> final(cache)@ == spec_store_set(
                            old(cache)@,
                            key,
                            spec_enc_response(out@),
                            spec_expiry(now, spec_ttl_of(d)),
                        )
                        &&& !spec_is_success(out@.status) ==> final(cache)@ == old(cache)@
                        &&& forall|i: int|
                            0 <= i < out@.headers.len() ==> !spec_is_hop_name(
                                (#[trigger] out@.headers[i]).0,
                            )
                    },
                    Result::Err(e) => e is InternalError && final(cache)@ == old(cache)@,
                },
            }
        },
{
    let plan = match route_request(registry, method, path, query, headers, body) {
        Ok(p) => p,
        Err(e) => {
            return Err(e);
        },
    };
    if let Some(hit) = cache.get_response(plan.cache_key.as_slice(), now) {
        return Ok(hit);
    }
    proof {
        crate::messages::lemma_exec_request_wf(&plan.request);
    }
    let ghost reqv = plan.request@;
    let rpc_payload = encode_bus_message(&BusMessage::ProxyRequest(plan.request));
    proof {
        crate::messages::lemma_bus_message_round_trip(BusMessageView::ProxyRequest(reqv));
    }
    let reply = match worker_process_message(worker, rpc_payload.as_slice()) {
        Some(b) => b,
        None => {
            proof {
                assert(spec_dec_message(rpc_payload@) == Option::Some(
                    BusMessageView::ProxyRequest(reqv),
                ));
            }
            return Err(ApiError::InternalError("no reply".to_owned()));
        },
    };
    proof {
        let rv = choose|rv: ResponseView|
            crate::messages::wf_response(rv) && reply@ == #[trigger] spec_enc_message(
                BusMessageView::ProxyResponse(rv),
            );
        crate::messages::lemma_bus_message_round_trip(BusMessageView::ProxyResponse(rv));
    }
    let resp = match gateway_on_reply(reply.as_slice()) {
        Ok(resp) => resp,
        Err(e) => {
            return Err(e);
        },
    };
    proof {
        let m = spec_dec_message(reply@)->Some_0;
        let rv0 = m->ProxyResponse_0;
        assert(resp@.headers == spec_filter_hop(rv0.headers));
        assert forall|i: int| 0 <= i < resp@.headers.len() implies !spec_is_hop_name(
            (#[trigger] resp@.headers[i]).0,
        ) by {
            rv0.headers.lemma_filter_pred(spec_keep_header_fn(), i);
        }
    }
    if 200 <= resp.status && resp.status < 300 {
        cache.set_response(plan.cache_key.as_slice(), &resp, plan.cache_ttl_secs, now);
    }
    Ok(resp)
}

} // verus!
