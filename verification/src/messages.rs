//! The bus envelope: the tagged union exchanged between the gateway and the
//! workers, its byte-level wire format, and the bus subject names.
//!
//! All textual data is carried as plain byte vectors; the processes at the
//! edges turn them into strings where their transport wants strings.

use vstd::prelude::*;
use crate::codec::{
    dec_bool, dec_byte, dec_byte_list, dec_bytes, dec_opt_bytes, dec_opt_u64, dec_pairs, dec_u16,
    dec_u64, enc_bool, enc_byte, enc_byte_list, enc_bytes, enc_opt_bytes, enc_opt_u64, enc_pairs,
    enc_u16, enc_u64, lemma_dec_bool_of_enc, lemma_dec_byte_lists_of_enc, lemma_dec_byte_of_enc,
    lemma_dec_bytes_of_enc, lemma_dec_opt_bytes_of_enc, lemma_dec_opt_u64_of_enc,
    lemma_dec_pairs_of_enc, lemma_dec_u16_of_enc, lemma_dec_u64_of_enc, lemma_split_subrange,
    list_view, pairs_view, spec_dec_bool, spec_dec_byte, spec_dec_byte_lists, spec_dec_bytes,
    spec_dec_opt_bytes, spec_dec_opt_u64, spec_dec_pairs, spec_dec_u16, spec_dec_u64,
    spec_enc_bool, spec_enc_byte, spec_enc_byte_lists, spec_enc_bytes, spec_enc_opt_bytes,
    spec_enc_opt_u64, spec_enc_pairs, spec_enc_u16, spec_enc_u64, wf_byte_lists, wf_bytes,
    wf_pairs,
};

verus! {

broadcast use vstd::std_specs::vec::axiom_spec_len;

/// Selects which request facets feed the cache-key hash.
#[derive(Clone, Copy, PartialEq, Eq, Structural, Debug)]
pub struct HashComponents {
    pub url: bool,
    pub query: bool,
    pub headers: bool,
}

/// The hash policy packed into one byte (bit 0 = URL, bit 1 = QUERY,
/// bit 2 = HEADERS), written arithmetically.
pub open spec fn spec_policy_byte(h: HashComponents) -> u8 {
    ((if h.url {
        1u8
    } else {
        0u8
    }) + (if h.query {
        2u8
    } else {
        0u8
    }) + (if h.headers {
        4u8
    } else {
        0u8
    })) as u8
}

pub open spec fn spec_policy_of_byte(b: u8) -> Option<HashComponents> {
    if b < 8 {
        Option::Some(
            HashComponents { url: b % 2 == 1, query: (b / 2) % 2 == 1, headers: b / 4 == 1 },
        )
    } else {
        Option::None
    }
}

pub proof fn lemma_policy_byte_round_trip(h: HashComponents)
    ensures
        spec_policy_byte(h) < 8,
        spec_policy_of_byte(spec_policy_byte(h)) == Option::Some(h),
{
}

pub fn policy_byte(h: HashComponents) -> (r: u8)
    ensures
        r == spec_policy_byte(h),
{
    let mut b: u8 = 0;
    if h.url {
        b = b + 1;
    }
    if h.query {
        b = b + 2;
    }
    if h.headers {
        b = b + 4;
    }
    b
}

pub fn policy_of_byte(b: u8) -> (r: Option<HashComponents>)
    ensures
        r == spec_policy_of_byte(b),
{
    if b < 8 {
        Some(
            HashComponents { url: b % 2 == 1, query: (b / 2) % 2 == 1, headers: b / 4 == 1 },
        )
    } else {
        None
    }
}

/// Metadata a worker publishes: the domains it serves and its caching policy.
/// A re-registration under the same service name replaces this value whole.
#[derive(Debug, Clone)]
pub struct ProxyDescriptor {
    pub service_name: Vec<u8>,
    pub base_domains: Vec<Vec<u8>>,
    pub hash_settings: HashComponents,
    pub cache_ttl_secs: Option<u64>,
}

#[verifier::ext_equal]
pub ghost struct DescriptorView {
    pub service_name: Seq<u8>,
    pub base_domains: Seq<Seq<u8>>,
    pub hash_settings: HashComponents,
    pub cache_ttl_secs: Option<u64>,
}

impl View for ProxyDescriptor {
    type V = DescriptorView;

    open spec fn view(&self) -> DescriptorView {
        DescriptorView {
            service_name: self.service_name@,
            base_domains: list_view(self.base_domains@),
            hash_settings: self.hash_settings,
            cache_ttl_secs: self.cache_ttl_secs,
        }
    }
}

/// The kind of upstream interface a worker implements.
#[derive(Debug, Clone, PartialEq, Eq, Structural)]
pub enum ParserCapabilities {
    Rest,
    GraphQl,
}

#[derive(Debug, Clone)]
pub struct RegisterProxyRequest {
    pub descriptor: ProxyDescriptor,
}

#[verifier::ext_equal]
pub ghost struct RegisterRequestView {
    pub descriptor: DescriptorView,
}

impl View for RegisterProxyRequest {
    type V = RegisterRequestView;

    open spec fn view(&self) -> RegisterRequestView {
        RegisterRequestView { descriptor: self.descriptor@ }
    }
}

#[derive(Debug, Clone)]
pub struct RegisterProxyReply {
    pub accepted: bool,
    pub reason: Option<Vec<u8>>,
}

#[verifier::ext_equal]
pub ghost struct RegisterReplyView {
    pub accepted: bool,
    pub reason: Option<Seq<u8>>,
}

impl View for RegisterProxyReply {
    type V = RegisterReplyView;

    open spec fn view(&self) -> RegisterReplyView {
        RegisterReplyView {
            accepted: self.accepted,
            reason: match self.reason {
                Option::Some(b) => Option::Some(b@),
                Option::None => Option::None,
            },
        }
    }
}

/// A full HTTP request snapshot carried across process boundaries.
#[derive(Debug, Clone)]
pub struct ProxyRequestData {
    pub method: Vec<u8>,
    pub uri: Vec<u8>,
    pub headers: Vec<(Vec<u8>, Vec<u8>)>,
    pub body: Vec<u8>,
}

#[verifier::ext_equal]
pub ghost struct RequestView {
    pub method: Seq<u8>,
    pub uri: Seq<u8>,
    pub headers: Seq<(Seq<u8>, Seq<u8>)>,
    pub body: Seq<u8>,
}

impl View for ProxyRequestData {
    type V = RequestView;

    open spec fn view(&self) -> RequestView {
        RequestView {
            method: self.method@,
            uri: self.uri@,
            headers: pairs_view(self.headers@),
            body: self.body@,
        }
    }
}

/// A full HTTP response snapshot carried across process boundaries.
#[derive(Debug, Clone)]
pub struct ProxyResponseData {
    pub status: u16,
    pub headers: Vec<(Vec<u8>, Vec<u8>)>,
    pub body: Vec<u8>,
}

#[verifier::ext_equal]
pub ghost struct ResponseView {
    pub status: u16,
    pub headers: Seq<(Seq<u8>, Seq<u8>)>,
    pub body: Seq<u8>,
}

impl View for ProxyResponseData {
    type V = ResponseView;

    open spec fn view(&self) -> ResponseView {
        ResponseView {
            status: self.status,
            headers: pairs_view(self.headers@),
            body: self.body@,
        }
    }
}

/// The tagged union that travels over the bus.
#[derive(Debug, Clone)]
pub enum BusMessage {
    RegisterParser(RegisterProxyRequest),
    RegisterParserReply(RegisterProxyReply),
    ProxyRequest(ProxyRequestData),
    ProxyResponse(ProxyResponseData),
    Discovery,
}

#[verifier::ext_equal]
pub ghost enum BusMessageView {
    RegisterParser(RegisterRequestView),
    RegisterParserReply(RegisterReplyView),
    ProxyRequest(RequestView),
    ProxyResponse(ResponseView),
    Discovery,
}

impl View for BusMessage {
    type V = BusMessageView;

    open spec fn view(&self) -> BusMessageView {
        match self {
            BusMessage::RegisterParser(r) => BusMessageView::RegisterParser(r@),
            BusMessage::RegisterParserReply(r) => BusMessageView::RegisterParserReply(r@),
            BusMessage::ProxyRequest(r) => BusMessageView::ProxyRequest(r@),
            BusMessage::ProxyResponse(r) => BusMessageView::ProxyResponse(r@),
            BusMessage::Discovery => BusMessageView::Discovery,
        }
    }
}

// ---------------------------------------------------------------------------
// Well-formedness: every length fits its 8-byte length prefix.  Views of
// in-memory values always satisfy this.
// ---------------------------------------------------------------------------

pub open spec fn wf_descriptor(d: DescriptorView) -> bool {
    &&& wf_bytes(d.service_name)
    &&& wf_byte_lists(d.base_domains)
}

pub open spec fn wf_request(r: RequestView) -> bool {
    &&& wf_bytes(r.method)
    &&& wf_bytes(r.uri)
    &&& wf_pairs(r.headers)
    &&& wf_bytes(r.body)
}

pub open spec fn wf_response(r: ResponseView) -> bool {
    &&& wf_pairs(r.headers)
    &&& wf_bytes(r.body)
}

pub open spec fn wf_reply(r: RegisterReplyView) -> bool {
    match r.reason {
        Option::Some(b) => wf_bytes(b),
        Option::None => true,
    }
}

pub open spec fn wf_message(m: BusMessageView) -> bool {
    match m {
        BusMessageView::RegisterParser(r) => wf_descriptor(r.descriptor),
        BusMessageView::RegisterParserReply(r) => wf_reply(r),
        BusMessageView::ProxyRequest(r) => wf_request(r),
        BusMessageView::ProxyResponse(r) => wf_response(r),
        BusMessageView::Discovery => true,
    }
}

/// An in-memory request snapshot is always well formed: every length fits.
pub proof fn lemma_exec_request_wf(r: &ProxyRequestData)
    ensures
        wf_request(r@),
{
    broadcast use vstd::std_specs::vec::axiom_spec_len;

    assert(r.method.len() == r.method@.len());
    assert(r.uri.len() == r.uri@.len());
    assert(r.body.len() == r.body@.len());
    assert(r.headers.len() == r.headers@.len());
    assert forall|i: int| 0 <= i < r@.headers.len() implies wf_bytes(
        #[trigger] r@.headers[i].0,
    ) && wf_bytes(r@.headers[i].1) by {
        let p = r.headers@[i];
        assert(p.0.len() == p.0@.len());
        assert(p.1.len() == p.1@.len());
        assert(r@.headers[i] == (p.0@, p.1@));
    }
}

/// An in-memory response snapshot is always well formed: every length fits.
pub proof fn lemma_exec_response_wf(r: &ProxyResponseData)
    ensures
        wf_response(r@),
{
    broadcast use vstd::std_specs::vec::axiom_spec_len;

    assert(r.body.len() == r.body@.len());
    assert(r.headers.len() == r.headers@.len());
    assert forall|i: int| 0 <= i < r@.headers.len() implies wf_bytes(
        #[trigger] r@.headers[i].0,
    ) && wf_bytes(r@.headers[i].1) by {
        let p = r.headers@[i];
        assert(p.0.len() == p.0@.len());
        assert(p.1.len() == p.1@.len());
        assert(r@.headers[i] == (p.0@, p.1@));
    }
}

// ---------------------------------------------------------------------------
// Spec encoding of the envelope
// ---------------------------------------------------------------------------

pub open spec fn spec_enc_descriptor(d: DescriptorView) -> Seq<u8> {
    spec_enc_bytes(d.service_name) + spec_enc_u64(d.base_domains.len() as u64)
        + spec_enc_byte_lists(d.base_domains) + spec_enc_byte(spec_policy_byte(d.hash_settings))
        + spec_enc_opt_u64(d.cache_ttl_secs)
}

pub open spec fn spec_enc_request(r: RequestView) -> Seq<u8> {
    spec_enc_bytes(r.method) + spec_enc_bytes(r.uri) + spec_enc_u64(r.headers.len() as u64)
        + spec_enc_pairs(r.headers) + spec_enc_bytes(r.body)
}

pub open spec fn spec_enc_response(r: ResponseView) -> Seq<u8> {
    spec_enc_u16(r.status) + spec_enc_u64(r.headers.len() as u64) + spec_enc_pairs(r.headers)
        + spec_enc_bytes(r.body)
}

pub open spec fn spec_enc_reply(r: RegisterReplyView) -> Seq<u8> {
    spec_enc_bool(r.accepted) + spec_enc_opt_bytes(r.reason)
}

pub open spec fn spec_enc_message(m: BusMessageView) -> Seq<u8> {
    match m {
        BusMessageView::Discovery => seq![0u8],
        BusMessageView::RegisterParser(r) => seq![1u8] + spec_enc_descriptor(r.descriptor),
        BusMessageView::RegisterParserReply(r) => seq![2u8] + spec_enc_reply(r),
        BusMessageView::ProxyRequest(r) => seq![3u8] + spec_enc_request(r),
        BusMessageView::ProxyResponse(r) => seq![4u8] + spec_enc_response(r),
    }
}

// ---------------------------------------------------------------------------
// Spec decoding of the envelope (strict: the whole buffer must be consumed)
// ---------------------------------------------------------------------------

pub open spec fn spec_dec_descriptor(s: Seq<u8>, i: int) -> Option<(DescriptorView, int)> {
    match spec_dec_bytes(s, i) {
        Option::Some((name, j)) => match spec_dec_u64(s, j) {
            Option::Some((n, k)) => match spec_dec_byte_lists(s, k, n as nat) {
                Option::Some((domains, l2)) => match spec_dec_byte(s, l2) {
                    Option::Some((pb, m)) => match spec_policy_of_byte(pb) {
                        Option::Some(policy) => match spec_dec_opt_u64(s, m) {
                            Option::Some((ttl, q)) => Option::Some(
                                (
                                    DescriptorView {
                                        service_name: name,
                                        base_domains: domains,
                                        hash_settings: policy,
                                        cache_ttl_secs: ttl,
                                    },
                                    q,
                                ),
                            ),
                            Option::None => Option::None,
                        },
                        Option::None => Option::None,
                    },
                    Option::None => Option::None,
                },
                Option::None => Option::None,
            },
            Option::None => Option::None,
        },
        Option::None => Option::None,
    }
}

pub open spec fn spec_dec_request(s: Seq<u8>, i: int) -> Option<(RequestView, int)> {
    match spec_dec_bytes(s, i) {
        Option::Some((method, j)) => match spec_dec_bytes(s, j) {
            Option::Some((uri, k)) => match spec_dec_u64(s, k) {
                Option::Some((n, l2)) => match spec_dec_pairs(s, l2, n as nat) {
                    Option::Some((headers, m)) => match spec_dec_bytes(s, m) {
                        Option::Some((body, q)) => Option::Some(
                            (RequestView { method, uri, headers, body }, q),
                        ),
                        Option::None => Option::None,
                    },
                    Option::None => Option::None,
                },
                Option::None => Option::None,
            },
            Option::None => Option::None,
        },
        Option::None => Option::None,
    }
}

pub open spec fn spec_dec_response(s: Seq<u8>, i: int) -> Option<(ResponseView, int)> {
    match spec_dec_u16(s, i) {
        Option::Some((status, j)) => match spec_dec_u64(s, j) {
            Option::Some((n, k)) => match spec_dec_pairs(s, k, n as nat) {
                Option::Some((headers, l2)) => match spec_dec_bytes(s, l2) {
                    Option::Some((body, m)) => Option::Some(
                        (ResponseView { status, headers, body }, m),
                    ),
                    Option::None => Option::None,
                },
                Option::None => Option::None,
            },
            Option::None => Option::None,
        },
        Option::None => Option::None,
    }
}

pub open spec fn spec_dec_reply(s: Seq<u8>, i: int) -> Option<(RegisterReplyView, int)> {
    match spec_dec_bool(s, i) {
        Option::Some((accepted, j)) => match spec_dec_opt_bytes(s, j) {
            Option::Some((reason, k)) => Option::Some(
                (RegisterReplyView { accepted, reason }, k),
            ),
            Option::None => Option::None,
        },
        Option::None => Option::None,
    }
}

pub open spec fn spec_dec_message(s: Seq<u8>) -> Option<BusMessageView> {
    match spec_dec_byte(s, 0) {
        Option::Some((tag, i)) => if tag == 0u8 {
            if i == s.len() {
                Option::Some(BusMessageView::Discovery)
            } else {
                Option::None
            }
        } else if tag == 1u8 {
            match spec_dec_descriptor(s, i) {
                Option::Some((d, j)) => if j == s.len() {
                    Option::Some(BusMessageView::RegisterParser(RegisterRequestView { descriptor: d }))
                } else {
                    Option::None
                },
                Option::None => Option::None,
            }
        } else if tag == 2u8 {
            match spec_dec_reply(s, i) {
                Option::Some((r, j)) => if j == s.len() {
                    Option::Some(BusMessageView::RegisterParserReply(r))
                } else {
                    Option::None
                },
                Option::None => Option::None,
            }
        } else if tag == 3u8 {
            match spec_dec_request(s, i) {
                Option::Some((r, j)) => if j == s.len() {
                    Option::Some(BusMessageView::ProxyRequest(r))
                } else {
                    Option::None
                },
                Option::None => Option::None,
            }
        } else if tag == 4u8 {
            match spec_dec_response(s, i) {
                Option::Some((r, j)) => if j == s.len() {
                    Option::Some(BusMessageView::ProxyResponse(r))
                } else {
                    Option::None
                },
                Option::None => Option::None,
            }
        } else {
            Option::None
        },
        Option::None => Option::None,
    }
}

// ---------------------------------------------------------------------------
// Round trip: decoding an encoded envelope gives back the same envelope
// ---------------------------------------------------------------------------

pub proof fn lemma_dec_descriptor_of_enc(s: Seq<u8>, i: int, d: DescriptorView)
    requires
        0 <= i,
        wf_descriptor(d),
        i + spec_enc_descriptor(d).len() <= s.len(),
        s.subrange(i, i + spec_enc_descriptor(d).len() as int) == spec_enc_descriptor(d),
    ensures
        spec_dec_descriptor(s, i) == Option::Some((d, i + spec_enc_descriptor(d).len())),
{
    let e1 = spec_enc_bytes(d.service_name);
    let e2 = spec_enc_u64(d.base_domains.len() as u64);
    let e3 = spec_enc_byte_lists(d.base_domains);
    let e4 = spec_enc_byte(spec_policy_byte(d.hash_settings));
    let e5 = spec_enc_opt_u64(d.cache_ttl_secs);
    assert(spec_enc_descriptor(d) =~= e1 + (e2 + (e3 + (e4 + e5))));
    lemma_split_subrange(s, i, e1, e2 + (e3 + (e4 + e5)));
    let i1 = i + e1.len() as int;
    lemma_split_subrange(s, i1, e2, e3 + (e4 + e5));
    let i2 = i1 + e2.len() as int;
    lemma_split_subrange(s, i2, e3, e4 + e5);
    let i3 = i2 + e3.len() as int;
    lemma_split_subrange(s, i3, e4, e5);
    let i4 = i3 + e4.len() as int;
    lemma_dec_bytes_of_enc(s, i, d.service_name);
    lemma_dec_u64_of_enc(s, i1, d.base_domains.len() as u64);
    lemma_dec_byte_lists_of_enc(s, i2, d.base_domains);
    lemma_dec_byte_of_enc(s, i3, spec_policy_byte(d.hash_settings));
    lemma_policy_byte_round_trip(d.hash_settings);
    lemma_dec_opt_u64_of_enc(s, i4, d.cache_ttl_secs);
    assert(spec_dec_descriptor(s, i) matches Option::Some((d2, _)) && d2 =~= d);
}

pub proof fn lemma_dec_request_of_enc(s: Seq<u8>, i: int, r: RequestView)
    requires
        0 <= i,
        wf_request(r),
        i + spec_enc_request(r).len() <= s.len(),
        s.subrange(i, i + spec_enc_request(r).len() as int) == spec_enc_request(r),
    ensures
        spec_dec_request(s, i) == Option::Some((r, i + spec_enc_request(r).len())),
{
    let e1 = spec_enc_bytes(r.method);
    let e2 = spec_enc_bytes(r.uri);
    let e3 = spec_enc_u64(r.headers.len() as u64);
    let e4 = spec_enc_pairs(r.headers);
    let e5 = spec_enc_bytes(r.body);
    assert(spec_enc_request(r) =~= e1 + (e2 + (e3 + (e4 + e5))));
    lemma_split_subrange(s, i, e1, e2 + (e3 + (e4 + e5)));
    let i1 = i + e1.len() as int;
    lemma_split_subrange(s, i1, e2, e3 + (e4 + e5));
    let i2 = i1 + e2.len() as int;
    lemma_split_subrange(s, i2, e3, e4 + e5);
    let i3 = i2 + e3.len() as int;
    lemma_split_subrange(s, i3, e4, e5);
    let i4 = i3 + e4.len() as int;
    lemma_dec_bytes_of_enc(s, i, r.method);
    lemma_dec_bytes_of_enc(s, i1, r.uri);
    lemma_dec_u64_of_enc(s, i2, r.headers.len() as u64);
    lemma_dec_pairs_of_enc(s, i3, r.headers);
    lemma_dec_bytes_of_enc(s, i4, r.body);
    assert(spec_dec_request(s, i) matches Option::Some((r2, _)) && r2 =~= r);
}

pub proof fn lemma_dec_response_of_enc(s: Seq<u8>, i: int, r: ResponseView)
    requires
        0 <= i,
        wf_response(r),
        i + spec_enc_response(r).len() <= s.len(),
        s.subrange(i, i + spec_enc_response(r).len() as int) == spec_enc_response(r),
    ensures
        spec_dec_response(s, i) == Option::Some((r, i + spec_enc_response(r).len())),
{
    let e1 = spec_enc_u16(r.status);
    let e2 = spec_enc_u64(r.headers.len() as u64);
    let e3 = spec_enc_pairs(r.headers);
    let e4 = spec_enc_bytes(r.body);
    assert(spec_enc_response(r) =~= e1 + (e2 + (e3 + e4)));
    lemma_split_subrange(s, i, e1, e2 + (e3 + e4));
    let i1 = i + e1.len() as int;
    lemma_split_subrange(s, i1, e2, e3 + e4);
    let i2 = i1 + e2.len() as int;
    lemma_split_subrange(s, i2, e3, e4);
    let i3 = i2 + e3.len() as int;
    lemma_dec_u16_of_enc(s, i, r.status);
    lemma_dec_u64_of_enc(s, i1, r.headers.len() as u64);
    lemma_dec_pairs_of_enc(s, i2, r.headers);
    lemma_dec_bytes_of_enc(s, i3, r.body);
    assert(spec_dec_response(s, i) matches Option::Some((r2, _)) && r2 =~= r);
}

pub proof fn lemma_dec_reply_of_enc(s: Seq<u8>, i: int, r: RegisterReplyView)
    requires
        0 <= i,
        wf_reply(r),
        i + spec_enc_reply(r).len() <= s.len(),
        s.subrange(i, i + spec_enc_reply(r).len() as int) == spec_enc_reply(r),
    ensures
        spec_dec_reply(s, i) == Option::Some((r, i + spec_enc_reply(r).len())),
{
    let e1 = spec_enc_bool(r.accepted);
    let e2 = spec_enc_opt_bytes(r.reason);
    assert(spec_enc_reply(r) =~= e1 + e2);
    lemma_split_subrange(s, i, e1, e2);
    lemma_dec_bool_of_enc(s, i, r.accepted);
    lemma_dec_opt_bytes_of_enc(s, i + e1.len() as int, r.reason);
    assert(spec_dec_reply(s, i) matches Option::Some((r2, _)) && r2 =~= r);
}

/// Encoding then decoding an envelope reproduces it exactly: the method,
/// URI, status, every header and the body bytes all survive the bus.
pub proof fn lemma_bus_message_round_trip(m: BusMessageView)
    requires
        wf_message(m),
    ensures
        spec_dec_message(spec_enc_message(m)) == Option::Some(m),
{
    let s = spec_enc_message(m);
    match m {
        BusMessageView::Discovery => {
            assert(s.subrange(0, 1) =~= spec_enc_byte(0u8));
            lemma_dec_byte_of_enc(s, 0, 0u8);
        },
        BusMessageView::RegisterParser(r) => {
            let e = spec_enc_descriptor(r.descriptor);
            assert(s.subrange(0, 1) =~= spec_enc_byte(1u8));
            lemma_dec_byte_of_enc(s, 0, 1u8);
            assert(s.subrange(1, 1 + e.len() as int) =~= e);
            lemma_dec_descriptor_of_enc(s, 1, r.descriptor);
            assert(spec_dec_message(s) matches Option::Some(m2) && m2 =~= m);
        },
        BusMessageView::RegisterParserReply(r) => {
            let e = spec_enc_reply(r);
            assert(s.subrange(0, 1) =~= spec_enc_byte(2u8));
            lemma_dec_byte_of_enc(s, 0, 2u8);
            assert(s.subrange(1, 1 + e.len() as int) =~= e);
            lemma_dec_reply_of_enc(s, 1, r);
            assert(spec_dec_message(s) matches Option::Some(m2) && m2 =~= m);
        },
        BusMessageView::ProxyRequest(r) => {
            let e = spec_enc_request(r);
            assert(s.subrange(0, 1) =~= spec_enc_byte(3u8));
            lemma_dec_byte_of_enc(s, 0, 3u8);
            assert(s.subrange(1, 1 + e.len() as int) =~= e);
            lemma_dec_request_of_enc(s, 1, r);
            assert(spec_dec_message(s) matches Option::Some(m2) && m2 =~= m);
        },
        BusMessageView::ProxyResponse(r) => {
            let e = spec_enc_response(r);
            assert(s.subrange(0, 1) =~= spec_enc_byte(4u8));
            lemma_dec_byte_of_enc(s, 0, 4u8);
            assert(s.subrange(1, 1 + e.len() as int) =~= e);
            lemma_dec_response_of_enc(s, 1, r);
            assert(spec_dec_message(s) matches Option::Some(m2) && m2 =~= m);
        },
    }
}

// ---------------------------------------------------------------------------
// Exec encoding
// ---------------------------------------------------------------------------

pub fn encode_descriptor(out: &mut Vec<u8>, d: &ProxyDescriptor)
    ensures
        final(out)@ == old(out)@ + spec_enc_descriptor(d@),
{
    enc_bytes(out, d.service_name.as_slice());
    enc_u64(out, d.base_domains.len() as u64);
    enc_byte_list(out, d.base_domains.as_slice());
    enc_byte(out, policy_byte(d.hash_settings));
    enc_opt_u64(out, &d.cache_ttl_secs);
    proof {
        assert(d@.base_domains.len() == d.base_domains@.len());
        assert(out@ =~= old(out)@ + spec_enc_descriptor(d@));
    }
}

pub fn encode_request(out: &mut Vec<u8>, r: &ProxyRequestData)
    ensures
        final(out)@ == old(out)@ + spec_enc_request(r@),
{
    enc_bytes(out, r.method.as_slice());
    enc_bytes(out, r.uri.as_slice());
    enc_u64(out, r.headers.len() as u64);
    enc_pairs(out, r.headers.as_slice());
    enc_bytes(out, r.body.as_slice());
    proof {
        assert(r@.headers.len() == r.headers@.len());
        assert(out@ =~= old(out)@ + spec_enc_request(r@));
    }
}

pub fn encode_response(out: &mut Vec<u8>, r: &ProxyResponseData)
    ensures
        final(out)@ == old(out)@ + spec_enc_response(r@),
{
    enc_u16(out, r.status);
    enc_u64(out, r.headers.len() as u64);
    enc_pairs(out, r.headers.as_slice());
    enc_bytes(out, r.body.as_slice());
    proof {
        assert(r@.headers.len() == r.headers@.len());
        assert(out@ =~= old(out)@ + spec_enc_response(r@));
    }
}

pub fn encode_reply(out: &mut Vec<u8>, r: &RegisterProxyReply)
    ensures
        final(out)@ == old(out)@ + spec_enc_reply(r@),
{
    enc_bool(out, r.accepted);
    enc_opt_bytes(out, &r.reason);
    proof {
        assert(out@ =~= old(out)@ + spec_enc_reply(r@));
    }
}

/// Serializes an envelope for the bus.
pub fn encode_bus_message(m: &BusMessage) -> (r: Vec<u8>)
    ensures
        r@ == spec_enc_message(m@),
{
    let mut out: Vec<u8> = Vec::new();
    match m {
        BusMessage::Discovery => {
            enc_byte(&mut out, 0u8);
            assert(out@ =~= spec_enc_message(m@));
        },
        BusMessage::RegisterParser(r) => {
            enc_byte(&mut out, 1u8);
            encode_descriptor(&mut out, &r.descriptor);
            assert(out@ =~= spec_enc_message(m@));
        },
        BusMessage::RegisterParserReply(r) => {
            enc_byte(&mut out, 2u8);
            encode_reply(&mut out, r);
            assert(out@ =~= spec_enc_message(m@));
        },
        BusMessage::ProxyRequest(r) => {
            enc_byte(&mut out, 3u8);
            encode_request(&mut out, r);
            assert(out@ =~= spec_enc_message(m@));
        },
        BusMessage::ProxyResponse(r) => {
            enc_byte(&mut out, 4u8);
            encode_response(&mut out, r);
            assert(out@ =~= spec_enc_message(m@));
        },
    }
    out
}

// ---------------------------------------------------------------------------
// Exec decoding
// ---------------------------------------------------------------------------

pub fn decode_descriptor(buf: &[u8], i: usize) -> (r: Option<(ProxyDescriptor, usize)>)
    requires
        i <= buf@.len(),
    ensures
        r is Some <==> spec_dec_descriptor(buf@, i as int) is Some,
        r matches Some((d, j)) ==> spec_dec_descriptor(buf@, i as int) == Option::Some((
            d@,
            j as int,
        )) && j <= buf@.len(),
{
    match dec_bytes(buf, i) {
        None => None,
        Some((name, j)) => match dec_u64(buf, j) {
            None => None,
            Some((n, k)) => match dec_byte_list(buf, k, n) {
                None => None,
                Some((domains, l2)) => match dec_byte(buf, l2) {
                    None => None,
                    Some((pb, m)) => match policy_of_byte(pb) {
                        None => None,
                        Some(policy) => match dec_opt_u64(buf, m) {
                            None => None,
                            Some((ttl, q)) => {
                                let d = ProxyDescriptor {
                                    service_name: name,
                                    base_domains: domains,
                                    hash_settings: policy,
                                    cache_ttl_secs: ttl,
                                };
                                proof {
                                    assert(spec_dec_descriptor(buf@, i as int) matches Option::Some(
                                        (dv, _),
                                    ) && dv =~= d@);
                                }
                                Some((d, q))
                            },
                        },
                    },
                },
            },
        },
    }
}

pub fn decode_request(buf: &[u8], i: usize) -> (r: Option<(ProxyRequestData, usize)>)
    requires
        i <= buf@.len(),
    ensures
        r is Some <==> spec_dec_request(buf@, i as int) is Some,
        r matches Some((d, j)) ==> spec_dec_request(buf@, i as int) == Option::Some((
            d@,
            j as int,
        )) && j <= buf@.len(),
{
    match dec_bytes(buf, i) {
        None => None,
        Some((method, j)) => match dec_bytes(buf, j) {
            None => None,
            Some((uri, k)) => match dec_u64(buf, k) {
                None => None,
                Some((n, l2)) => match dec_pairs(buf, l2, n) {
                    None => None,
                    Some((headers, m)) => match dec_bytes(buf, m) {
                        None => None,
                        Some((body, q)) => {
                            let d = ProxyRequestData { method, uri, headers, body };
                            proof {
                                assert(spec_dec_request(buf@, i as int) matches Option::Some(
                                    (dv, _),
                                ) && dv =~= d@);
                            }
                            Some((d, q))
                        },
                    },
                },
            },
        },
    }
}

pub fn decode_response(buf: &[u8], i: usize) -> (r: Option<(ProxyResponseData, usize)>)
    requires
        i <= buf@.len(),
    ensures
        r is Some <==> spec_dec_response(buf@, i as int) is Some,
        r matches Some((d, j)) ==> spec_dec_response(buf@, i as int) == Option::Some((
            d@,
            j as int,
        )) && j <= buf@.len(),
{
    match dec_u16(buf, i) {
        None => None,
        Some((status, j)) => match dec_u64(buf, j) {
            None => None,
            Some((n, k)) => match dec_pairs(buf, k, n) {
                None => None,
                Some((headers, l2)) => match dec_bytes(buf, l2) {
                    None => None,
                    Some((body, m)) => {
                        let d = ProxyResponseData { status, headers, body };
                        proof {
                            assert(spec_dec_response(buf@, i as int) matches Option::Some(
                                (dv, _),
                            ) && dv =~= d@);
                        }
                        Some((d, m))
                    },
                },
            },
        },
    }
}

pub fn decode_reply(buf: &[u8], i: usize) -> (r: Option<(RegisterProxyReply, usize)>)
    requires
        i <= buf@.len(),
    ensures
        r is Some <==> spec_dec_reply(buf@, i as int) is Some,
        r matches Some((d, j)) ==> spec_dec_reply(buf@, i as int) == Option::Some((
            d@,
            j as int,
        )) && j <= buf@.len(),
{
    match dec_bool(buf, i) {
        None => None,
        Some((accepted, j)) => match dec_opt_bytes(buf, j) {
            None => None,
            Some((reason, k)) => {
                let d = RegisterProxyReply { accepted, reason };
                proof {
                    assert(spec_dec_reply(buf@, i as int) matches Option::Some((dv, _)) && dv
                        =~= d@);
                }
                Some((d, k))
            },
        },
    }
}

/// Parses an envelope from the bus; `None` on any malformed or unknown input.
pub fn decode_bus_message(buf: &[u8]) -> (r: Option<BusMessage>)
    ensures
        r is Some <==> spec_dec_message(buf@) is Some,
        r matches Some(m) ==> spec_dec_message(buf@) == Option::Some(m@),
{
    match dec_byte(buf, 0) {
        None => None,
        Some((tag, i)) => {
            if tag == 0u8 {
                if i == buf.len() {
                    Some(BusMessage::Discovery)
                } else {
                    None
                }
            } else if tag == 1u8 {
                match decode_descriptor(buf, i) {
                    None => None,
                    Some((d, j)) => {
                        if j == buf.len() {
                            Some(BusMessage::RegisterParser(RegisterProxyRequest { descriptor: d }))
                        } else {
                            None
                        }
                    },
                }
            } else if tag == 2u8 {
                match decode_reply(buf, i) {
                    None => None,
                    Some((d, j)) => {
                        if j == buf.len() {
                            Some(BusMessage::RegisterParserReply(d))
                        } else {
                            None
                        }
                    },
                }
            } else if tag == 3u8 {
                match decode_request(buf, i) {
                    None => None,
                    Some((d, j)) => {
                        if j == buf.len() {
                            Some(BusMessage::ProxyRequest(d))
                        } else {
                            None
                        }
                    },
                }
            } else if tag == 4u8 {
                match decode_response(buf, i) {
                    None => None,
                    Some((d, j)) => {
                        if j == buf.len() {
                            Some(BusMessage::ProxyResponse(d))
                        } else {
                            None
                        }
                    },
                }
            } else {
                None
            }
        },
    }
}

// ---------------------------------------------------------------------------
// Bus subjects, deterministic from the service name
// ---------------------------------------------------------------------------

/// The shared namespace prefix of the per-service subjects: `prtl.proxy.`.
pub open spec fn spec_proxy_prefix() -> Seq<u8> {
    seq![
        'p' as u8,
        'r' as u8,
        't' as u8,
        'l' as u8,
        '.' as u8,
        'p' as u8,
        'r' as u8,
        'o' as u8,
        'x' as u8,
        'y' as u8,
        '.' as u8,
    ]
}

/// `prtl.proxy.<service>.register`
pub open spec fn spec_subject_for_register(service: Seq<u8>) -> Seq<u8> {
    spec_proxy_prefix() + service + seq![
        '.' as u8,
        'r' as u8,
        'e' as u8,
        'g' as u8,
        'i' as u8,
        's' as u8,
        't' as u8,
        'e' as u8,
        'r' as u8,
    ]
}

/// `prtl.proxy.<service>.rpc`
pub open spec fn spec_subject_for_rpc(service: Seq<u8>) -> Seq<u8> {
    spec_proxy_prefix() + service + seq!['.' as u8, 'r' as u8, 'p' as u8, 'c' as u8]
}

/// `prtl.discovery`
pub open spec fn spec_subject_for_discovery() -> Seq<u8> {
    seq![
        'p' as u8,
        'r' as u8,
        't' as u8,
        'l' as u8,
        '.' as u8,
        'd' as u8,
        'i' as u8,
        's' as u8,
        'c' as u8,
        'o' as u8,
        'v' as u8,
        'e' as u8,
        'r' as u8,
        'y' as u8,
    ]
}

fn push_proxy_prefix(v: &mut Vec<u8>)
    ensures
        final(v)@ == old(v)@ + spec_proxy_prefix(),
{
    v.push('p' as u8);
    v.push('r' as u8);
    v.push('t' as u8);
    v.push('l' as u8);
    v.push('.' as u8);
    v.push('p' as u8);
    v.push('r' as u8);
    v.push('o' as u8);
    v.push('x' as u8);
    v.push('y' as u8);
    v.push('.' as u8);
    assert(v@ =~= old(v)@ + spec_proxy_prefix());
}

impl BusMessage {
    /// The point-to-point subject a worker announces itself on.
    pub fn subject_for_register(service: &[u8]) -> (r: Vec<u8>)
        ensures
            r@ == spec_subject_for_register(service@),
    {
        let mut v: Vec<u8> = Vec::new();
        push_proxy_prefix(&mut v);
        v.extend_from_slice(service);
        v.push('.' as u8);
        v.push('r' as u8);
        v.push('e' as u8);
        v.push('g' as u8);
        v.push('i' as u8);
        v.push('s' as u8);
        v.push('t' as u8);
        v.push('e' as u8);
        v.push('r' as u8);
        assert(v@ =~= spec_subject_for_register(service@));
        v
    }

    /// The request/reply subject the gateway dispatches RPC calls on.
    pub fn subject_for_rpc(service: &[u8]) -> (r: Vec<u8>)
        ensures
            r@ == spec_subject_for_rpc(service@),
    {
        let mut v: Vec<u8> = Vec::new();
        push_proxy_prefix(&mut v);
        v.extend_from_slice(service);
        v.push('.' as u8);
        v.push('r' as u8);
        v.push('p' as u8);
        v.push('c' as u8);
        assert(v@ =~= spec_subject_for_rpc(service@));
        v
    }

    /// The shared broadcast subject: any payload on it means "re-register".
    pub fn subject_for_discovery() -> (r: Vec<u8>)
        ensures
            r@ == spec_subject_for_discovery(),
    {
        let mut v: Vec<u8> = Vec::new();
        v.push('p' as u8);
        v.push('r' as u8);
        v.push('t' as u8);
        v.push('l' as u8);
        v.push('.' as u8);
        v.push('d' as u8);
        v.push('i' as u8);
        v.push('s' as u8);
        v.push('c' as u8);
        v.push('o' as u8);
        v.push('v' as u8);
        v.push('e' as u8);
        v.push('r' as u8);
        v.push('y' as u8);
        assert(v@ =~= spec_subject_for_discovery());
        v
    }
}

} // verus!
