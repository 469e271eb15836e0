//! Cache-key derivation: a canonical byte string is assembled from the
//! policy-selected request facets — path, query, and the header list sorted
//! into a canonical order — and fed to a cryptographic hash.  The derived
//! digest is a function of the selected facets alone.

use vstd::prelude::*;
use vstd::relations::{sorted_by, total_ordering};
use vstd::seq_lib::{lemma_multiset_commutative, lemma_sorted_unique};
use vstd::slice::slice_to_vec;
use crate::codec::pairs_view;
use crate::messages::HashComponents;

verus! {

broadcast use vstd::std_specs::vec::axiom_spec_len;

pub type HeaderPairView = (Seq<u8>, Seq<u8>);

// ---------------------------------------------------------------------------
// A total order on headers: lexicographic by name, then by value
// ---------------------------------------------------------------------------

/// Lexicographic order on byte strings.
pub open spec fn spec_lex_leq(a: Seq<u8>, b: Seq<u8>) -> bool
    decreases a.len(),
{
    if a.len() == 0 {
        true
    } else if b.len() == 0 {
        false
    } else if a.first() < b.first() {
        true
    } else if a.first() > b.first() {
        false
    } else {
        spec_lex_leq(a.drop_first(), b.drop_first())
    }
}

pub open spec fn spec_pair_leq(x: HeaderPairView, y: HeaderPairView) -> bool {
    if x.0 == y.0 {
        spec_lex_leq(x.1, y.1)
    } else {
        spec_lex_leq(x.0, y.0)
    }
}

pub open spec fn spec_pair_leq_fn() -> spec_fn(HeaderPairView, HeaderPairView) -> bool {
    |x: HeaderPairView, y: HeaderPairView| spec_pair_leq(x, y)
}

pub proof fn lemma_lex_leq_connected(a: Seq<u8>, b: Seq<u8>)
    ensures
        spec_lex_leq(a, b) || spec_lex_leq(b, a),
    decreases a.len(),
{
    if a.len() == 0 || b.len() == 0 {
    } else if a.first() == b.first() {
        lemma_lex_leq_connected(a.drop_first(), b.drop_first());
    }
}

pub proof fn lemma_lex_leq_antisymmetric(a: Seq<u8>, b: Seq<u8>)
    requires
        spec_lex_leq(a, b),
        spec_lex_leq(b, a),
    ensures
        a == b,
    decreases a.len(),
{
    if a.len() == 0 {
        assert(b.len() == 0);
        assert(a =~= b);
    } else {
        assert(b.len() > 0);
        assert(a.first() == b.first());
        lemma_lex_leq_antisymmetric(a.drop_first(), b.drop_first());
        assert(a.drop_first().len() == b.drop_first().len());
        assert(a =~= b) by {
            assert(a.len() == b.len());
            assert forall|i: int| 0 <= i < a.len() implies a[i] == b[i] by {
                if i > 0 {
                    assert(a.drop_first()[i - 1] == b.drop_first()[i - 1]);
                }
            }
        }
    }
}

pub proof fn lemma_lex_leq_transitive(a: Seq<u8>, b: Seq<u8>, c: Seq<u8>)
    requires
        spec_lex_leq(a, b),
        spec_lex_leq(b, c),
    ensures
        spec_lex_leq(a, c),
    decreases a.len(),
{
    if a.len() == 0 {
    } else {
        assert(b.len() > 0);
        assert(c.len() > 0);
        if a.first() == b.first() && b.first() == c.first() {
            lemma_lex_leq_transitive(a.drop_first(), b.drop_first(), c.drop_first());
        }
    }
}

/// Sorting headers by name then value is sorting by a total order, so a
/// sorted header list is uniquely determined by its multiset of entries.
pub proof fn lemma_pair_leq_total_ordering()
    ensures
        total_ordering(spec_pair_leq_fn()),
{
    let leq = spec_pair_leq_fn();
    assert forall|x: HeaderPairView| #[trigger] leq(x, x) by {
        lemma_lex_leq_connected(x.0, x.0);
        lemma_lex_leq_connected(x.1, x.1);
    }
    assert forall|x: HeaderPairView, y: HeaderPairView|
        #[trigger] leq(x, y) && #[trigger] leq(y, x) implies x == y by {
        if x.0 == y.0 {
            lemma_lex_leq_antisymmetric(x.1, y.1);
        } else {
            lemma_lex_leq_antisymmetric(x.0, y.0);
        }
    }
    assert forall|x: HeaderPairView, y: HeaderPairView, z: HeaderPairView|
        #[trigger] leq(x, y) && #[trigger] leq(y, z) implies leq(x, z) by {
        if x.0 == y.0 && y.0 == z.0 {
            lemma_lex_leq_transitive(x.1, y.1, z.1);
        } else if x.0 == y.0 {
            assert(spec_lex_leq(y.0, z.0));
        } else if y.0 == z.0 {
            assert(spec_lex_leq(x.0, y.0));
        } else {
            lemma_lex_leq_transitive(x.0, y.0, z.0);
            if x.0 == z.0 {
                lemma_lex_leq_antisymmetric(x.0, y.0);
            }
        }
    }
    assert forall|x: HeaderPairView, y: HeaderPairView| #[trigger] leq(x, y) || #[trigger] leq(
        y,
        x,
    ) by {
        if x.0 == y.0 {
            lemma_lex_leq_connected(x.1, y.1);
        } else {
            lemma_lex_leq_connected(x.0, y.0);
        }
    }
}

/// The canonical header order used by the key derivation.
pub open spec fn spec_sort_headers(hs: Seq<HeaderPairView>) -> Seq<HeaderPairView> {
    hs.sort_by(spec_pair_leq_fn())
}

// ---------------------------------------------------------------------------
// Exec comparison and sorting
// ---------------------------------------------------------------------------

proof fn lemma_lex_leq_skip(a: Seq<u8>, b: Seq<u8>, i: int)
    requires
        0 <= i <= a.len(),
        i <= b.len(),
        forall|j: int| 0 <= j < i ==> a[j] == b[j],
    ensures
        spec_lex_leq(a, b) == spec_lex_leq(a.skip(i), b.skip(i)),
    decreases i,
{
    if i > 0 {
        assert(a.len() > 0 && b.len() > 0);
        assert(a.first() == b.first());
        assert(a.drop_first().skip(i - 1) =~= a.skip(i));
        assert(b.drop_first().skip(i - 1) =~= b.skip(i));
        assert forall|j: int| 0 <= j < i - 1 implies a.drop_first()[j] == b.drop_first()[j] by {
            assert(a[j + 1] == b[j + 1]);
        }
        lemma_lex_leq_skip(a.drop_first(), b.drop_first(), i - 1);
    } else {
        assert(a.skip(0) =~= a);
        assert(b.skip(0) =~= b);
    }
}

/// Compares two byte strings lexicographically.
pub fn lex_leq(a: &[u8], b: &[u8]) -> (r: bool)
    ensures
        r == spec_lex_leq(a@, b@),
{
    let n = if a.len() < b.len() {
        a.len()
    } else {
        b.len()
    };
    let mut i: usize = 0;
    while i < n
        invariant
            i <= n,
            n <= a@.len(),
            n <= b@.len(),
            n == if a@.len() < b@.len() {
                a@.len()
            } else {
                b@.len()
            },
            forall|j: int| 0 <= j < i ==> a@[j] == b@[j],
        decreases n - i,
    {
        if a[i] < b[i] {
            proof {
                lemma_lex_leq_skip(a@, b@, i as int);
                assert(a@.skip(i as int).first() < b@.skip(i as int).first());
            }
            return true;
        }
        if a[i] > b[i] {
            proof {
                lemma_lex_leq_skip(a@, b@, i as int);
                assert(a@.skip(i as int).first() > b@.skip(i as int).first());
            }
            return false;
        }
        i = i + 1;
    }
    proof {
        lemma_lex_leq_skip(a@, b@, n as int);
        if a@.len() <= b@.len() {
            assert(a@.skip(n as int).len() == 0);
        } else {
            assert(b@.skip(n as int).len() == 0);
            assert(a@.skip(n as int).len() > 0);
        }
    }
    a.len() <= b.len()
}

/// Compares two headers: by name, then by value.
pub fn pair_leq(x: &(Vec<u8>, Vec<u8>), y: &(Vec<u8>, Vec<u8>)) -> (r: bool)
    ensures
        r == spec_pair_leq((x.0@, x.1@), (y.0@, y.1@)),
{
    if crate::registry::bytes_eq(x.0.as_slice(), y.0.as_slice()) {
        lex_leq(x.1.as_slice(), y.1.as_slice())
    } else {
        lex_leq(x.0.as_slice(), y.0.as_slice())
    }
}

proof fn lemma_to_multiset_insert<A>(s: Seq<A>, j: int, x: A)
    requires
        0 <= j <= s.len(),
    ensures
        s.insert(j, x).to_multiset() == s.to_multiset().insert(x),
{
    broadcast use vstd::seq_lib::group_to_multiset_ensures;
    broadcast use vstd::multiset::group_multiset_axioms;

    let t = s.insert(j, x);
    assert(t =~= s.take(j).push(x) + s.skip(j));
    assert(s =~= s.take(j) + s.skip(j));
    lemma_multiset_commutative(s.take(j).push(x), s.skip(j));
    lemma_multiset_commutative(s.take(j), s.skip(j));
    assert(s.take(j).push(x).to_multiset() =~= s.take(j).to_multiset().insert(x));
    assert(t.to_multiset() =~= s.to_multiset().insert(x));
}

/// Sorts a header list into the canonical order.
pub fn sort_headers(hs: Vec<(Vec<u8>, Vec<u8>)>) -> (r: Vec<(Vec<u8>, Vec<u8>)>)
    ensures
        pairs_view(r@) == spec_sort_headers(pairs_view(hs@)),
{
    broadcast use vstd::seq_lib::group_to_multiset_ensures;
    broadcast use vstd::multiset::group_multiset_axioms;

    let ghost orig = pairs_view(hs@);
    let ghost leq = spec_pair_leq_fn();
    let mut input = hs;
    let mut out: Vec<(Vec<u8>, Vec<u8>)> = Vec::new();
    proof {
        assert(pairs_view(out@) =~= Seq::<HeaderPairView>::empty());
        assert(pairs_view(out@).to_multiset().add(pairs_view(input@).to_multiset())
            =~= orig.to_multiset());
    }
    while input.len() > 0
        invariant
            leq == spec_pair_leq_fn(),
            sorted_by(pairs_view(out@), leq),
            pairs_view(out@).to_multiset().add(pairs_view(input@).to_multiset())
                == orig.to_multiset(),
        decreases input@.len(),
    {
        let ghost in0 = pairs_view(input@);
        let h = input.pop().unwrap();
        let ghost hv = (h.0@, h.1@);
        proof {
            broadcast use vstd::seq_lib::group_to_multiset_ensures;
            broadcast use vstd::multiset::group_multiset_axioms;

            assert(in0 =~= pairs_view(input@).push(hv));
            assert(pairs_view(input@).push(hv).to_multiset() =~= pairs_view(
                input@,
            ).to_multiset().insert(hv));
            assert(in0.to_multiset() == pairs_view(input@).to_multiset().insert(hv));
        }
        let ghost out0 = pairs_view(out@);
        let mut j: usize = 0;
        while j < out.len() && pair_leq(&out[j], &h)
            invariant
                leq == spec_pair_leq_fn(),
                out0 == pairs_view(out@),
                j <= out@.len(),
                out0.len() == out@.len(),
                hv == (h.0@, h.1@),
                forall|k: int| 0 <= k < j ==> leq(#[trigger] out0[k], hv),
            decreases out@.len() - j,
        {
            proof {
                assert(out0[j as int] == (out@[j as int].0@, out@[j as int].1@));
            }
            j = j + 1;
        }
        proof {
            lemma_pair_leq_total_ordering();
            if (j as int) < out0.len() {
                assert(out0[j as int] == (out@[j as int].0@, out@[j as int].1@));
                assert(!leq(out0[j as int], hv));
                assert(leq(hv, out0[j as int]));
            }
        }
        out.insert(j, h);
        proof {
            broadcast use vstd::seq_lib::group_to_multiset_ensures;
            broadcast use vstd::multiset::group_multiset_axioms;

            assert(pairs_view(out@) =~= out0.insert(j as int, hv));
            out0.insert_ensures(j as int, hv);
            lemma_to_multiset_insert(out0, j as int, hv);
            let nv = pairs_view(out@);
            assert forall|a: int, b: int| 0 <= a < b < nv.len() implies leq(nv[a], nv[b]) by {
                if b < j as int {
                    assert(leq(out0[a], out0[b]));
                } else if b == j as int {
                    assert(nv[b] == hv);
                    assert(leq(out0[a], hv));
                } else if a < j as int {
                    assert(nv[b] == out0[b - 1]);
                    if b - 1 == a {
                        assert(leq(out0[a], hv));
                        assert(b - 1 >= j as int);
                        assert(false);
                    } else {
                        assert(leq(out0[a], out0[b - 1]));
                    }
                } else if a == j as int {
                    assert(nv[a] == hv);
                    assert(nv[b] == out0[b - 1]);
                    assert(b - 1 >= j as int);
                    assert(leq(hv, out0[j as int]));
                    if b - 1 > j as int {
                        assert(leq(out0[j as int], out0[b - 1]));
                    }
                } else {
                    assert(nv[a] == out0[a - 1]);
                    assert(nv[b] == out0[b - 1]);
                    assert(leq(out0[a - 1], out0[b - 1]));
                }
            }
            assert(sorted_by(nv, leq));
            assert(nv.to_multiset().add(pairs_view(input@).to_multiset())
                =~= orig.to_multiset());
        }
    }
    proof {
        let inm = pairs_view(input@).to_multiset();
        assert(pairs_view(input@).len() == 0);
        assert forall|x: HeaderPairView| inm.count(x) == 0 by {
            if inm.count(x) > 0 {
                assert(pairs_view(input@).contains(x));
            }
        }
        assert(pairs_view(out@).to_multiset() =~= orig.to_multiset());
        lemma_pair_leq_total_ordering();
        orig.lemma_sort_by_ensures(leq);
        lemma_sorted_unique(pairs_view(out@), orig.sort_by(leq), leq);
        assert(pairs_view(out@) == spec_sort_headers(orig));
    }
    out
}

// ---------------------------------------------------------------------------
// The hash input: the policy-selected facets, serialized canonically
// ---------------------------------------------------------------------------

/// One sorted header entry as fed to the hash: `name ":" value "\n"`.
pub open spec fn spec_header_line(h: HeaderPairView) -> Seq<u8> {
    h.0 + seq![':' as u8] + h.1 + seq!['\n' as u8]
}

/// The serialized header list, in the order given.
pub open spec fn spec_header_block(hs: Seq<HeaderPairView>) -> Seq<u8>
    decreases hs.len(),
{
    if hs.len() == 0 {
        Seq::<u8>::empty()
    } else {
        spec_header_block(hs.drop_last()) + spec_header_line(hs.last())
    }
}

/// What the hash is fed, in order: path bytes if URL is selected; query bytes
/// if QUERY is selected and a query is present; the canonically sorted header
/// list if HEADERS is selected.  The method and the body never participate.
pub open spec fn spec_hash_input(
    path: Seq<u8>,
    query: Option<Seq<u8>>,
    headers: Seq<HeaderPairView>,
    settings: HashComponents,
) -> Seq<u8> {
    (if settings.url {
        path
    } else {
        Seq::<u8>::empty()
    }) + (if settings.query {
        match query {
            Option::Some(q) => q,
            Option::None => Seq::<u8>::empty(),
        }
    } else {
        Seq::<u8>::empty()
    }) + (if settings.headers {
        spec_header_block(spec_sort_headers(headers))
    } else {
        Seq::<u8>::empty()
    })
}

/// View of an optional byte vector.
pub open spec fn opt_bytes_view(o: Option<Vec<u8>>) -> Option<Seq<u8>> {
    match o {
        Option::Some(b) => Option::Some(b@),
        Option::None => Option::None,
    }
}

/// Copies a header list (so the caller keeps its own).
pub fn copy_headers(hs: &Vec<(Vec<u8>, Vec<u8>)>) -> (r: Vec<(Vec<u8>, Vec<u8>)>)
    ensures
        pairs_view(r@) == pairs_view(hs@),
{
    let mut out: Vec<(Vec<u8>, Vec<u8>)> = Vec::new();
    let mut i: usize = 0;
    proof {
        assert(pairs_view(out@) =~= pairs_view(hs@).take(0));
    }
    while i < hs.len()
        invariant
            i <= hs@.len(),
            pairs_view(out@) == pairs_view(hs@).take(i as int),
        decreases hs@.len() - i,
    {
        let p = (slice_to_vec(hs[i].0.as_slice()), slice_to_vec(hs[i].1.as_slice()));
        let ghost pv0 = (p.0@, p.1@);
        let ghost out0 = pairs_view(out@);
        out.push(p);
        proof {
            assert(pairs_view(out@) =~= out0.push(pv0));
            assert(pv0 == pairs_view(hs@)[i as int]);
            assert(pairs_view(hs@).take(i as int + 1) =~= pairs_view(hs@).take(i as int).push(
                pairs_view(hs@)[i as int],
            ));
        }
        i = i + 1;
    }
    proof {
        assert(pairs_view(hs@).take(i as int) =~= pairs_view(hs@));
    }
    out
}

/// Assembles the canonical byte string that the digest is taken over.
pub fn build_hash_input(
    path: &[u8],
    query: &Option<Vec<u8>>,
    headers: &Vec<(Vec<u8>, Vec<u8>)>,
    settings: HashComponents,
) -> (r: Vec<u8>)
    ensures
        r@ == spec_hash_input(path@, opt_bytes_view(*query), pairs_view(headers@), settings),
{
    let mut out: Vec<u8> = Vec::new();
    if settings.url {
        out.extend_from_slice(path);
        proof {
            assert(out@ =~= path@);
        }
    }
    let ghost after_path = out@;
    if settings.query {
        match query {
            Some(q) => {
                out.extend_from_slice(q.as_slice());
                proof {
                    assert(out@ =~= after_path + q@);
                }
            },
            None => {},
        }
    }
    let ghost after_query = out@;
    if settings.headers {
        let sorted = sort_headers(copy_headers(headers));
        let ghost sv = pairs_view(sorted@);
        let mut i: usize = 0;
        while i < sorted.len()
            invariant
                i <= sorted@.len(),
                sv == pairs_view(sorted@),
                sv.len() == sorted@.len(),
                out@ == after_query + spec_header_block(sv.take(i as int)),
            decreases sorted@.len() - i,
        {
            out.extend_from_slice(sorted[i].0.as_slice());
            out.push(':' as u8);
            out.extend_from_slice(sorted[i].1.as_slice());
            out.push('\n' as u8);
            proof {
                let t = sv.take(i as int + 1);
                assert(t.drop_last() =~= sv.take(i as int));
                assert(t.last() == sv[i as int]);
                assert(sv[i as int] == (sorted@[i as int].0@, sorted@[i as int].1@));
                assert(out@ =~= after_query + (spec_header_block(sv.take(i as int))
                    + spec_header_line(sv[i as int])));
                assert(spec_header_block(t) == spec_header_block(t.drop_last())
                    + spec_header_line(t.last()));
                assert(out@ =~= after_query + spec_header_block(t));
            }
            i = i + 1;
        }
        proof {
            assert(sv.take(i as int) =~= sv);
        }
    }
    proof {
        assert(out@ =~= spec_hash_input(
            path@,
            opt_bytes_view(*query),
            pairs_view(headers@),
            settings,
        ));
    }
    out
}

// ---------------------------------------------------------------------------
// The digest and the cache key
// ---------------------------------------------------------------------------

/// A byte rendering a lowercase hexadecimal digit: `0`-`9` or `a`-`f`.
pub open spec fn spec_is_lower_hex_digit(b: u8) -> bool {
    ||| 48 <= b <= 57
    ||| 97 <= b <= 102
}

/// The digest the outside hash assigns to a byte string: 64 bytes of
/// lowercase hex.  Same bytes in, same digest out, on every machine.
pub uninterp spec fn blake3_hex_of(input: Seq<u8>) -> Seq<u8>;

/// Relies on `blake3::hash` and `blake3::Hash::to_hex`: the digest is a
/// function of the input bytes alone, rendered as two characters per digest
/// byte from the table `0123456789abcdef` — 64 lowercase-hex characters.
#[verifier::external_body]
fn blake3_hex(input: &[u8]) -> (r: Vec<u8>)
    ensures
        r@ == blake3_hex_of(input@),
        r@.len() == 64,
        forall|i: int| 0 <= i < r@.len() ==> spec_is_lower_hex_digit(#[trigger] r@[i]),
{
    let digest = blake3::hash(input);
    let hex = digest.to_hex();
    hex.as_bytes().to_vec()
}

/// The hex digest derived from a request under a hash policy.
pub open spec fn spec_cache_digest(
    path: Seq<u8>,
    query: Option<Seq<u8>>,
    headers: Seq<HeaderPairView>,
    settings: HashComponents,
) -> Seq<u8> {
    blake3_hex_of(spec_hash_input(path, query, headers, settings))
}

/// Derives the hex digest over the policy-selected facets of a request.
pub fn compute_cache_key(
    path: &[u8],
    query: &Option<Vec<u8>>,
    headers: &Vec<(Vec<u8>, Vec<u8>)>,
    settings: HashComponents,
) -> (r: Vec<u8>)
    ensures
        r@ == spec_cache_digest(path@, opt_bytes_view(*query), pairs_view(headers@), settings),
        r@.len() == 64,
        forall|i: int| 0 <= i < r@.len() ==> spec_is_lower_hex_digit(#[trigger] r@[i]),
{
    let input = build_hash_input(path, query, headers, settings);
    blake3_hex(input.as_slice())
}

/// The store key for a service and digest: `proxy:<service>:<digest>`.
pub open spec fn spec_cache_key(service: Seq<u8>, digest: Seq<u8>) -> Seq<u8> {
    seq!['p' as u8, 'r' as u8, 'o' as u8, 'x' as u8, 'y' as u8, ':' as u8] + service + seq![
        ':' as u8,
    ] + digest
}

/// Builds the store key `proxy:<service>:<digest>`.
pub fn cache_key(service: &[u8], digest: &[u8]) -> (r: Vec<u8>)
    ensures
        r@ == spec_cache_key(service@, digest@),
{
    let mut v: Vec<u8> = Vec::new();
    v.push('p' as u8);
    v.push('r' as u8);
    v.push('o' as u8);
    v.push('x' as u8);
    v.push('y' as u8);
    v.push(':' as u8);
    v.extend_from_slice(service);
    v.push(':' as u8);
    v.extend_from_slice(digest);
    assert(v@ =~= spec_cache_key(service@, digest@));
    v
}

// ---------------------------------------------------------------------------
// Determinism of the derived key
// ---------------------------------------------------------------------------

/// The derived digest — and so the derived key — is a reproducible function
/// of the policy-selected facets alone: two requests that agree on the path
/// (when URL is selected), on the query (when QUERY is selected) and on the
/// multiset of headers (when HEADERS is selected) get the same digest,
/// whatever their unselected fields hold.
pub proof fn lemma_cache_digest_determinism(
    path1: Seq<u8>,
    query1: Option<Seq<u8>>,
    headers1: Seq<HeaderPairView>,
    path2: Seq<u8>,
    query2: Option<Seq<u8>>,
    headers2: Seq<HeaderPairView>,
    settings: HashComponents,
)
    requires
        settings.url ==> path1 == path2,
        settings.query ==> query1 == query2,
        settings.headers ==> headers1.to_multiset() == headers2.to_multiset(),
    ensures
        spec_cache_digest(path1, query1, headers1, settings) == spec_cache_digest(
            path2,
            query2,
            headers2,
            settings,
        ),
{
    let leq = spec_pair_leq_fn();
    if settings.headers {
        lemma_pair_leq_total_ordering();
        headers1.lemma_sort_by_ensures(leq);
        headers2.lemma_sort_by_ensures(leq);
        lemma_sorted_unique(headers1.sort_by(leq), headers2.sort_by(leq), leq);
        assert(spec_sort_headers(headers1) == spec_sort_headers(headers2));
    }
    assert(spec_hash_input(path1, query1, headers1, settings) == spec_hash_input(
        path2,
        query2,
        headers2,
        settings,
    ));
}

} // verus!
