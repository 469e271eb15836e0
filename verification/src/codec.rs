//! Length-prefixed binary encoding primitives for the wire envelope and the
//! cache-entry value format.
//!
//! Every encoder has a spec-level twin, every decoder decodes exactly what the
//! encoder produced (round-trip lemmas below), and decoding is strict: a
//! malformed prefix yields `None`.

use vstd::prelude::*;
use vstd::bytes::{
    lemma_auto_spec_u16_to_from_le_bytes, lemma_auto_spec_u64_to_from_le_bytes,
    spec_u16_to_le_bytes, spec_u64_to_le_bytes, u16_from_le_bytes, u16_to_le_bytes,
    u64_from_le_bytes, u64_to_le_bytes,
};
use vstd::bytes::{spec_u16_from_le_bytes, spec_u64_from_le_bytes};
use vstd::slice::{slice_subrange, slice_to_vec};

verus! {

/// View of a list of byte vectors as a sequence of byte sequences.
pub open spec fn list_view(l: Seq<Vec<u8>>) -> Seq<Seq<u8>> {
    l.map_values(|x: Vec<u8>| x@)
}

/// View of a list of (name, value) byte-vector pairs.
pub open spec fn pairs_view(l: Seq<(Vec<u8>, Vec<u8>)>) -> Seq<(Seq<u8>, Seq<u8>)> {
    l.map_values(|p: (Vec<u8>, Vec<u8>)| (p.0@, p.1@))
}

// ---------------------------------------------------------------------------
// Spec encoders
// ---------------------------------------------------------------------------

pub open spec fn spec_enc_u64(x: u64) -> Seq<u8> {
    spec_u64_to_le_bytes(x)
}

pub open spec fn spec_enc_u16(x: u16) -> Seq<u8> {
    spec_u16_to_le_bytes(x)
}

pub open spec fn spec_enc_byte(x: u8) -> Seq<u8> {
    seq![x]
}

pub open spec fn spec_enc_bool(b: bool) -> Seq<u8> {
    if b {
        seq![1u8]
    } else {
        seq![0u8]
    }
}

/// A byte string: 8-byte little-endian length, then the bytes themselves.
pub open spec fn spec_enc_bytes(b: Seq<u8>) -> Seq<u8> {
    spec_enc_u64(b.len() as u64) + b
}

/// Concatenation of the encodings of each byte string, in order.
pub open spec fn spec_enc_byte_lists(l: Seq<Seq<u8>>) -> Seq<u8>
    decreases l.len(),
{
    if l.len() == 0 {
        Seq::<u8>::empty()
    } else {
        spec_enc_bytes(l.first()) + spec_enc_byte_lists(l.drop_first())
    }
}

pub open spec fn spec_enc_pair(p: (Seq<u8>, Seq<u8>)) -> Seq<u8> {
    spec_enc_bytes(p.0) + spec_enc_bytes(p.1)
}

/// Concatenation of the encodings of each (name, value) pair, in order.
pub open spec fn spec_enc_pairs(l: Seq<(Seq<u8>, Seq<u8>)>) -> Seq<u8>
    decreases l.len(),
{
    if l.len() == 0 {
        Seq::<u8>::empty()
    } else {
        spec_enc_pair(l.first()) + spec_enc_pairs(l.drop_first())
    }
}

pub open spec fn spec_enc_opt_u64(o: Option<u64>) -> Seq<u8> {
    match o {
        Option::None => seq![0u8],
        Option::Some(x) => seq![1u8] + spec_enc_u64(x),
    }
}

pub open spec fn spec_enc_opt_bytes(o: Option<Seq<u8>>) -> Seq<u8> {
    match o {
        Option::None => seq![0u8],
        Option::Some(b) => seq![1u8] + spec_enc_bytes(b),
    }
}

// ---------------------------------------------------------------------------
// Well-formedness: lengths that fit the 8-byte length prefixes
// ---------------------------------------------------------------------------

pub open spec fn wf_bytes(b: Seq<u8>) -> bool {
    b.len() <= u64::MAX
}

pub open spec fn wf_byte_lists(l: Seq<Seq<u8>>) -> bool {
    &&& l.len() <= u64::MAX
    &&& forall|i: int| 0 <= i < l.len() ==> wf_bytes(#[trigger] l[i])
}

pub open spec fn wf_pairs(l: Seq<(Seq<u8>, Seq<u8>)>) -> bool {
    &&& l.len() <= u64::MAX
    &&& forall|i: int| 0 <= i < l.len() ==> wf_bytes(#[trigger] l[i].0) && wf_bytes(l[i].1)
}

// ---------------------------------------------------------------------------
// Spec decoders (strict)
// ---------------------------------------------------------------------------

pub open spec fn spec_dec_u64(s: Seq<u8>, i: int) -> Option<(u64, int)> {
    if 0 <= i && i + 8 <= s.len() {
        Option::Some((spec_u64_from_le_bytes(s.subrange(i, i + 8)), i + 8))
    } else {
        Option::None
    }
}

pub open spec fn spec_dec_u16(s: Seq<u8>, i: int) -> Option<(u16, int)> {
    if 0 <= i && i + 2 <= s.len() {
        Option::Some((spec_u16_from_le_bytes(s.subrange(i, i + 2)), i + 2))
    } else {
        Option::None
    }
}

pub open spec fn spec_dec_byte(s: Seq<u8>, i: int) -> Option<(u8, int)> {
    if 0 <= i && i + 1 <= s.len() {
        Option::Some((s[i], i + 1))
    } else {
        Option::None
    }
}

pub open spec fn spec_dec_bool(s: Seq<u8>, i: int) -> Option<(bool, int)> {
    match spec_dec_byte(s, i) {
        Option::Some((b, j)) => if b == 0u8 {
            Option::Some((false, j))
        } else if b == 1u8 {
            Option::Some((true, j))
        } else {
            Option::None
        },
        Option::None => Option::None,
    }
}

pub open spec fn spec_dec_bytes(s: Seq<u8>, i: int) -> Option<(Seq<u8>, int)> {
    match spec_dec_u64(s, i) {
        Option::Some((n, j)) => if j + n <= s.len() {
            Option::Some((s.subrange(j, j + n), j + n))
        } else {
            Option::None
        },
        Option::None => Option::None,
    }
}

pub open spec fn spec_dec_byte_lists(s: Seq<u8>, i: int, n: nat) -> Option<(Seq<Seq<u8>>, int)>
    decreases n,
{
    if n == 0 {
        Option::Some((Seq::<Seq<u8>>::empty(), i))
    } else {
        match spec_dec_bytes(s, i) {
            Option::Some((b, j)) => match spec_dec_byte_lists(s, j, (n - 1) as nat) {
                Option::Some((rest, k)) => Option::Some((seq![b] + rest, k)),
                Option::None => Option::None,
            },
            Option::None => Option::None,
        }
    }
}

pub open spec fn spec_dec_pair(s: Seq<u8>, i: int) -> Option<((Seq<u8>, Seq<u8>), int)> {
    match spec_dec_bytes(s, i) {
        Option::Some((a, j)) => match spec_dec_bytes(s, j) {
            Option::Some((b, k)) => Option::Some(((a, b), k)),
            Option::None => Option::None,
        },
        Option::None => Option::None,
    }
}

pub open spec fn spec_dec_pairs(s: Seq<u8>, i: int, n: nat) -> Option<(Seq<(Seq<u8>, Seq<u8>)>, int)>
    decreases n,
{
    if n == 0 {
        Option::Some((Seq::<(Seq<u8>, Seq<u8>)>::empty(), i))
    } else {
        match spec_dec_pair(s, i) {
            Option::Some((p, j)) => match spec_dec_pairs(s, j, (n - 1) as nat) {
                Option::Some((rest, k)) => Option::Some((seq![p] + rest, k)),
                Option::None => Option::None,
            },
            Option::None => Option::None,
        }
    }
}

pub open spec fn spec_dec_opt_u64(s: Seq<u8>, i: int) -> Option<(Option<u64>, int)> {
    match spec_dec_byte(s, i) {
        Option::Some((t, j)) => if t == 0u8 {
            Option::Some((Option::None, j))
        } else if t == 1u8 {
            match spec_dec_u64(s, j) {
                Option::Some((x, k)) => Option::Some((Option::Some(x), k)),
                Option::None => Option::None,
            }
        } else {
            Option::None
        },
        Option::None => Option::None,
    }
}

pub open spec fn spec_dec_opt_bytes(s: Seq<u8>, i: int) -> Option<(Option<Seq<u8>>, int)> {
    match spec_dec_byte(s, i) {
        Option::Some((t, j)) => if t == 0u8 {
            Option::Some((Option::None, j))
        } else if t == 1u8 {
            match spec_dec_bytes(s, j) {
                Option::Some((b, k)) => Option::Some((Option::Some(b), k)),
                Option::None => Option::None,
            }
        } else {
            Option::None
        },
        Option::None => Option::None,
    }
}

// ---------------------------------------------------------------------------
// Helper lemmas
// ---------------------------------------------------------------------------

/// A subrange equal to a concatenation splits into two adjacent subranges.
pub proof fn lemma_split_subrange(s: Seq<u8>, i: int, a: Seq<u8>, b: Seq<u8>)
    requires
        0 <= i,
        i + a.len() + b.len() <= s.len(),
        s.subrange(i, i + a.len() + b.len()) == a + b,
    ensures
        s.subrange(i, i + a.len() as int) == a,
        s.subrange(i + a.len() as int, i + a.len() + b.len()) == b,
{
    let ab = a + b;
    assert(s.subrange(i, i + a.len() as int) =~= a) by {
        assert forall|k: int| 0 <= k < a.len() implies s[i + k] == a[k] by {
            assert(ab[k] == a[k]);
            assert(s.subrange(i, i + ab.len() as int)[k] == s[i + k]);
        }
    }
    assert(s.subrange(i + a.len() as int, i + a.len() + b.len()) =~= b) by {
        assert forall|k: int| 0 <= k < b.len() implies s[i + a.len() + k] == b[k] by {
            assert(ab[a.len() + k] == b[k]);
            assert(s.subrange(i, i + ab.len() as int)[a.len() + k] == s[i + a.len() + k]);
        }
    }
}

// ---------------------------------------------------------------------------
// Round-trip lemmas: decoding what was encoded
// ---------------------------------------------------------------------------

pub proof fn lemma_dec_u64_of_enc(s: Seq<u8>, i: int, x: u64)
    requires
        0 <= i,
        i + spec_enc_u64(x).len() <= s.len(),
        s.subrange(i, i + spec_enc_u64(x).len() as int) == spec_enc_u64(x),
    ensures
        spec_enc_u64(x).len() == 8,
        spec_dec_u64(s, i) == Option::Some((x, i + 8)),
{
    lemma_auto_spec_u64_to_from_le_bytes();
}

pub proof fn lemma_dec_u16_of_enc(s: Seq<u8>, i: int, x: u16)
    requires
        0 <= i,
        i + spec_enc_u16(x).len() <= s.len(),
        s.subrange(i, i + spec_enc_u16(x).len() as int) == spec_enc_u16(x),
    ensures
        spec_enc_u16(x).len() == 2,
        spec_dec_u16(s, i) == Option::Some((x, i + 2)),
{
    lemma_auto_spec_u16_to_from_le_bytes();
}

pub proof fn lemma_dec_byte_of_enc(s: Seq<u8>, i: int, x: u8)
    requires
        0 <= i,
        i + 1 <= s.len(),
        s.subrange(i, i + 1) == spec_enc_byte(x),
    ensures
        spec_dec_byte(s, i) == Option::Some((x, i + 1)),
{
    assert(s.subrange(i, i + 1)[0] == s[i]);
}

pub proof fn lemma_dec_bool_of_enc(s: Seq<u8>, i: int, b: bool)
    requires
        0 <= i,
        i + 1 <= s.len(),
        s.subrange(i, i + 1) == spec_enc_bool(b),
    ensures
        spec_dec_bool(s, i) == Option::Some((b, i + 1)),
{
    let x: u8 = if b { 1u8 } else { 0u8 };
    assert(spec_enc_bool(b) == spec_enc_byte(x));
    lemma_dec_byte_of_enc(s, i, x);
}

pub proof fn lemma_dec_bytes_of_enc(s: Seq<u8>, i: int, b: Seq<u8>)
    requires
        0 <= i,
        wf_bytes(b),
        i + spec_enc_bytes(b).len() <= s.len(),
        s.subrange(i, i + spec_enc_bytes(b).len() as int) == spec_enc_bytes(b),
    ensures
        spec_enc_bytes(b).len() == 8 + b.len(),
        spec_dec_bytes(s, i) == Option::Some((b, i + 8 + b.len())),
{
    lemma_auto_spec_u64_to_from_le_bytes();
    let n = b.len() as u64;
    lemma_split_subrange(s, i, spec_enc_u64(n), b);
    lemma_dec_u64_of_enc(s, i, n);
    assert(s.subrange(i + 8, i + 8 + n as int) == b);
}

pub proof fn lemma_dec_byte_lists_of_enc(s: Seq<u8>, i: int, l: Seq<Seq<u8>>)
    requires
        0 <= i,
        wf_byte_lists(l),
        i + spec_enc_byte_lists(l).len() <= s.len(),
        s.subrange(i, i + spec_enc_byte_lists(l).len() as int) == spec_enc_byte_lists(l),
    ensures
        spec_dec_byte_lists(s, i, l.len()) == Option::Some((
            l,
            i + spec_enc_byte_lists(l).len(),
        )),
    decreases l.len(),
{
    if l.len() == 0 {
        assert(l =~= Seq::<Seq<u8>>::empty());
    } else {
        let hd = l.first();
        let tl = l.drop_first();
        let e0 = spec_enc_bytes(hd);
        let e1 = spec_enc_byte_lists(tl);
        lemma_split_subrange(s, i, e0, e1);
        lemma_dec_bytes_of_enc(s, i, hd);
        let j = i + e0.len() as int;
        lemma_dec_byte_lists_of_enc(s, j, tl);
        assert(l =~= seq![hd] + tl);
    }
}

pub proof fn lemma_dec_pair_of_enc(s: Seq<u8>, i: int, p: (Seq<u8>, Seq<u8>))
    requires
        0 <= i,
        wf_bytes(p.0),
        wf_bytes(p.1),
        i + spec_enc_pair(p).len() <= s.len(),
        s.subrange(i, i + spec_enc_pair(p).len() as int) == spec_enc_pair(p),
    ensures
        spec_dec_pair(s, i) == Option::Some((p, i + spec_enc_pair(p).len())),
{
    let e0 = spec_enc_bytes(p.0);
    let e1 = spec_enc_bytes(p.1);
    lemma_split_subrange(s, i, e0, e1);
    lemma_dec_bytes_of_enc(s, i, p.0);
    lemma_dec_bytes_of_enc(s, i + e0.len() as int, p.1);
}

pub proof fn lemma_dec_pairs_of_enc(s: Seq<u8>, i: int, l: Seq<(Seq<u8>, Seq<u8>)>)
    requires
        0 <= i,
        wf_pairs(l),
        i + spec_enc_pairs(l).len() <= s.len(),
        s.subrange(i, i + spec_enc_pairs(l).len() as int) == spec_enc_pairs(l),
    ensures
        spec_dec_pairs(s, i, l.len()) == Option::Some((l, i + spec_enc_pairs(l).len())),
    decreases l.len(),
{
    if l.len() == 0 {
        assert(l =~= Seq::<(Seq<u8>, Seq<u8>)>::empty());
    } else {
        let hd = l.first();
        let tl = l.drop_first();
        let e0 = spec_enc_pair(hd);
        let e1 = spec_enc_pairs(tl);
        lemma_split_subrange(s, i, e0, e1);
        lemma_dec_pair_of_enc(s, i, hd);
        let j = i + e0.len() as int;
        lemma_dec_pairs_of_enc(s, j, tl);
        assert(l =~= seq![hd] + tl);
    }
}

pub proof fn lemma_dec_opt_u64_of_enc(s: Seq<u8>, i: int, o: Option<u64>)
    requires
        0 <= i,
        i + spec_enc_opt_u64(o).len() <= s.len(),
        s.subrange(i, i + spec_enc_opt_u64(o).len() as int) == spec_enc_opt_u64(o),
    ensures
        spec_dec_opt_u64(s, i) == Option::Some((o, i + spec_enc_opt_u64(o).len())),
{
    match o {
        Option::None => {
            lemma_dec_byte_of_enc(s, i, 0u8);
        },
        Option::Some(x) => {
            lemma_split_subrange(s, i, seq![1u8], spec_enc_u64(x));
            lemma_dec_byte_of_enc(s, i, 1u8);
            lemma_dec_u64_of_enc(s, i + 1, x);
        },
    }
}

pub proof fn lemma_dec_opt_bytes_of_enc(s: Seq<u8>, i: int, o: Option<Seq<u8>>)
    requires
        0 <= i,
        o matches Option::Some(b) ==> wf_bytes(b),
        i + spec_enc_opt_bytes(o).len() <= s.len(),
        s.subrange(i, i + spec_enc_opt_bytes(o).len() as int) == spec_enc_opt_bytes(o),
    ensures
        spec_dec_opt_bytes(s, i) == Option::Some((o, i + spec_enc_opt_bytes(o).len())),
{
    match o {
        Option::None => {
            lemma_dec_byte_of_enc(s, i, 0u8);
        },
        Option::Some(b) => {
            lemma_split_subrange(s, i, seq![1u8], spec_enc_bytes(b));
            lemma_dec_byte_of_enc(s, i, 1u8);
            lemma_dec_bytes_of_enc(s, i + 1, b);
        },
    }
}

// ---------------------------------------------------------------------------
// Exec encoders
// ---------------------------------------------------------------------------

pub fn enc_u64(out: &mut Vec<u8>, x: u64)
    ensures
        final(out)@ == old(out)@ + spec_enc_u64(x),
{
    let mut b = u64_to_le_bytes(x);
    out.append(&mut b);
}

pub fn enc_u16(out: &mut Vec<u8>, x: u16)
    ensures
        final(out)@ == old(out)@ + spec_enc_u16(x),
{
    let mut b = u16_to_le_bytes(x);
    out.append(&mut b);
}

pub fn enc_byte(out: &mut Vec<u8>, x: u8)
    ensures
        final(out)@ == old(out)@ + spec_enc_byte(x),
{
    out.push(x);
    assert(out@ =~= old(out)@ + spec_enc_byte(x));
}

pub fn enc_bool(out: &mut Vec<u8>, b: bool)
    ensures
        final(out)@ == old(out)@ + spec_enc_bool(b),
{
    if b {
        enc_byte(out, 1u8);
    } else {
        enc_byte(out, 0u8);
    }
}

pub fn enc_bytes(out: &mut Vec<u8>, b: &[u8])
    ensures
        final(out)@ == old(out)@ + spec_enc_bytes(b@),
{
    enc_u64(out, b.len() as u64);
    out.extend_from_slice(b);
    assert(out@ =~= old(out)@ + spec_enc_bytes(b@));
}

pub fn enc_byte_list(out: &mut Vec<u8>, l: &[Vec<u8>])
    ensures
        final(out)@ == old(out)@ + spec_enc_byte_lists(list_view(l@)),
    decreases l@.len(),
{
    if l.len() == 0 {
        assert(out@ =~= old(out)@ + spec_enc_byte_lists(list_view(l@)));
    } else {
        enc_bytes(out, l[0].as_slice());
        let rest = slice_subrange(l, 1, l.len());
        enc_byte_list(out, rest);
        proof {
            let lv = list_view(l@);
            assert(lv.first() == l@[0]@);
            assert(lv.drop_first() =~= list_view(rest@));
            assert(out@ =~= old(out)@ + spec_enc_byte_lists(lv));
        }
    }
}

pub fn enc_pairs(out: &mut Vec<u8>, l: &[(Vec<u8>, Vec<u8>)])
    ensures
        final(out)@ == old(out)@ + spec_enc_pairs(pairs_view(l@)),
    decreases l@.len(),
{
    if l.len() == 0 {
        assert(out@ =~= old(out)@ + spec_enc_pairs(pairs_view(l@)));
    } else {
        enc_bytes(out, l[0].0.as_slice());
        enc_bytes(out, l[0].1.as_slice());
        let rest = slice_subrange(l, 1, l.len());
        enc_pairs(out, rest);
        proof {
            let lv = pairs_view(l@);
            assert(lv.first() == (l@[0].0@, l@[0].1@));
            assert(lv.drop_first() =~= pairs_view(rest@));
            assert(spec_enc_pair(lv.first()) =~= spec_enc_bytes(l@[0].0@) + spec_enc_bytes(
                l@[0].1@,
            ));
            assert(out@ =~= old(out)@ + spec_enc_pairs(lv));
        }
    }
}

pub fn enc_opt_u64(out: &mut Vec<u8>, o: &Option<u64>)
    ensures
        final(out)@ == old(out)@ + spec_enc_opt_u64(*o),
{
    match o {
        Option::None => {
            enc_byte(out, 0u8);
        },
        Option::Some(x) => {
            enc_byte(out, 1u8);
            enc_u64(out, *x);
            assert(out@ =~= old(out)@ + spec_enc_opt_u64(*o));
        },
    }
}

pub fn enc_opt_bytes(out: &mut Vec<u8>, o: &Option<Vec<u8>>)
    ensures
        final(out)@ == old(out)@ + spec_enc_opt_bytes(match *o {
            Option::Some(b) => Option::Some(b@),
            Option::None => Option::None,
        }),
{
    match o {
        Option::None => {
            enc_byte(out, 0u8);
        },
        Option::Some(b) => {
            enc_byte(out, 1u8);
            enc_bytes(out, b.as_slice());
            assert(out@ =~= old(out)@ + spec_enc_opt_bytes(Option::Some(b@)));
        },
    }
}

// ---------------------------------------------------------------------------
// Exec decoders
// ---------------------------------------------------------------------------

pub fn dec_u64(buf: &[u8], i: usize) -> (r: Option<(u64, usize)>)
    ensures
        r is Some <==> spec_dec_u64(buf@, i as int) is Some,
        r matches Some((x, j)) ==> spec_dec_u64(buf@, i as int) == Option::Some((x, j as int))
            && j <= buf@.len(),
{
    if buf.len() >= 8 && i <= buf.len() - 8 {
        let s = slice_subrange(buf, i, i + 8);
        Some((u64_from_le_bytes(s), i + 8))
    } else {
        None
    }
}

pub fn dec_u16(buf: &[u8], i: usize) -> (r: Option<(u16, usize)>)
    ensures
        r is Some <==> spec_dec_u16(buf@, i as int) is Some,
        r matches Some((x, j)) ==> spec_dec_u16(buf@, i as int) == Option::Some((x, j as int))
            && j <= buf@.len(),
{
    if buf.len() >= 2 && i <= buf.len() - 2 {
        let s = slice_subrange(buf, i, i + 2);
        Some((u16_from_le_bytes(s), i + 2))
    } else {
        None
    }
}

pub fn dec_byte(buf: &[u8], i: usize) -> (r: Option<(u8, usize)>)
    ensures
        r is Some <==> spec_dec_byte(buf@, i as int) is Some,
        r matches Some((x, j)) ==> spec_dec_byte(buf@, i as int) == Option::Some((x, j as int))
            && j <= buf@.len(),
{
    if i < buf.len() {
        Some((buf[i], i + 1))
    } else {
        None
    }
}

pub fn dec_bool(buf: &[u8], i: usize) -> (r: Option<(bool, usize)>)
    ensures
        r is Some <==> spec_dec_bool(buf@, i as int) is Some,
        r matches Some((b, j)) ==> spec_dec_bool(buf@, i as int) == Option::Some((b, j as int))
            && j <= buf@.len(),
{
    match dec_byte(buf, i) {
        None => None,
        Some((b, j)) => {
            if b == 0u8 {
                Some((false, j))
            } else if b == 1u8 {
                Some((true, j))
            } else {
                None
            }
        },
    }
}

pub fn dec_bytes(buf: &[u8], i: usize) -> (r: Option<(Vec<u8>, usize)>)
    ensures
        r is Some <==> spec_dec_bytes(buf@, i as int) is Some,
        r matches Some((b, j)) ==> spec_dec_bytes(buf@, i as int) == Option::Some((
            b@,
            j as int,
        )) && j <= buf@.len(),
{
    match dec_u64(buf, i) {
        None => None,
        Some((n, j)) => {
            let rem = buf.len() - j;
            if n <= rem as u64 {
                let m = n as usize;
                let s = slice_subrange(buf, j, j + m);
                Some((slice_to_vec(s), j + m))
            } else {
                None
            }
        },
    }
}

pub fn dec_byte_list(buf: &[u8], i: usize, n: u64) -> (r: Option<(Vec<Vec<u8>>, usize)>)
    requires
        i <= buf@.len(),
    ensures
        r is Some <==> spec_dec_byte_lists(buf@, i as int, n as nat) is Some,
        r matches Some((l, j)) ==> spec_dec_byte_lists(buf@, i as int, n as nat) == Option::Some((
            list_view(l@),
            j as int,
        )) && j <= buf@.len(),
    decreases n,
{
    if n == 0 {
        let l: Vec<Vec<u8>> = Vec::new();
        assert(list_view(l@) =~= Seq::<Seq<u8>>::empty());
        Some((l, i))
    } else {
        match dec_bytes(buf, i) {
            None => None,
            Some((b, j)) => {
                match dec_byte_list(buf, j, n - 1) {
                    None => None,
                    Some((mut l, k)) => {
                        let ghost old_l = l@;
                        l.insert(0, b);
                        proof {
                            assert(l@ =~= seq![b] + old_l);
                            assert(list_view(l@) =~= seq![b@] + list_view(old_l));
                            assert(spec_dec_byte_lists(buf@, i as int, n as nat)
                                == Option::Some((seq![b@] + list_view(old_l), k as int)));
                        }
                        Some((l, k))
                    },
                }
            },
        }
    }
}

pub fn dec_pair(buf: &[u8], i: usize) -> (r: Option<((Vec<u8>, Vec<u8>), usize)>)
    ensures
        r is Some <==> spec_dec_pair(buf@, i as int) is Some,
        r matches Some((p, j)) ==> spec_dec_pair(buf@, i as int) == Option::Some((
            (p.0@, p.1@),
            j as int,
        )) && j <= buf@.len(),
{
    match dec_bytes(buf, i) {
        None => None,
        Some((a, j)) => {
            match dec_bytes(buf, j) {
                None => None,
                Some((b, k)) => Some(((a, b), k)),
            }
        },
    }
}

pub fn dec_pairs(buf: &[u8], i: usize, n: u64) -> (r: Option<(Vec<(Vec<u8>, Vec<u8>)>, usize)>)
    requires
        i <= buf@.len(),
    ensures
        r is Some <==> spec_dec_pairs(buf@, i as int, n as nat) is Some,
        r matches Some((l, j)) ==> spec_dec_pairs(buf@, i as int, n as nat) == Option::Some((
            pairs_view(l@),
            j as int,
        )) && j <= buf@.len(),
    decreases n,
{
    if n == 0 {
        let l: Vec<(Vec<u8>, Vec<u8>)> = Vec::new();
        assert(pairs_view(l@) =~= Seq::<(Seq<u8>, Seq<u8>)>::empty());
        Some((l, i))
    } else {
        match dec_pair(buf, i) {
            None => None,
            Some((p, j)) => {
                match dec_pairs(buf, j, n - 1) {
                    None => None,
                    Some((mut l, k)) => {
                        let ghost old_l = l@;
                        let ghost pv = (p.0@, p.1@);
                        l.insert(0, p);
                        proof {
                            assert(l@ =~= seq![p] + old_l);
                            assert(pairs_view(l@) =~= seq![pv] + pairs_view(old_l));
                            assert(spec_dec_pairs(buf@, i as int, n as nat)
                                == Option::Some((seq![pv] + pairs_view(old_l), k as int)));
                        }
                        Some((l, k))
                    },
                }
            },
        }
    }
}

pub fn dec_opt_u64(buf: &[u8], i: usize) -> (r: Option<(Option<u64>, usize)>)
    ensures
        r is Some <==> spec_dec_opt_u64(buf@, i as int) is Some,
        r matches Some((o, j)) ==> spec_dec_opt_u64(buf@, i as int) == Option::Some((
            o,
            j as int,
        )) && j <= buf@.len(),
{
    match dec_byte(buf, i) {
        None => None,
        Some((t, j)) => {
            if t == 0u8 {
                Some((None, j))
            } else if t == 1u8 {
                match dec_u64(buf, j) {
                    None => None,
                    Some((x, k)) => Some((Some(x), k)),
                }
            } else {
                None
            }
        },
    }
}

pub fn dec_opt_bytes(buf: &[u8], i: usize) -> (r: Option<(Option<Vec<u8>>, usize)>)
    ensures
        r is Some <==> spec_dec_opt_bytes(buf@, i as int) is Some,
        r matches Some((o, j)) ==> spec_dec_opt_bytes(buf@, i as int) == Option::Some((
            match o {
                Option::Some(b) => Option::Some(b@),
                Option::None => Option::None,
            },
            j as int,
        )) && j <= buf@.len(),
{
    match dec_byte(buf, i) {
        None => None,
        Some((t, j)) => {
            if t == 0u8 {
                Some((None, j))
            } else if t == 1u8 {
                match dec_bytes(buf, j) {
                    None => None,
                    Some((b, k)) => Some((Some(b), k)),
                }
            } else {
                None
            }
        },
    }
}

} // verus!
