//! The response cache: a key-value store with per-entry expiry, holding an
//! encoded (status, headers, body) triple per key.  A value that fails to
//! decode is a miss, never an error.
//!
//! This module is the store's model; the process edges may keep the same
//! contract against an external store, handing bytes in and out.

use vstd::prelude::*;
use crate::messages::{
    spec_dec_response, spec_enc_response, ProxyResponseData, ResponseView,
    lemma_dec_response_of_enc, wf_response,
};
use crate::registry::bytes_eq;
use vstd::slice::slice_to_vec;

verus! {

broadcast use vstd::std_specs::vec::axiom_spec_len;

/// One stored entry: key, value bytes, absolute expiry instant (seconds).
pub type EntryView = (Seq<u8>, Seq<u8>, u64);

/// Index of the entry stored under `key`, or -1.
pub open spec fn spec_store_index_of(s: Seq<EntryView>, key: Seq<u8>) -> int
    decreases s.len(),
{
    if s.len() == 0 {
        -1
    } else if s.first().0 == key {
        0
    } else {
        let r = spec_store_index_of(s.drop_first(), key);
        if r == -1 {
            -1
        } else {
            r + 1
        }
    }
}

/// The value and expiry stored under `key`, if any.
pub open spec fn spec_store_lookup(s: Seq<EntryView>, key: Seq<u8>) -> Option<(Seq<u8>, u64)> {
    let i = spec_store_index_of(s, key);
    if i == -1 {
        Option::None
    } else {
        Option::Some((s[i].1, s[i].2))
    }
}

/// What a write does: replace the entry under the same key, or append.
pub open spec fn spec_store_set(
    s: Seq<EntryView>,
    key: Seq<u8>,
    value: Seq<u8>,
    expiry: u64,
) -> Seq<EntryView> {
    let i = spec_store_index_of(s, key);
    if i == -1 {
        s.push((key, value, expiry))
    } else {
        s.update(i, (key, value, expiry))
    }
}

/// The absolute expiry of a value written at `now` with `ttl_secs` to live.
pub open spec fn spec_expiry(now: u64, ttl_secs: u64) -> u64 {
    if now + ttl_secs > u64::MAX {
        u64::MAX
    } else {
        (now + ttl_secs) as u64
    }
}

pub open spec fn spec_store_unique_keys(s: Seq<EntryView>) -> bool {
    forall|i: int, j: int| 0 <= i < j < s.len() ==> (#[trigger] s[i]).0 != (#[trigger] s[j]).0
}

/// `spec_store_index_of` finds exactly the first index carrying `key`.
pub proof fn lemma_store_index_props(s: Seq<EntryView>, key: Seq<u8>)
    ensures
        ({
            let r = spec_store_index_of(s, key);
            &&& r == -1 ==> forall|j: int| 0 <= j < s.len() ==> (#[trigger] s[j]).0 != key
            &&& r != -1 ==> {
                &&& 0 <= r < s.len()
                &&& s[r].0 == key
                &&& forall|j: int| 0 <= j < r ==> (#[trigger] s[j]).0 != key
            }
        }),
    decreases s.len(),
{
    if s.len() == 0 {
    } else if s.first().0 == key {
    } else {
        lemma_store_index_props(s.drop_first(), key);
        let r = spec_store_index_of(s, key);
        let rt = spec_store_index_of(s.drop_first(), key);
        if rt == -1 {
            assert forall|j: int| 0 <= j < s.len() implies (#[trigger] s[j]).0 != key by {
                if j > 0 {
                    assert(s.drop_first()[j - 1] == s[j]);
                }
            }
        } else {
            assert(s[r] == s.drop_first()[rt]);
            assert forall|j: int| 0 <= j < r implies (#[trigger] s[j]).0 != key by {
                if j > 0 {
                    assert(s.drop_first()[j - 1] == s[j]);
                }
            }
        }
    }
}

/// A write preserves key uniqueness, binds its own key to the new value and
/// expiry, and leaves every other key's binding untouched.
pub proof fn lemma_store_set_effect(s: Seq<EntryView>, key: Seq<u8>, value: Seq<u8>, expiry: u64)
    requires
        spec_store_unique_keys(s),
    ensures
        spec_store_unique_keys(spec_store_set(s, key, value, expiry)),
        spec_store_lookup(spec_store_set(s, key, value, expiry), key) == Option::Some(
            (value, expiry),
        ),
        forall|k: Seq<u8>|
            k != key ==> #[trigger] spec_store_lookup(spec_store_set(s, key, value, expiry), k)
                == spec_store_lookup(s, k),
{
    let i0 = spec_store_index_of(s, key);
    let s2 = spec_store_set(s, key, value, expiry);
    lemma_store_index_props(s, key);
    assert forall|k: Seq<u8>| true implies #[trigger] spec_store_index_of(s2, k) == (if k == key {
        if i0 == -1 {
            s.len() as int
        } else {
            i0
        }
    } else {
        spec_store_index_of(s, k)
    }) by {
        lemma_store_index_props(s, k);
        lemma_store_index_props(s2, k);
        let r = spec_store_index_of(s, k);
        let r2 = spec_store_index_of(s2, k);
        if k == key {
            let want: int = if i0 == -1 {
                s.len() as int
            } else {
                i0
            };
            assert(s2[want].0 == k);
            assert(r2 != -1);
            if r2 < want {
                assert(s2[r2].0 != k);
            }
            if r2 > want {
                assert(s2[want].0 != k);
            }
        } else {
            if r == -1 {
                assert forall|j: int| 0 <= j < s2.len() implies (#[trigger] s2[j]).0 != k by {
                    if j < s.len() && (i0 == -1 || j != i0) {
                        assert(s2[j] == s[j]);
                    }
                }
                assert(r2 == -1);
            } else {
                assert(s2[r] == s[r]);
                assert(r2 != -1);
                assert forall|j: int| 0 <= j < r implies (#[trigger] s2[j]).0 != k by {
                    if j < s.len() && (i0 == -1 || j != i0) {
                        assert(s2[j] == s[j]);
                    }
                }
                if r2 < r {
                    assert(s2[r2].0 == k);
                    assert(s2[r2].0 != k);
                }
                if r2 > r {
                    assert(s2[r].0 != k);
                }
            }
        }
    }
    assert forall|k: Seq<u8>| k != key implies #[trigger] spec_store_lookup(s2, k)
        == spec_store_lookup(s, k) by {
        lemma_store_index_props(s, k);
        let r = spec_store_index_of(s, k);
        assert(spec_store_index_of(s2, k) == r);
        if r != -1 {
            if i0 != -1 {
                assert(s[i0].0 == key);
                assert(r != i0);
            }
            assert(s2[r] == s[r]);
        }
    }
    assert forall|i: int, j: int| 0 <= i < j < s2.len() implies (#[trigger] s2[i]).0 != (
    #[trigger] s2[j]).0 by {
        if i0 == -1 {
            if j >= s.len() {
                assert(s2[j] == (key, value, expiry));
                assert(s2[i] == s[i]);
                assert(s[i].0 != key);
            }
        } else {
            if i == i0 {
                assert(s2[j] == s[j]);
                if s[j].0 == key {
                    assert(s[i0].0 == key);
                }
            } else if j == i0 {
                assert(s2[i] == s[i]);
                if s[i].0 == key {
                    assert(s[i0].0 == key);
                }
            }
        }
    }
}

/// The store, with an injectable clock: every operation takes `now`.
#[derive(Debug)]
pub struct ResponseCache {
    entries: Vec<(Vec<u8>, Vec<u8>, u64)>,
}

impl View for ResponseCache {
    type V = Seq<EntryView>;

    closed spec fn view(&self) -> Seq<EntryView> {
        self.entries@.map_values(|e: (Vec<u8>, Vec<u8>, u64)| (e.0@, e.1@, e.2))
    }
}

impl ResponseCache {
    pub open spec fn inv(&self) -> bool {
        spec_store_unique_keys(self@)
    }

    /// An empty cache.
    pub fn new() -> (r: ResponseCache)
        ensures
            r@ == Seq::<EntryView>::empty(),
            r.inv(),
    {
        let r = ResponseCache { entries: Vec::new() };
        proof {
            assert(r@ =~= Seq::<EntryView>::empty());
        }
        r
    }

    /// Writes `value` under `key`, expiring `ttl_secs` after `now`.
    pub fn set(&mut self, key: &[u8], value: &[u8], ttl_secs: u64, now: u64)
        requires
            old(self).inv(),
        ensures
            final(self).inv(),
            final(self)@ == spec_store_set(old(self)@, key@, value@, spec_expiry(now, ttl_secs)),
    {
        let expiry: u64 = if ttl_secs > u64::MAX - now {
            u64::MAX
        } else {
            now + ttl_secs
        };
        let ghost s0 = self@;
        let entry = (slice_to_vec(key), slice_to_vec(value), expiry);
        let ghost ev = (key@, value@, expiry);
        let mut i: usize = 0;
        while i < self.entries.len()
            invariant
                self@ == s0,
                s0 == old(self)@,
                spec_store_unique_keys(s0),
                ev == (key@, value@, spec_expiry(now, ttl_secs)),
                entry.0@ == key@ && entry.1@ == value@ && entry.2 == spec_expiry(now, ttl_secs),
                i <= self.entries@.len(),
                s0.len() == self.entries@.len(),
                forall|j: int| 0 <= j < i ==> (#[trigger] s0[j]).0 != key@,
            decreases self.entries@.len() - i,
        {
            if bytes_eq(self.entries[i].0.as_slice(), key) {
                proof {
                    lemma_store_index_props(s0, key@);
                    assert(s0[i as int] == self.entries@[i as int]@);
                    let r = spec_store_index_of(s0, key@);
                    if r == -1 {
                        assert(s0[i as int].0 != key@);
                    } else if r < i as int {
                        assert(s0[r].0 != key@);
                    } else if r > i as int {
                        assert(s0[i as int].0 != key@);
                    }
                    assert(r == i as int);
                }
                self.entries[i] = entry;
                proof {
                    assert(self@ =~= s0.update(i as int, ev));
                }
                return ;
            }
            i = i + 1;
        }
        proof {
            lemma_store_index_props(s0, key@);
            let r = spec_store_index_of(s0, key@);
            if r != -1 {
                assert(s0[r].0 != key@);
            }
        }
        self.entries.push(entry);
        proof {
            assert(self@ =~= s0.push(ev));
        }
    }

    /// Reads the raw value under `key`: present and unexpired, or `None`.
    pub fn get(&self, key: &[u8], now: u64) -> (r: Option<Vec<u8>>)
        ensures
            match spec_store_lookup(self@, key@) {
                Option::Some((v, expiry)) => if now < expiry {
                    r matches Some(b) && b@ == v
                } else {
                    r is None
                },
                Option::None => r is None,
            },
    {
        let ghost s = self@;
        let mut i: usize = 0;
        while i < self.entries.len()
            invariant
                s == self@,
                i <= self.entries@.len(),
                s.len() == self.entries@.len(),
                forall|j: int| 0 <= j < i ==> (#[trigger] s[j]).0 != key@,
            decreases self.entries@.len() - i,
        {
            if bytes_eq(self.entries[i].0.as_slice(), key) {
                proof {
                    lemma_store_index_props(s, key@);
                    assert(s[i as int] == self.entries@[i as int]@);
                    let r = spec_store_index_of(s, key@);
                    if r == -1 {
                        assert(s[i as int].0 != key@);
                    } else if r < i as int {
                        assert(s[r].0 != key@);
                    } else if r > i as int {
                        assert(s[i as int].0 != key@);
                    }
                    assert(r == i as int);
                }
                if now < self.entries[i].2 {
                    return Some(slice_to_vec(self.entries[i].1.as_slice()));
                } else {
                    return None;
                }
            }
            i = i + 1;
        }
        proof {
            lemma_store_index_props(s, key@);
            let r = spec_store_index_of(s, key@);
            if r != -1 {
                assert(s[r].0 != key@);
            }
        }
        None
    }
}

// ---------------------------------------------------------------------------
// The (status, headers, body) triple stored under a key
// ---------------------------------------------------------------------------

/// What a triple-level read returns: the decoded triple while the entry is
/// unexpired; a miss when absent, expired, or undecodable.
pub open spec fn spec_cache_get_result(
    s: Seq<EntryView>,
    key: Seq<u8>,
    now: u64,
) -> Option<ResponseView> {
    match spec_store_lookup(s, key) {
        Option::Some((bytes, expiry)) => if now < expiry {
            match spec_dec_response(bytes, 0) {
                Option::Some((resp, n)) => if n == bytes.len() {
                    Option::Some(resp)
                } else {
                    Option::None
                },
                Option::None => Option::None,
            }
        } else {
            Option::None
        },
        Option::None => Option::None,
    }
}

impl ResponseCache {
    /// Writes a response triple under `key` with the given time to live.
    pub fn set_response(&mut self, key: &[u8], resp: &ProxyResponseData, ttl_secs: u64, now: u64)
        requires
            old(self).inv(),
        ensures
            final(self).inv(),
            final(self)@ == spec_store_set(
                old(self)@,
                key@,
                spec_enc_response(resp@),
                spec_expiry(now, ttl_secs),
            ),
    {
        let mut bytes: Vec<u8> = Vec::new();
        crate::messages::encode_response(&mut bytes, resp);
        self.set(key, bytes.as_slice(), ttl_secs, now);
    }

    /// Reads the response triple under `key`; any decode failure is a miss.
    pub fn get_response(&self, key: &[u8], now: u64) -> (r: Option<ProxyResponseData>)
        ensures
            r is Some <==> spec_cache_get_result(self@, key@, now) is Some,
            r matches Some(resp) ==> spec_cache_get_result(self@, key@, now) == Option::Some(
                resp@,
            ),
    {
        match self.get(key, now) {
            None => None,
            Some(bytes) => {
                match crate::messages::decode_response(bytes.as_slice(), 0) {
                    None => None,
                    Some((resp, n)) => {
                        if n == bytes.len() {
                            Some(resp)
                        } else {
                            None
                        }
                    },
                }
            },
        }
    }
}

/// Write-then-read coherence: immediately after a write, and for as long as
/// the entry is unexpired, a read returns the identical (status, headers,
/// body) triple; once the time to live has elapsed the same read is a miss.
pub proof fn lemma_cache_set_then_get(
    s: Seq<EntryView>,
    key: Seq<u8>,
    resp: ResponseView,
    ttl_secs: u64,
    now: u64,
    t: u64,
)
    requires
        spec_store_unique_keys(s),
        wf_response(resp),
    ensures
        ({
            let s2 = spec_store_set(s, key, spec_enc_response(resp), spec_expiry(now, ttl_secs));
            &&& t < spec_expiry(now, ttl_secs) ==> spec_cache_get_result(s2, key, t)
                == Option::Some(resp)
            &&& t >= spec_expiry(now, ttl_secs) ==> spec_cache_get_result(s2, key, t) is None
        }),
{
    let bytes = spec_enc_response(resp);
    let expiry = spec_expiry(now, ttl_secs);
    lemma_store_set_effect(s, key, bytes, expiry);
    let s2 = spec_store_set(s, key, bytes, expiry);
    assert(spec_store_lookup(s2, key) == Option::Some((bytes, expiry)));
    assert(bytes.subrange(0, bytes.len() as int) =~= bytes);
    lemma_dec_response_of_enc(bytes, 0, resp);
}

} // verus!
