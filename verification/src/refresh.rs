//! The cache-refresh scan: a periodic pass over the cache keys that flags, in
//! a bounded prefix of the scan, the entries whose remaining time to live has
//! fallen under a configurable fraction of the nominal hour.  Detection only:
//! the cache does not retain the originating request, so nothing is
//! re-fetched here.

use vstd::prelude::*;
use vstd::slice::slice_to_vec;
use crate::codec::list_view;

verus! {

broadcast use vstd::std_specs::vec::axiom_spec_len;

/// Settings of the background refresh scan.  The threshold is a percentage
/// of the nominal 3600-second time to live.
#[derive(Debug)]
pub struct CacheRefreshConfig {
    pub refresh_interval_seconds: u64,
    pub refresh_threshold_percent: u64,
    pub max_refresh_per_scan: usize,
}

impl Default for CacheRefreshConfig {
    /// A scan every minute, flagging entries under 80% of the nominal hour,
    /// at most ten per scan.
    fn default() -> (r: CacheRefreshConfig)
        ensures
            r.refresh_interval_seconds == 60,
            r.refresh_threshold_percent == 80,
            r.max_refresh_per_scan == 10,
    {
        CacheRefreshConfig {
            refresh_interval_seconds: 60,
            refresh_threshold_percent: 80,
            max_refresh_per_scan: 10,
        }
    }
}

/// A live entry whose remaining time to live is under the threshold:
/// `0 < ttl < 3600 * percent / 100`, and `3600 / 100 = 36` exactly.
pub open spec fn spec_is_refresh_candidate(ttl: i64, percent: u64) -> bool {
    0 < ttl && (ttl as int) < 36 * (percent as int)
}

pub open spec fn entries_view(l: Seq<(Vec<u8>, i64)>) -> Seq<(Seq<u8>, i64)> {
    l.map_values(|e: (Vec<u8>, i64)| (e.0@, e.1))
}

/// The keys flagged by one scan: among the first `max` entries, those whose
/// remaining time to live makes them candidates, in scan order.
pub open spec fn spec_refresh_candidates(
    entries: Seq<(Seq<u8>, i64)>,
    percent: u64,
    max: usize,
) -> Seq<Seq<u8>> {
    let bound: int = if max <= entries.len() {
        max as int
    } else {
        entries.len() as int
    };
    entries.take(bound).filter(
        |e: (Seq<u8>, i64)| spec_is_refresh_candidate(e.1, percent),
    ).map_values(|e: (Seq<u8>, i64)| e.0)
}

/// Scans the (key, remaining-ttl) listing and returns the flagged keys.
pub fn refresh_candidates(entries: &Vec<(Vec<u8>, i64)>, config: &CacheRefreshConfig) -> (r: Vec<
    Vec<u8>,
>)
    ensures
        list_view(r@) == spec_refresh_candidates(
            entries_view(entries@),
            config.refresh_threshold_percent,
            config.max_refresh_per_scan,
        ),
{
    let ghost ev = entries_view(entries@);
    let ghost pred = |e: (Seq<u8>, i64)| spec_is_refresh_candidate(e.1, config.refresh_threshold_percent);
    let bound: usize = if config.max_refresh_per_scan <= entries.len() {
        config.max_refresh_per_scan
    } else {
        entries.len()
    };
    let mut out: Vec<Vec<u8>> = Vec::new();
    let mut i: usize = 0;
    proof {
        reveal(Seq::filter);
        assert(list_view(out@) =~= ev.take(0).filter(pred).map_values(
            |e: (Seq<u8>, i64)| e.0,
        ));
    }
    while i < bound
        invariant
            i <= bound,
            bound <= entries@.len(),
            ev == entries_view(entries@),
            ev.len() == entries@.len(),
            pred == (|e: (Seq<u8>, i64)| spec_is_refresh_candidate(
                e.1,
                config.refresh_threshold_percent,
            )),
            list_view(out@) == ev.take(i as int).filter(pred).map_values(
                |e: (Seq<u8>, i64)| e.0,
            ),
        decreases bound - i,
    {
        let ttl = entries[i].1;
        let ghost hv = ev[i as int];
        let ghost out0 = list_view(out@);
        let is_candidate = 0 < ttl && {
            let t128 = ttl as u128;
            let threshold: u128 = 36u128 * (config.refresh_threshold_percent as u128);
            t128 < threshold
        };
        proof {
            assert(hv == (entries@[i as int].0@, entries@[i as int].1));
            assert(is_candidate == pred(hv));
        }
        if is_candidate {
            out.push(slice_to_vec(entries[i].0.as_slice()));
            proof {
                assert(list_view(out@) =~= out0.push(hv.0));
            }
        }
        proof {
            reveal(Seq::filter);
            let t = ev.take(i as int + 1);
            assert(t.drop_last() =~= ev.take(i as int));
            assert(t.last() == hv);
            if pred(hv) {
                assert(t.filter(pred) =~= ev.take(i as int).filter(pred).push(hv));
                assert(t.filter(pred).map_values(|e: (Seq<u8>, i64)| e.0) =~= ev.take(
                    i as int,
                ).filter(pred).map_values(|e: (Seq<u8>, i64)| e.0).push(hv.0));
            } else {
                assert(t.filter(pred) =~= ev.take(i as int).filter(pred));
            }
            assert(list_view(out@) =~= t.filter(pred).map_values(|e: (Seq<u8>, i64)| e.0));
        }
        i = i + 1;
    }
    proof {
        assert(ev.take(bound as int) =~= ev.take(i as int));
    }
    out
}

} // verus!
