use prtl_proxy::filter::FieldFilter;
use prtl_proxy::refresh::{refresh_candidates, CacheRefreshConfig};

#[test]
fn default_refresh_config() {
    let cfg = CacheRefreshConfig::default();
    assert_eq!(cfg.refresh_interval_seconds, 60);
    assert_eq!(cfg.refresh_threshold_percent, 80);
    assert_eq!(cfg.max_refresh_per_scan, 10);
}

#[test]
fn flags_live_entries_under_the_threshold() {
    let cfg = CacheRefreshConfig::default();
    // Threshold at 80% of 3600 s is 2880 s.
    let entries = vec![
        (b"proxy:a:1".to_vec(), 2879i64),
        (b"proxy:a:2".to_vec(), 2880i64),
        (b"proxy:a:3".to_vec(), 0i64),
        (b"proxy:a:4".to_vec(), -1i64),
        (b"proxy:a:5".to_vec(), 1i64),
    ];
    let flagged = refresh_candidates(&entries, &cfg);
    assert_eq!(flagged, vec![b"proxy:a:1".to_vec(), b"proxy:a:5".to_vec()]);
}

#[test]
fn scan_is_bounded() {
    let cfg = CacheRefreshConfig {
        refresh_interval_seconds: 60,
        refresh_threshold_percent: 80,
        max_refresh_per_scan: 2,
    };
    let entries = vec![
        (b"k1".to_vec(), 10i64),
        (b"k2".to_vec(), 10i64),
        (b"k3".to_vec(), 10i64),
    ];
    let flagged = refresh_candidates(&entries, &cfg);
    assert_eq!(flagged, vec![b"k1".to_vec(), b"k2".to_vec()]);
}

#[test]
fn allow_filter_keeps_exactly_the_listed_fields() {
    let f = FieldFilter::Allow(vec![b"id".to_vec(), b"name".to_vec()]);
    assert!(f.allows(b"id"));
    assert!(f.allows(b"name"));
    assert!(!f.allows(b"meta"));
    assert!(!f.allows(b""));
}

#[test]
fn deny_filter_drops_exactly_the_listed_fields() {
    let f = FieldFilter::Deny(vec![b"meta".to_vec()]);
    assert!(!f.allows(b"meta"));
    assert!(f.allows(b"id"));
    assert!(f.allows(b""));
}
