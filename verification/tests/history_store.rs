use host_metrics::history::{resolve_request, HistoryStore, Snapshot, DEFAULT_LIMIT};

fn sample(n: u64) -> Snapshot {
    Snapshot {
        cpu_usage_milli: n * 100,
        mem_total: 1000,
        mem_used: 600 + n,
        disk_total: 100,
        disk_used: 33,
        disk_free: 67,
    }
}

#[test]
fn round_trip_returns_all_rows_newest_first() {
    let mut store = HistoryStore::new();
    let n: u64 = 5;
    for ts in 1..=n {
        store.append(sample(ts), ts).unwrap();
    }
    let rows = store.query(0, 100, n as usize);
    assert_eq!(rows.len(), n as usize);
    for (k, row) in rows.iter().enumerate() {
        let ts = n - k as u64;
        assert_eq!(row.timestamp, ts);
        assert_eq!(row.id, ts);
        assert_eq!(row.snapshot, sample(ts));
    }
}

#[test]
fn default_limit_truncates_to_one_hundred() {
    let mut store = HistoryStore::new();
    for ts in 1..=150u64 {
        store.append(sample(ts), ts).unwrap();
    }
    let (from, to, limit) = resolve_request(None, None, None, 1_000_000);
    assert_eq!((from, to, limit), (0, 1_000_000, DEFAULT_LIMIT));
    let rows = store.query(from, to, limit);
    assert_eq!(rows.len(), 100);
    // the newest hundred, most recent first
    assert_eq!(rows[0].timestamp, 150);
    assert_eq!(rows[99].timestamp, 51);
}

#[test]
fn range_includes_boundaries_and_excludes_outside() {
    let mut store = HistoryStore::new();
    for ts in [10u64, 20, 30] {
        store.append(sample(ts), ts).unwrap();
    }
    let exact = store.query(20, 20, 10);
    assert_eq!(exact.len(), 1);
    assert_eq!(exact[0].timestamp, 20);

    let all = store.query(10, 30, 10);
    assert_eq!(all.len(), 3);
    assert_eq!(
        all.iter().map(|r| r.timestamp).collect::<Vec<_>>(),
        vec![30, 20, 10]
    );

    let inner = store.query(11, 29, 10);
    assert_eq!(inner.len(), 1);
    assert_eq!(inner[0].timestamp, 20);
}

#[test]
fn empty_and_inverted_ranges_return_nothing() {
    let mut store = HistoryStore::new();
    assert_eq!(store.query(0, u64::MAX, 10).len(), 0);
    store.append(sample(1), 5).unwrap();
    assert_eq!(store.query(6, 4, 10).len(), 0);
    assert_eq!(store.query(0, 4, 10).len(), 0);
    assert_eq!(store.query(6, u64::MAX, 10).len(), 0);
}

#[test]
fn zero_limit_returns_nothing() {
    let mut store = HistoryStore::new();
    store.append(sample(1), 1).unwrap();
    assert_eq!(store.query(0, 10, 0).len(), 0);
}

#[test]
fn identities_increase_and_rows_are_never_altered() {
    let mut store = HistoryStore::new();
    let a = store.append(sample(7), 100).unwrap();
    let b = store.append(sample(8), 100).unwrap();
    assert!(a < b);
    assert_eq!(store.len(), 2);
    // equal timestamps: both rows come back, each exactly as appended
    let rows = store.query(100, 100, 10);
    assert_eq!(rows.len(), 2);
    assert!(rows.iter().any(|r| r.id == a && r.snapshot == sample(7)));
    assert!(rows.iter().any(|r| r.id == b && r.snapshot == sample(8)));
}

#[test]
fn resolve_request_keeps_given_values() {
    let (from, to, limit) = resolve_request(Some(5), Some(9), Some(3), 77);
    assert_eq!((from, to, limit), (5, 9, 3));
    let (from, to, limit) = resolve_request(None, Some(9), None, 77);
    assert_eq!((from, to, limit), (0, 9, DEFAULT_LIMIT));
    let (from, to, limit) = resolve_request(Some(5), None, Some(1), 77);
    assert_eq!((from, to, limit), (5, 77, 1));
}
