use host_metrics::history::{HistoryStore, Snapshot};
use host_metrics::metrics::{cpu_counters_from_stat, cpu_usage_of, mem_info_from_meminfo};
use host_metrics::timestamp::{civil_of_epoch, format_timestamp, parse_timestamp};
use host_metrics::MetricError;

#[test]
fn parses_the_epoch() {
    assert_eq!(parse_timestamp(b"1970-01-01T00:00:00Z"), Ok(0));
    assert_eq!(parse_timestamp(b"1970-01-01T00:00:01Z"), Ok(1));
    assert_eq!(parse_timestamp(b"1970-01-02T00:00:00Z"), Ok(86400));
}

#[test]
fn parses_recent_instants() {
    assert_eq!(parse_timestamp(b"2024-03-01T00:00:00Z"), Ok(1_709_251_200));
    assert_eq!(parse_timestamp(b"2000-02-29T12:30:45Z"), Ok(951_827_445));
    assert_eq!(parse_timestamp(b"2038-01-19T03:14:08Z"), Ok(2_147_483_648));
}

#[test]
fn rejects_malformed_instants() {
    for bad in [
        &b"now"[..],
        b"",
        b"2024-03-01",
        b"2024-03-01 00:00:00Z",
        b"2024-03-01T00:00:00",
        b"2024-03-01t00:00:00Z",
        b"20x4-03-01T00:00:00Z",
        b"2024-03-01T00:00:00Z extra",
    ] {
        assert_eq!(parse_timestamp(bad), Err(MetricError::InvalidRequest));
    }
}

#[test]
fn rejects_impossible_calendar_fields() {
    for bad in [
        &b"2023-02-29T00:00:00Z"[..], // not a leap year
        b"2024-02-30T00:00:00Z",
        b"2024-13-01T00:00:00Z",
        b"2024-00-01T00:00:00Z",
        b"2024-01-00T00:00:00Z",
        b"2024-04-31T00:00:00Z",
        b"2024-01-01T24:00:00Z",
        b"2024-01-01T00:60:00Z",
        b"2024-01-01T00:00:60Z",
        b"1969-12-31T23:59:59Z", // before the epoch
    ] {
        assert_eq!(parse_timestamp(bad), Err(MetricError::InvalidRequest));
    }
}

#[test]
fn civil_fields_invert_parsing() {
    assert_eq!(civil_of_epoch(0), Some((1970, 1, 1, 0, 0, 0)));
    assert_eq!(civil_of_epoch(1_709_251_200), Some((2024, 3, 1, 0, 0, 0)));
    assert_eq!(civil_of_epoch(951_827_445), Some((2000, 2, 29, 12, 30, 45)));
    assert_eq!(civil_of_epoch(u64::MAX), None);
}

#[test]
fn rendering_round_trips_through_parsing() {
    for t in [0u64, 1, 86399, 86400, 951_827_445, 1_709_251_200, 2_147_483_648] {
        let rendered = format_timestamp(t).unwrap();
        assert_eq!(parse_timestamp(&rendered), Ok(t));
    }
    assert_eq!(format_timestamp(0).unwrap(), b"1970-01-01T00:00:00Z".to_vec());
    assert_eq!(
        format_timestamp(1_709_251_200).unwrap(),
        b"2024-03-01T00:00:00Z".to_vec()
    );
    assert!(format_timestamp(u64::MAX).is_none());
}

#[test]
fn history_query_with_parsed_bounds() {
    let mut store = HistoryStore::new();
    let snap = Snapshot {
        cpu_usage_milli: 20454,
        mem_total: 1000,
        mem_used: 600,
        disk_total: 100,
        disk_used: 33,
        disk_free: 67,
    };
    let noon = parse_timestamp(b"2024-03-01T12:00:00Z").unwrap();
    let evening = parse_timestamp(b"2024-03-01T18:00:00Z").unwrap();
    store.append(snap, noon).unwrap();
    store.append(snap, evening).unwrap();
    let from = parse_timestamp(b"2024-03-01T00:00:00Z").unwrap();
    let to = parse_timestamp(b"2024-03-01T12:00:00Z").unwrap();
    let rows = store.query(from, to, 100);
    assert_eq!(rows.len(), 1);
    assert_eq!(rows[0].timestamp, noon);
}

#[test]
fn live_errors_are_reported_not_panics() {
    // every live reader surfaces malformed counter text as a typed error
    assert!(cpu_counters_from_stat(b"").is_err());
    assert!(mem_info_from_meminfo(b"garbage").is_err());
    let c = cpu_counters_from_stat(b"cpu 0 0 0 0 0 0 0").unwrap();
    assert!(cpu_usage_of(&c).is_err());
}
