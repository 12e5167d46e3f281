use host_metrics::metrics::{
    counter_i64_from_text, cpu_counters_from_stat, cpu_usage_of, disk_info_from_report,
    disk_percent, mem_info_from_meminfo, mem_percent, mem_used, milli_percent, rounded_percent,
    uptime_millis_from_text,
};
use host_metrics::text::{parse_i64, parse_u64, trim};
use host_metrics::MetricError;

#[test]
fn cpu_counters_parse_aggregate_line() {
    let text = b"cpu  100 0 50 700 20 5 5 0 0 0\ncpu0 50 0 25 350 10 2 2 0 0 0\n";
    let c = cpu_counters_from_stat(text).unwrap();
    assert_eq!(c.user, 100);
    assert_eq!(c.nice, 0);
    assert_eq!(c.system, 50);
    assert_eq!(c.idle, 700);
    assert_eq!(c.iowait, 20);
    assert_eq!(c.irq, 5);
    assert_eq!(c.softirq, 5);
}

#[test]
fn cpu_usage_non_delta_formula() {
    // total = 100+0+50+700+20+5+5 = 880, active = 880 - 700 = 180:
    // the point-in-time idle ratio, (total-idle)/total*100 = 20.4545...%
    let text = b"cpu  100 0 50 700 20 5 5\n";
    let c = cpu_counters_from_stat(text).unwrap();
    let u = cpu_usage_of(&c).unwrap();
    assert_eq!(u.total, 880);
    assert_eq!(u.active, 180);
    let milli = milli_percent(&u);
    assert_eq!(milli, 20454); // floor(180/880*100 * 1000)
    let exact = (880.0f64 - 700.0) / 880.0 * 100.0;
    assert!((milli as f64 / 1000.0 - exact).abs() < 0.001);
}

#[test]
fn cpu_usage_missing_line_is_error() {
    assert_eq!(
        cpu_counters_from_stat(b"intr 1 2 3\nctxt 99\n"),
        Err(MetricError::ParseError)
    );
    // per-core lines do not match the aggregate label
    assert_eq!(
        cpu_counters_from_stat(b"cpu0 1 2 3 4 5 6 7\n"),
        Err(MetricError::ParseError)
    );
}

#[test]
fn cpu_usage_needs_seven_fields() {
    assert_eq!(
        cpu_counters_from_stat(b"cpu  100 0 50 700 20 5\n"),
        Err(MetricError::ParseError)
    );
}

#[test]
fn cpu_usage_zero_total_is_error() {
    let c = cpu_counters_from_stat(b"cpu 0 0 0 0 0 0 0\n").unwrap();
    assert_eq!(cpu_usage_of(&c), Err(MetricError::ParseError));
}

#[test]
fn mem_usage_used_is_total_minus_available() {
    let text = b"MemTotal:       1000 kB\nMemFree:         200 kB\nMemAvailable:    400 kB\n";
    let m = mem_info_from_meminfo(text).unwrap();
    assert_eq!(m.total, 1000);
    assert_eq!(m.available, 400);
    assert_eq!(mem_used(&m), 600);
    assert_eq!(mem_percent(&m), 60);
}

#[test]
fn mem_usage_missing_label_is_error() {
    assert_eq!(
        mem_info_from_meminfo(b"MemTotal: 1000 kB\n"),
        Err(MetricError::ParseError)
    );
    assert_eq!(
        mem_info_from_meminfo(b"MemAvailable: 400 kB\n"),
        Err(MetricError::ParseError)
    );
    assert_eq!(mem_info_from_meminfo(b""), Err(MetricError::ParseError));
}

#[test]
fn mem_usage_inconsistent_counters_are_errors() {
    assert_eq!(
        mem_info_from_meminfo(b"MemTotal: 100 kB\nMemAvailable: 400 kB\n"),
        Err(MetricError::ParseError)
    );
    assert_eq!(
        mem_info_from_meminfo(b"MemTotal: 0 kB\nMemAvailable: 0 kB\n"),
        Err(MetricError::ParseError)
    );
}

#[test]
fn disk_usage_reads_fourth_line() {
    let text = b"Filesystem     1K-blocks    Used Available Use% Mounted on\n\
udev             1900000       0   1900000   0% /dev\n\
tmpfs             400000    1200    398800   1% /run\n\
/dev/mmcblk0p2 100 33 67 33% /\n";
    let d = disk_info_from_report(text).unwrap();
    assert_eq!(d.total, 100);
    assert_eq!(d.used, 33);
    assert_eq!(d.free, 67);
    assert_eq!(disk_percent(&d), 33);
}

#[test]
fn disk_percent_rounds_to_nearest() {
    let mk = |used: u64| {
        let text = format!(
            "h1 a b c\nh2 a b c\nh3 a b c\n/dev/root 100 {} 0 x% /\n",
            used
        );
        disk_info_from_report(text.as_bytes()).unwrap()
    };
    assert_eq!(disk_percent(&mk(33)), 33);
    assert_eq!(disk_percent(&mk(34)), 34);
}

#[test]
fn rounded_percent_half_goes_up() {
    // 33/200 = 16.5% and 1/8 = 12.5%: halves round up
    assert_eq!(rounded_percent(33, 200), 17);
    assert_eq!(rounded_percent(1, 8), 13);
    // just below and above the half
    assert_eq!(rounded_percent(329, 2000), 16); // 16.45%
    assert_eq!(rounded_percent(331, 2000), 17); // 16.55%
    assert_eq!(rounded_percent(0, 7), 0);
    assert_eq!(rounded_percent(7, 7), 100);
}

#[test]
fn disk_usage_too_few_lines_is_error() {
    assert_eq!(
        disk_info_from_report(b"h1\nh2\n/dev/root 100 33 67\n"),
        Err(MetricError::ParseError)
    );
    assert_eq!(disk_info_from_report(b""), Err(MetricError::ParseError));
}

#[test]
fn disk_usage_non_numeric_is_error() {
    assert_eq!(
        disk_info_from_report(b"h1\nh2\nh3\n/dev/root total used free\n"),
        Err(MetricError::ParseError)
    );
}

#[test]
fn counter_value_parses_trimmed_integer() {
    assert_eq!(counter_i64_from_text(b" 48705\n"), Ok(48705));
    assert_eq!(counter_i64_from_text(b"-5000\n"), Ok(-5000));
    assert_eq!(counter_i64_from_text(b"0"), Ok(0));
}

#[test]
fn counter_value_malformed_is_error() {
    assert_eq!(counter_i64_from_text(b"abc\n"), Err(MetricError::ParseError));
    assert_eq!(counter_i64_from_text(b""), Err(MetricError::ParseError));
    assert_eq!(counter_i64_from_text(b"12 34"), Err(MetricError::ParseError));
}

#[test]
fn parse_u64_rejects_overflow_and_junk() {
    assert_eq!(parse_u64(b"18446744073709551615"), Some(u64::MAX));
    assert_eq!(parse_u64(b"18446744073709551616"), None);
    assert_eq!(parse_u64(b""), None);
    assert_eq!(parse_u64(b"12a"), None);
    assert_eq!(parse_u64(b"007"), Some(7));
}

#[test]
fn parse_i64_covers_both_signs() {
    assert_eq!(parse_i64(b"9223372036854775807"), Some(i64::MAX));
    assert_eq!(parse_i64(b"-9223372036854775808"), Some(i64::MIN));
    assert_eq!(parse_i64(b"9223372036854775808"), None);
    assert_eq!(parse_i64(b"-"), None);
    assert_eq!(parse_i64(b"--1"), None);
}

#[test]
fn trim_strips_ascii_whitespace() {
    assert_eq!(trim(b"  42\r\n"), &b"42"[..]);
    assert_eq!(trim(b"\t\n "), &b""[..]);
    assert_eq!(trim(b"x"), &b"x"[..]);
}

#[test]
fn uptime_scales_seconds_to_millis() {
    assert_eq!(uptime_millis_from_text(b"12345.67 8910.11\n"), Ok(12345670));
    assert_eq!(uptime_millis_from_text(b"5 99"), Ok(5000));
    assert_eq!(uptime_millis_from_text(b"0.5"), Ok(500));
    assert_eq!(uptime_millis_from_text(b"12."), Ok(12000));
    // the scaled reading is floored: digits past milliseconds drop
    assert_eq!(uptime_millis_from_text(b"1.23456"), Ok(1234));
    assert_eq!(uptime_millis_from_text(b"0.000"), Ok(0));
}

#[test]
fn uptime_malformed_is_error() {
    assert_eq!(uptime_millis_from_text(b""), Err(MetricError::ParseError));
    assert_eq!(uptime_millis_from_text(b"   \n"), Err(MetricError::ParseError));
    assert_eq!(uptime_millis_from_text(b"abc 1"), Err(MetricError::ParseError));
    assert_eq!(uptime_millis_from_text(b".5"), Err(MetricError::ParseError));
    assert_eq!(uptime_millis_from_text(b"1.2.3"), Err(MetricError::ParseError));
}
