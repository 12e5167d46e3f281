//! Metric derivers: turn raw counter text (thermal zone, fan tachometer,
//! uptime, aggregate CPU line, memory counters, disk-report output) into
//! typed values and derived percentages.

use vstd::prelude::*;
use vstd::slice::slice_subrange;
use crate::errors::MetricError;
use crate::text::{
    all_digits, digits_val, fields_spec, find_with_prefix, first_with_prefix,
    lemma_digits_val_up_to_3, lemma_run_len_from_scan, lines_spec, parse_i64, parse_i64_spec,
    parse_u64, parse_u64_spec, run_len, split_fields, split_lines, trim, trim_spec, DIGIT_0,
    DIGIT_9, DOT,
};

verus! {

/// Parse a counter file that holds one signed integer surrounded by
/// optional whitespace: the thermal (millidegrees Celsius) and fan
/// tachometer (RPM) sources. The value is returned in the unit the
/// firmware reports; no conversion is applied.
pub fn counter_i64_from_text(text: &[u8]) -> (r: Result<i64, MetricError>)
    ensures
        match r {
            Ok(v) => parse_i64_spec(trim_spec(text@)) == Some(v),
            Err(e) => parse_i64_spec(trim_spec(text@)) is None && e == MetricError::ParseError,
        },
{
    match parse_i64(trim(text)) {
        Some(v) => Ok(v),
        None => Err(MetricError::ParseError),
    }
}

/// Percentage of `used` against `total`, rounded to the nearest integer
/// with halves rounded up, computed exactly in integers.
pub open spec fn rounded_percent_of(used: int, total: int) -> int
    recommends
        total > 0,
{
    (200 * used + total) / (2 * total)
}

/// The rounded percentage is the integer nearest to the exact ratio
/// `100 * used / total`, with halves rounded up: the ratio lies within
/// half a unit of it, strictly on the high side.
pub proof fn lemma_rounded_percent_nearest(used: int, total: int)
    requires
        0 <= used,
        0 < total,
    ensures
        2 * total * rounded_percent_of(used, total) <= 200 * used + total,
        200 * used + total < 2 * total * (rounded_percent_of(used, total) + 1),
{
    let n = 200 * used + total;
    let d = 2 * total;
    vstd::arithmetic::div_mod::lemma_fundamental_div_mod(n, d);
    assert(0 <= n % d < d) by {
        vstd::arithmetic::div_mod::lemma_mod_bound(n, d);
    }
    assert(d * (n / d + 1) == d * (n / d) + d) by (nonlinear_arith);
}

/// Round `used / total` to a whole percentage, halves up.
pub fn rounded_percent(used: u64, total: u64) -> (r: u32)
    requires
        0 < total,
        used <= total,
    ensures
        r == rounded_percent_of(used as int, total as int),
        r <= 100,
{
    let n: u128 = 200u128 * (used as u128) + (total as u128);
    let d: u128 = 2u128 * (total as u128);
    let q: u128 = n / d;
    proof {
        assert(q <= 100) by (nonlinear_arith)
            requires
                q == n / d,
                n == 200 * (used as int) + total,
                d == 2 * (total as int),
                0 < total,
                used <= total,
        ;
    }
    q as u32
}

/// Value of the fractional digits of a seconds reading in whole
/// milliseconds: the first three fractional digits, rounding the reading
/// down.
pub open spec fn frac_millis(frac: Seq<u8>) -> nat {
    if frac.len() == 0 {
        0
    } else if frac.len() == 1 {
        digits_val(frac) * 100
    } else if frac.len() == 2 {
        digits_val(frac) * 10
    } else {
        digits_val(frac.take(3))
    }
}

/// Milliseconds denoted by a decimal seconds token `digits[.digits]`:
/// whole seconds times a thousand plus the fractional milliseconds, the
/// floor of the reading scaled to milliseconds.
pub open spec fn decimal_millis_spec(tok: Seq<u8>) -> Option<u64> {
    let n = run_len(tok, DOT) as int;
    let ip = tok.take(n);
    let frac = if n == tok.len() {
        Seq::<u8>::empty()
    } else {
        tok.skip(n + 1)
    };
    if ip.len() > 0 && all_digits(ip) && all_digits(frac) && digits_val(ip) * 1000 + frac_millis(
        frac,
    ) <= u64::MAX {
        Some((digits_val(ip) * 1000 + frac_millis(frac)) as u64)
    } else {
        None
    }
}

/// Parse a decimal seconds token into whole milliseconds, rounding down.
#[verifier::loop_isolation(false)]
fn decimal_millis(tok: &[u8]) -> (r: Option<u64>)
    ensures
        r == decimal_millis_spec(tok@),
{
    let mut j: usize = 0;
    while j < tok.len() && tok[j] != DOT
        invariant
            0 <= j <= tok@.len(),
            forall|k: int| 0 <= k < j ==> #[trigger] tok@[k] != DOT,
        decreases tok@.len() - j,
    {
        j = j + 1;
    }
    proof {
        lemma_run_len_from_scan(tok@, DOT, j as int);
    }
    let ip = slice_subrange(tok, 0, j);
    proof {
        assert(ip@ =~= tok@.take(j as int));
    }
    let ipv = match parse_u64(ip) {
        Some(v) => v,
        None => {
            proof {
                if ip@.len() > 0 && all_digits(ip@) {
                    assert(digits_val(ip@) > u64::MAX);
                    assert(digits_val(ip@) * 1000 >= digits_val(ip@));
                }
            }
            return None;
        },
    };
    let frac: &[u8] = if j < tok.len() {
        slice_subrange(tok, j + 1, tok.len())
    } else {
        slice_subrange(tok, j, j)
    };
    let ghost gfrac = if j as int == tok@.len() {
        Seq::<u8>::empty()
    } else {
        tok@.skip(j as int + 1)
    };
    proof {
        assert(frac@ =~= gfrac);
    }
    let mut k: usize = 0;
    while k < frac.len()
        invariant
            0 <= k <= frac@.len(),
            forall|i: int| 0 <= i < k ==> crate::text::is_digit(#[trigger] frac@[i]),
        decreases frac@.len() - k,
    {
        let b = frac[k];
        if b < DIGIT_0 || b > DIGIT_9 {
            proof {
                assert(!crate::text::is_digit(frac@[k as int]));
            }
            return None;
        }
        k = k + 1;
    }
    assert(all_digits(frac@));
    let f3: &[u8] = if frac.len() >= 3 {
        slice_subrange(frac, 0, 3)
    } else {
        frac
    };
    proof {
        if frac@.len() >= 3 {
            assert(f3@ =~= frac@.take(3));
        } else {
            assert(f3@ =~= frac@);
        }
        assert forall|i: int| 0 <= i < f3@.len() implies crate::text::is_digit(
            #[trigger] f3@[i],
        ) by {
            assert(f3@[i] == frac@[i]);
        }
        lemma_digits_val_up_to_3(f3@);
    }
    let fm: u64 = if frac.len() == 0 {
        0
    } else {
        let f3v = match parse_u64(f3) {
            Some(v) => v,
            None => {
                proof {
                    assert(false);
                }
                return None;
            },
        };
        if frac.len() == 1 {
            f3v * 100
        } else if frac.len() == 2 {
            f3v * 10
        } else {
            f3v
        }
    };
    assert(fm == frac_millis(gfrac));
    let total: u128 = (ipv as u128) * 1000u128 + (fm as u128);
    if total > u64::MAX as u128 {
        return None;
    }
    Some(total as u64)
}

/// Milliseconds of uptime denoted by the counter file: the first
/// whitespace-separated field read as decimal seconds.
pub open spec fn uptime_millis_spec(text: Seq<u8>) -> Option<u64> {
    let fs = fields_spec(text);
    if fs.len() > 0 {
        decimal_millis_spec(fs[0])
    } else {
        None
    }
}

/// Parse the uptime counter file: its first whitespace-separated field is
/// seconds since boot as a decimal number, returned as whole milliseconds
/// (the reading scaled by a thousand, rounded down). Missing or malformed
/// input is an error, never defaulted.
pub fn uptime_millis_from_text(text: &[u8]) -> (r: Result<u64, MetricError>)
    ensures
        match r {
            Ok(v) => uptime_millis_spec(text@) == Some(v),
            Err(e) => uptime_millis_spec(text@) is None && e == MetricError::ParseError,
        },
{
    let fs = split_fields(text);
    if fs.len() == 0 {
        return Err(MetricError::ParseError);
    }
    proof {
        assert(fs[0]@ =~= fields_spec(text@)[0]);
    }
    match decimal_millis(fs[0].as_slice()) {
        Some(v) => Ok(v),
        None => Err(MetricError::ParseError),
    }
}

/// The seven aggregate CPU counters, in jiffies, in the order the kernel
/// reports them on the line that begins with the `cpu ` token.
#[derive(Clone, Copy, Debug, PartialEq, Eq, Structural)]
pub struct CpuCounters {
    pub user: u64,
    pub nice: u64,
    pub system: u64,
    pub idle: u64,
    pub iowait: u64,
    pub irq: u64,
    pub softirq: u64,
}

impl CpuCounters {
    /// The sum of all seven counters.
    pub open spec fn total(self) -> int {
        self.user + self.nice + self.system + self.idle + self.iowait + self.irq + self.softirq
    }
}

/// The field at index `i`, parsed as a decimal number.
pub open spec fn field_u64(fs: Seq<Seq<u8>>, i: int) -> Option<u64> {
    if 0 <= i < fs.len() {
        parse_u64_spec(fs[i])
    } else {
        None
    }
}

/// The label that opens the aggregate CPU counter line: `cpu` and a space.
pub open spec fn cpu_label() -> Seq<u8> {
    seq![99u8, 112u8, 117u8, 32u8]
}

/// The counters denoted by one counter line: label plus at least seven
/// decimal fields.
pub open spec fn cpu_counters_of_line(line: Seq<u8>) -> Option<CpuCounters> {
    let fs = fields_spec(line);
    if fs.len() >= 8 && field_u64(fs, 1) is Some && field_u64(fs, 2) is Some && field_u64(fs, 3)
        is Some && field_u64(fs, 4) is Some && field_u64(fs, 5) is Some && field_u64(fs, 6)
        is Some && field_u64(fs, 7) is Some {
        Some(
            CpuCounters {
                user: field_u64(fs, 1)->Some_0,
                nice: field_u64(fs, 2)->Some_0,
                system: field_u64(fs, 3)->Some_0,
                idle: field_u64(fs, 4)->Some_0,
                iowait: field_u64(fs, 5)->Some_0,
                irq: field_u64(fs, 6)->Some_0,
                softirq: field_u64(fs, 7)->Some_0,
            },
        )
    } else {
        None
    }
}

/// The counters denoted by a whole CPU counter file: those of the first
/// line that begins with the aggregate label.
pub open spec fn cpu_counters_spec(text: Seq<u8>) -> Option<CpuCounters> {
    match first_with_prefix(lines_spec(text), cpu_label()) {
        None => None,
        Some(line) => cpu_counters_of_line(line),
    }
}

/// Parse the aggregate CPU counter line out of the counter file text:
/// the first line beginning with the `cpu ` token, holding at least seven
/// whitespace-separated decimal fields after the label.
pub fn cpu_counters_from_stat(text: &[u8]) -> (r: Result<CpuCounters, MetricError>)
    ensures
        match r {
            Ok(c) => cpu_counters_spec(text@) == Some(c),
            Err(e) => cpu_counters_spec(text@) is None && e == MetricError::ParseError,
        },
{
    let lines = split_lines(text);
    let label: Vec<u8> = vec![99u8, 112u8, 117u8, 32u8];
    proof {
        assert(label@ =~= cpu_label());
    }
    let li = match find_with_prefix(&lines, label.as_slice()) {
        Some(i) => i,
        None => {
            return Err(MetricError::ParseError);
        },
    };
    let fs = split_fields(lines[li].as_slice());
    proof {
        assert(lines[li as int]@ =~= lines.deep_view()[li as int]);
    }
    let ghost gfs = fields_spec(lines.deep_view()[li as int]);
    if fs.len() < 8 {
        return Err(MetricError::ParseError);
    }
    proof {
        assert(fs[1]@ =~= gfs[1]);
        assert(fs[2]@ =~= gfs[2]);
        assert(fs[3]@ =~= gfs[3]);
        assert(fs[4]@ =~= gfs[4]);
        assert(fs[5]@ =~= gfs[5]);
        assert(fs[6]@ =~= gfs[6]);
        assert(fs[7]@ =~= gfs[7]);
    }
    let user = match parse_u64(fs[1].as_slice()) {
        Some(v) => v,
        None => {
            return Err(MetricError::ParseError);
        },
    };
    let nice = match parse_u64(fs[2].as_slice()) {
        Some(v) => v,
        None => {
            return Err(MetricError::ParseError);
        },
    };
    let system = match parse_u64(fs[3].as_slice()) {
        Some(v) => v,
        None => {
            return Err(MetricError::ParseError);
        },
    };
    let idle = match parse_u64(fs[4].as_slice()) {
        Some(v) => v,
        None => {
            return Err(MetricError::ParseError);
        },
    };
    let iowait = match parse_u64(fs[5].as_slice()) {
        Some(v) => v,
        None => {
            return Err(MetricError::ParseError);
        },
    };
    let irq = match parse_u64(fs[6].as_slice()) {
        Some(v) => v,
        None => {
            return Err(MetricError::ParseError);
        },
    };
    let softirq = match parse_u64(fs[7].as_slice()) {
        Some(v) => v,
        None => {
            return Err(MetricError::ParseError);
        },
    };
    Ok(CpuCounters { user, nice, system, idle, iowait, irq, softirq })
}

/// CPU utilization as the exact point-in-time ratio
/// `(total - idle) / total`, kept as a numerator and denominator in
/// jiffies. This reproduces the documented non-delta formula: an idle
/// ratio of the counters since boot, not a rate between two samples.
#[derive(Clone, Copy, Debug, PartialEq, Eq, Structural)]
pub struct CpuUsage {
    pub active: u64,
    pub total: u64,
}

impl CpuUsage {
    pub open spec fn wf(self) -> bool {
        0 < self.total && self.active <= self.total
    }
}

/// Derive utilization from the counters: the denominator is the sum of
/// all seven fields, the numerator that sum minus the idle field. A zero
/// or overflowing sum is rejected rather than divided by.
pub fn cpu_usage_of(c: &CpuCounters) -> (r: Result<CpuUsage, MetricError>)
    ensures
        match r {
            Ok(u) => 0 < c.total() <= u64::MAX && u.total == c.total() && u.active == c.total()
                - c.idle && u.wf(),
            Err(e) => (c.total() == 0 || c.total() > u64::MAX) && e == MetricError::ParseError,
        },
{
    let t: u128 = c.user as u128 + c.nice as u128 + c.system as u128 + c.idle as u128
        + c.iowait as u128 + c.irq as u128 + c.softirq as u128;
    if t == 0 || t > u64::MAX as u128 {
        return Err(MetricError::ParseError);
    }
    let total = t as u64;
    let active = total - c.idle;
    Ok(CpuUsage { active, total })
}

/// The utilization scaled to thousandths of a percent, rounded down:
/// `active * 100000 / total`.
pub fn milli_percent(u: &CpuUsage) -> (r: u64)
    requires
        u.wf(),
    ensures
        r == (u.active as int * 100000) / (u.total as int),
        r <= 100000,
{
    let n: u128 = (u.active as u128) * 100000u128;
    let q: u128 = n / (u.total as u128);
    proof {
        assert(q <= 100000) by (nonlinear_arith)
            requires
                q == n as int / (u.total as int),
                n == u.active as int * 100000,
                0 < u.total,
                u.active <= u.total,
        ;
    }
    q as u64
}

/// The memory counters reported under the `MemTotal:` and `MemAvailable:`
/// labels, in kilobytes.
#[derive(Clone, Copy, Debug, PartialEq, Eq, Structural)]
pub struct MemInfo {
    pub total: u64,
    pub available: u64,
}

impl MemInfo {
    /// Memory in use: what is not available out of the total.
    pub open spec fn used(self) -> int {
        self.total - self.available
    }

    pub open spec fn wf(self) -> bool {
        0 < self.total && self.available <= self.total
    }
}

/// The `MemTotal:` label.
pub open spec fn mem_total_label() -> Seq<u8> {
    seq![77u8, 101u8, 109u8, 84u8, 111u8, 116u8, 97u8, 108u8, 58u8]
}

/// The `MemAvailable:` label.
pub open spec fn mem_available_label() -> Seq<u8> {
    seq![77u8, 101u8, 109u8, 65u8, 118u8, 97u8, 105u8, 108u8, 97u8, 98u8, 108u8, 101u8, 58u8]
}

/// The decimal value of the second field of the first line that begins
/// with the given label.
pub open spec fn label_field_u64(text: Seq<u8>, label: Seq<u8>) -> Option<u64> {
    match first_with_prefix(lines_spec(text), label) {
        None => None,
        Some(line) => field_u64(fields_spec(line), 1),
    }
}

/// The memory counters denoted by a counter file: both labelled lines
/// present and numeric, a positive total, and no more available than the
/// total.
pub open spec fn mem_info_spec(text: Seq<u8>) -> Option<MemInfo> {
    if label_field_u64(text, mem_total_label()) is Some && label_field_u64(
        text,
        mem_available_label(),
    ) is Some {
        let t = label_field_u64(text, mem_total_label())->Some_0;
        let a = label_field_u64(text, mem_available_label())->Some_0;
        if 0 < t && a <= t {
            Some(MemInfo { total: t, available: a })
        } else {
            None
        }
    } else {
        None
    }
}

/// Parse the memory counter file: the fields after the `MemTotal:` and
/// `MemAvailable:` labels. Counters that would make the derived values
/// meaningless (zero total, more available than total) are rejected.
pub fn mem_info_from_meminfo(text: &[u8]) -> (r: Result<MemInfo, MetricError>)
    ensures
        match r {
            Ok(m) => mem_info_spec(text@) == Some(m) && m.wf(),
            Err(e) => mem_info_spec(text@) is None && e == MetricError::ParseError,
        },
{
    let lines = split_lines(text);
    let tlabel: Vec<u8> = vec![77u8, 101u8, 109u8, 84u8, 111u8, 116u8, 97u8, 108u8, 58u8];
    let alabel: Vec<u8> = vec![
        77u8, 101u8, 109u8, 65u8, 118u8, 97u8, 105u8, 108u8, 97u8, 98u8, 108u8, 101u8, 58u8,
    ];
    proof {
        assert(tlabel@ =~= mem_total_label());
        assert(alabel@ =~= mem_available_label());
    }
    let total = match label_field(&lines, tlabel.as_slice()) {
        Some(v) => v,
        None => {
            return Err(MetricError::ParseError);
        },
    };
    let available = match label_field(&lines, alabel.as_slice()) {
        Some(v) => v,
        None => {
            return Err(MetricError::ParseError);
        },
    };
    if total == 0 || available > total {
        return Err(MetricError::ParseError);
    }
    Ok(MemInfo { total, available })
}

/// Find the line with the given label among already-split lines and parse
/// its second field.
fn label_field(lines: &Vec<Vec<u8>>, label: &[u8]) -> (r: Option<u64>)
    ensures
        r == match first_with_prefix(lines.deep_view(), label@) {
            None => None::<u64>,
            Some(line) => field_u64(fields_spec(line), 1),
        },
{
    let li = match find_with_prefix(lines, label) {
        Some(i) => i,
        None => {
            return None;
        },
    };
    let fs = split_fields(lines[li].as_slice());
    proof {
        assert(lines[li as int]@ =~= lines.deep_view()[li as int]);
    }
    if fs.len() < 2 {
        return None;
    }
    proof {
        assert(fs[1]@ =~= fields_spec(lines.deep_view()[li as int])[1]);
    }
    parse_u64(fs[1].as_slice())
}

/// Memory in use, in kilobytes: total minus available.
pub fn mem_used(m: &MemInfo) -> (r: u64)
    requires
        m.wf(),
    ensures
        r == m.used(),
{
    m.total - m.available
}

/// Memory use as a whole percentage of the total, halves rounded up.
pub fn mem_percent(m: &MemInfo) -> (r: u32)
    requires
        m.wf(),
    ensures
        r == rounded_percent_of(m.used(), m.total as int),
        r <= 100,
{
    let used = mem_used(m);
    rounded_percent(used, m.total)
}

/// The disk counters of the report's data row, in the reporting tool's
/// block units.
#[derive(Clone, Copy, Debug, PartialEq, Eq, Structural)]
pub struct DiskInfo {
    pub total: u64,
    pub used: u64,
    pub free: u64,
}

impl DiskInfo {
    pub open spec fn wf(self) -> bool {
        0 < self.total && self.used <= self.total
    }
}

/// The disk counters denoted by the report output: the row after the
/// three header and mount lines, columns two to four (total, used, free),
/// with a positive, consistent total.
pub open spec fn disk_info_spec(text: Seq<u8>) -> Option<DiskInfo> {
    let ls = lines_spec(text);
    if ls.len() >= 4 {
        let fs = fields_spec(ls[3]);
        if fs.len() >= 4 && field_u64(fs, 1) is Some && field_u64(fs, 2) is Some && field_u64(
            fs,
            3,
        ) is Some {
            let t = field_u64(fs, 1)->Some_0;
            let u = field_u64(fs, 2)->Some_0;
            let f = field_u64(fs, 3)->Some_0;
            if 0 < t && u <= t {
                Some(DiskInfo { total: t, used: u, free: f })
            } else {
                None
            }
        } else {
            None
        }
    } else {
        None
    }
}

/// Parse the disk-usage report: skip three header and mount lines, then
/// read columns two to four of the data row as total, used and free.
/// Output whose data row is missing, non-numeric, or inconsistent (zero
/// total, used beyond total) is rejected.
pub fn disk_info_from_report(text: &[u8]) -> (r: Result<DiskInfo, MetricError>)
    ensures
        match r {
            Ok(d) => disk_info_spec(text@) == Some(d) && d.wf(),
            Err(e) => disk_info_spec(text@) is None && e == MetricError::ParseError,
        },
{
    let lines = split_lines(text);
    if lines.len() < 4 {
        return Err(MetricError::ParseError);
    }
    let fs = split_fields(lines[3].as_slice());
    proof {
        assert(lines[3]@ =~= lines.deep_view()[3]);
    }
    let ghost gfs = fields_spec(lines.deep_view()[3]);
    if fs.len() < 4 {
        return Err(MetricError::ParseError);
    }
    proof {
        assert(fs[1]@ =~= gfs[1]);
        assert(fs[2]@ =~= gfs[2]);
        assert(fs[3]@ =~= gfs[3]);
    }
    let total = match parse_u64(fs[1].as_slice()) {
        Some(v) => v,
        None => {
            return Err(MetricError::ParseError);
        },
    };
    let used = match parse_u64(fs[2].as_slice()) {
        Some(v) => v,
        None => {
            return Err(MetricError::ParseError);
        },
    };
    let free = match parse_u64(fs[3].as_slice()) {
        Some(v) => v,
        None => {
            return Err(MetricError::ParseError);
        },
    };
    if total == 0 || used > total {
        return Err(MetricError::ParseError);
    }
    Ok(DiskInfo { total, used, free })
}

/// Disk use as a whole percentage of the total, halves rounded up.
pub fn disk_percent(d: &DiskInfo) -> (r: u32)
    requires
        d.wf(),
    ensures
        r == rounded_percent_of(d.used as int, d.total as int),
        r <= 100,
{
    rounded_percent(d.used, d.total)
}

} // verus!
