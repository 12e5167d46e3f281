//! Calendar instants: the ISO-8601 timestamps of history range requests,
//! parsed and validated into seconds since the epoch. A request's bounds
//! are resolved to real instants here; no sentinel token ever reaches the
//! store's range comparison.

use vstd::prelude::*;
use crate::errors::MetricError;
use crate::text::{digits_val, is_digit, parse_u64, parse_u64_spec, DIGIT_0, MINUS};

verus! {

pub const COLON: u8 = 58;
pub const UPPER_T: u8 = 84;
pub const UPPER_Z: u8 = 90;

/// A leap year of the Gregorian calendar.
pub open spec fn is_leap(y: int) -> bool {
    y % 4 == 0 && (y % 100 != 0 || y % 400 == 0)
}

pub open spec fn days_in_year(y: int) -> int {
    if is_leap(y) {
        366
    } else {
        365
    }
}

pub open spec fn days_in_month(y: int, m: int) -> int {
    if m == 2 {
        if is_leap(y) {
            29
        } else {
            28
        }
    } else if m == 4 || m == 6 || m == 9 || m == 11 {
        30
    } else {
        31
    }
}

/// Days from the epoch to the first day of the given year.
pub open spec fn days_before_year(y: int) -> int
    decreases y - 1970,
{
    if y <= 1970 {
        0
    } else {
        days_before_year(y - 1) + days_in_year(y - 1)
    }
}

/// Days from the first of January to the first day of the given month.
pub open spec fn days_before_month(y: int, m: int) -> int
    decreases m,
{
    if m <= 1 {
        0
    } else {
        days_before_month(y, m - 1) + days_in_month(y, m - 1)
    }
}

/// A calendar field combination the parser accepts: years from the epoch
/// to four digits, a real day of the month, and a time of day without
/// leap seconds.
pub open spec fn valid_civil(y: int, mo: int, d: int, h: int, mi: int, s: int) -> bool {
    &&& 1970 <= y <= 9999
    &&& 1 <= mo <= 12
    &&& 1 <= d <= days_in_month(y, mo)
    &&& 0 <= h < 24
    &&& 0 <= mi < 60
    &&& 0 <= s < 60
}

/// Seconds since the epoch of the given calendar fields.
pub open spec fn epoch_seconds_of(y: int, mo: int, d: int, h: int, mi: int, s: int) -> int {
    (days_before_year(y) + days_before_month(y, mo) + (d - 1)) * 86400 + h * 3600 + mi * 60 + s
}

/// The digits at a fixed position of an ISO-8601 instant.
pub open spec fn iso_field(s: Seq<u8>, i: int, n: int) -> Option<u64> {
    parse_u64_spec(s.subrange(i, i + n))
}

/// The exact shape `YYYY-MM-DDTHH:MM:SSZ`: twenty bytes, digits in the six
/// numeric positions, the four separators and the zone designator.
pub open spec fn well_formed_iso(s: Seq<u8>) -> bool {
    &&& s.len() == 20
    &&& s[4] == MINUS
    &&& s[7] == MINUS
    &&& s[10] == UPPER_T
    &&& s[13] == COLON
    &&& s[16] == COLON
    &&& s[19] == UPPER_Z
    &&& iso_field(s, 0, 4) is Some
    &&& iso_field(s, 5, 2) is Some
    &&& iso_field(s, 8, 2) is Some
    &&& iso_field(s, 11, 2) is Some
    &&& iso_field(s, 14, 2) is Some
    &&& iso_field(s, 17, 2) is Some
}

/// The instant denoted by an ISO-8601 timestamp: well shaped, fields a
/// valid calendar date and time, as seconds since the epoch.
pub open spec fn timestamp_spec(s: Seq<u8>) -> Option<u64> {
    if well_formed_iso(s) {
        let y = iso_field(s, 0, 4)->Some_0 as int;
        let mo = iso_field(s, 5, 2)->Some_0 as int;
        let d = iso_field(s, 8, 2)->Some_0 as int;
        let h = iso_field(s, 11, 2)->Some_0 as int;
        let mi = iso_field(s, 14, 2)->Some_0 as int;
        let sec = iso_field(s, 17, 2)->Some_0 as int;
        if valid_civil(y, mo, d, h, mi, sec) {
            Some(epoch_seconds_of(y, mo, d, h, mi, sec) as u64)
        } else {
            None
        }
    } else {
        None
    }
}

/// Days before a year never exceed a full leap year per elapsed year.
proof fn lemma_days_before_year_bound(y: int)
    requires
        y >= 1970,
    ensures
        0 <= days_before_year(y) <= 366 * (y - 1970),
    decreases y - 1970,
{
    if y > 1970 {
        lemma_days_before_year_bound(y - 1);
    }
}

/// Days before a month never exceed eleven full months.
proof fn lemma_days_before_month_bound(y: int, m: int)
    requires
        1 <= m <= 12,
    ensures
        0 <= days_before_month(y, m) <= 31 * (m - 1),
    decreases m,
{
    if m > 1 {
        lemma_days_before_month_bound(y, m - 1);
    }
}

fn leap_year(y: u64) -> (r: bool)
    ensures
        r == is_leap(y as int),
{
    y % 4 == 0 && (y % 100 != 0 || y % 400 == 0)
}

fn month_days(y: u64, m: u64) -> (r: u64)
    requires
        1 <= m <= 12,
    ensures
        r == days_in_month(y as int, m as int),
{
    if m == 2 {
        if leap_year(y) {
            29
        } else {
            28
        }
    } else if m == 4 || m == 6 || m == 9 || m == 11 {
        30
    } else {
        31
    }
}

/// Days from the epoch to the given day, counted through whole years and
/// then whole months.
fn days_from_civil(y: u64, mo: u64, d: u64) -> (r: u64)
    requires
        valid_civil(y as int, mo as int, d as int, 0, 0, 0),
    ensures
        r == days_before_year(y as int) + days_before_month(y as int, mo as int) + (d - 1),
        r <= 366 * (y - 1970) + 31 * 11 + 30,
{
    proof {
        lemma_days_before_year_bound(y as int);
        lemma_days_before_month_bound(y as int, mo as int);
    }
    let mut days: u64 = 0;
    let mut yy: u64 = 1970;
    while yy < y
        invariant
            1970 <= yy <= y <= 9999,
            days == days_before_year(yy as int),
            days <= 366 * (yy - 1970),
        decreases y - yy,
    {
        if leap_year(yy) {
            days = days + 366;
        } else {
            days = days + 365;
        }
        yy = yy + 1;
    }
    let mut mm: u64 = 1;
    while mm < mo
        invariant
            1 <= mm <= mo <= 12,
            y <= 9999,
            days == days_before_year(y as int) + days_before_month(y as int, mm as int),
            days <= 366 * (y - 1970) + 31 * (mm - 1),
        decreases mo - mm,
    {
        days = days + month_days(y, mm);
        mm = mm + 1;
    }
    days + (d - 1)
}

/// Parse an ISO-8601 instant, `YYYY-MM-DDTHH:MM:SSZ`, into seconds since
/// the epoch. Anything else — wrong shape, a digit out of place, a month
/// or day or time field that is no real calendar value, a year before the
/// epoch or past four digits — is an invalid request.
pub fn parse_timestamp(s: &[u8]) -> (r: Result<u64, MetricError>)
    ensures
        match r {
            Ok(t) => timestamp_spec(s@) == Some(t),
            Err(e) => timestamp_spec(s@) is None && e == MetricError::InvalidRequest,
        },
{
    if s.len() != 20 {
        return Err(MetricError::InvalidRequest);
    }
    if !(s[4] == MINUS && s[7] == MINUS && s[10] == UPPER_T && s[13] == COLON && s[16] == COLON
        && s[19] == UPPER_Z) {
        return Err(MetricError::InvalidRequest);
    }
    let fy = vstd::slice::slice_subrange(s, 0, 4);
    let fmo = vstd::slice::slice_subrange(s, 5, 7);
    let fd = vstd::slice::slice_subrange(s, 8, 10);
    let fh = vstd::slice::slice_subrange(s, 11, 13);
    let fmi = vstd::slice::slice_subrange(s, 14, 16);
    let fs = vstd::slice::slice_subrange(s, 17, 19);
    let y = match parse_u64(fy) {
        Some(v) => v,
        None => {
            return Err(MetricError::InvalidRequest);
        },
    };
    let mo = match parse_u64(fmo) {
        Some(v) => v,
        None => {
            return Err(MetricError::InvalidRequest);
        },
    };
    let d = match parse_u64(fd) {
        Some(v) => v,
        None => {
            return Err(MetricError::InvalidRequest);
        },
    };
    let h = match parse_u64(fh) {
        Some(v) => v,
        None => {
            return Err(MetricError::InvalidRequest);
        },
    };
    let mi = match parse_u64(fmi) {
        Some(v) => v,
        None => {
            return Err(MetricError::InvalidRequest);
        },
    };
    let sec = match parse_u64(fs) {
        Some(v) => v,
        None => {
            return Err(MetricError::InvalidRequest);
        },
    };
    if !(1970 <= y && y <= 9999 && 1 <= mo && mo <= 12 && h < 24 && mi < 60 && sec < 60) {
        return Err(MetricError::InvalidRequest);
    }
    if d < 1 || d > month_days(y, mo) {
        return Err(MetricError::InvalidRequest);
    }
    let days = days_from_civil(y, mo, d);
    let t = days * 86400 + h * 3600 + mi * 60 + sec;
    Ok(t)
}

/// The last instant the four-digit calendar can express.
pub open spec fn max_timestamp() -> int {
    epoch_seconds_of(9999, 12, 31, 23, 59, 59)
}

/// The months of a year sum to its length.
proof fn lemma_year_months(y: int)
    ensures
        days_before_month(y, 13) == days_in_year(y),
{
    assert(days_before_month(y, 1) == 0);
    assert(days_before_month(y, 2) == days_before_month(y, 1) + days_in_month(y, 1));
    assert(days_before_month(y, 3) == days_before_month(y, 2) + days_in_month(y, 2));
    assert(days_before_month(y, 4) == days_before_month(y, 3) + days_in_month(y, 3));
    assert(days_before_month(y, 5) == days_before_month(y, 4) + days_in_month(y, 4));
    assert(days_before_month(y, 6) == days_before_month(y, 5) + days_in_month(y, 5));
    assert(days_before_month(y, 7) == days_before_month(y, 6) + days_in_month(y, 6));
    assert(days_before_month(y, 8) == days_before_month(y, 7) + days_in_month(y, 7));
    assert(days_before_month(y, 9) == days_before_month(y, 8) + days_in_month(y, 8));
    assert(days_before_month(y, 10) == days_before_month(y, 9) + days_in_month(y, 9));
    assert(days_before_month(y, 11) == days_before_month(y, 10) + days_in_month(y, 10));
    assert(days_before_month(y, 12) == days_before_month(y, 11) + days_in_month(y, 11));
    assert(days_before_month(y, 13) == days_before_month(y, 12) + days_in_month(y, 12));
}

/// The calendar fields of an instant: the inverse of `epoch_seconds_of`
/// over valid fields, as year, month, day, hour, minute, second. An
/// instant past the four-digit calendar is refused.
pub fn civil_of_epoch(t: u64) -> (r: Option<(u64, u64, u64, u64, u64, u64)>)
    ensures
        match r {
            Some(c) => valid_civil(
                c.0 as int,
                c.1 as int,
                c.2 as int,
                c.3 as int,
                c.4 as int,
                c.5 as int,
            ) && epoch_seconds_of(
                c.0 as int,
                c.1 as int,
                c.2 as int,
                c.3 as int,
                c.4 as int,
                c.5 as int,
            ) == t,
            None => t > max_timestamp(),
        },
{
    let days_total: u64 = t / 86400;
    let rem: u64 = t % 86400;
    let h: u64 = rem / 3600;
    let mi: u64 = (rem % 3600) / 60;
    let sec: u64 = rem % 60;
    proof {
        let ri = rem as int;
        assert(ri == 3600 * (ri / 3600) + ri % 3600);
        assert(ri % 3600 == 60 * ((ri % 3600) / 60) + (ri % 3600) % 60);
        assert(ri == (60 * (ri / 3600) + (ri % 3600) / 60) * 60 + (ri % 3600) % 60);
        vstd::arithmetic::div_mod::lemma_fundamental_div_mod_converse_mod(
            ri,
            60,
            60 * (ri / 3600) + (ri % 3600) / 60,
            (ri % 3600) % 60,
        );
        assert((ri % 3600) % 60 == ri % 60);
        assert(rem == h * 3600 + mi * 60 + sec);
        assert(h < 24 && mi < 60 && sec < 60);
        assert(t == days_total * 86400 + rem);
    }
    let mut y: u64 = 1970;
    let mut days: u64 = days_total;
    loop
        invariant_except_break
            1970 <= y <= 9999,
            days_before_year(y as int) + days == days_total,
            t == days_total * 86400 + rem,
            rem == h * 3600 + mi * 60 + sec,
            h < 24 && mi < 60 && sec < 60,
        ensures
            1970 <= y <= 9999,
            days_before_year(y as int) + days == days_total,
            days < days_in_year(y as int),
        decreases 10000 - y,
    {
        let dy: u64 = if leap_year(y) {
            366
        } else {
            365
        };
        if days < dy {
            break;
        }
        if y == 9999 {
            proof {
                lemma_year_months(9999);
                assert(days_before_month(9999, 13) == 365);
                assert(days_before_month(9999, 12) + days_in_month(9999, 12) == 365);
                assert(max_timestamp() == (days_before_year(9999) + days_before_month(9999, 12)
                    + 30) * 86400 + 23 * 3600 + 59 * 60 + 59);
                assert(days_total >= days_before_year(9999) + 365);
                assert(t > max_timestamp());
            }
            return None;
        }
        days = days - dy;
        y = y + 1;
    }
    let ghost dpart = days_total - days_before_year(y as int);
    let mut mo: u64 = 1;
    loop
        invariant_except_break
            1 <= mo <= 12,
            1970 <= y <= 9999,
            days_before_month(y as int, mo as int) + days == dpart,
            dpart < days_in_year(y as int),
        ensures
            1 <= mo <= 12,
            days_before_month(y as int, mo as int) + days == dpart,
            days < days_in_month(y as int, mo as int),
        decreases 12 - mo,
    {
        let dm = month_days(y, mo);
        if days < dm {
            break;
        }
        proof {
            if mo == 12 {
                lemma_year_months(y as int);
                assert(days_before_month(y as int, 13) == days_before_month(y as int, 12)
                    + days_in_month(y as int, 12));
                assert(false);
            }
        }
        days = days - dm;
        mo = mo + 1;
    }
    let d: u64 = days + 1;
    Some((y, mo, d, h, mi, sec))
}

/// The two bytes rendering a value under a hundred as decimal digits.
pub open spec fn two_digits(v: int) -> Seq<u8> {
    seq![(v / 10 + DIGIT_0) as u8, (v % 10 + DIGIT_0) as u8]
}

/// Two rendered digits denote the value they render.
proof fn lemma_two_digits_val(v: int)
    requires
        0 <= v < 100,
    ensures
        digits_val(two_digits(v)) == v,
        forall|i: int| 0 <= i < 2 ==> is_digit(#[trigger] two_digits(v)[i]),
{
    reveal_with_fuel(digits_val, 3);
    let s = two_digits(v);
    assert(s.len() == 2);
    assert(s.drop_last() =~= seq![s[0]]);
    assert(seq![s[0]].drop_last() =~= Seq::<u8>::empty());
    assert(seq![s[0]].last() == s[0]);
    assert(digits_val(Seq::<u8>::empty()) == 0);
    assert(digits_val(seq![s[0]]) == (s[0] - DIGIT_0) as nat);
    assert(digits_val(s) == digits_val(seq![s[0]]) * 10 + (s[1] - DIGIT_0) as nat);
    assert((v / 10) * 10 + v % 10 == v);
}

/// Concatenating two digit pairs denotes the first value scaled by a
/// hundred plus the second.
proof fn lemma_digits_val_concat2(p: Seq<u8>, q: Seq<u8>)
    requires
        q.len() == 2,
    ensures
        digits_val(p + q) == digits_val(p) * 100 + digits_val(q),
{
    reveal_with_fuel(digits_val, 3);
    let s = p + q;
    assert(s.len() == p.len() + 2);
    assert(s.drop_last() =~= p.push(q[0]));
    assert(s.last() == q[1]);
    assert(seq![q[0]].last() == q[0]);
    assert(p.push(q[0]).drop_last() =~= p);
    assert(p.push(q[0]).last() == q[0]);
    assert(q.drop_last() =~= seq![q[0]]);
    assert(seq![q[0]].drop_last() =~= Seq::<u8>::empty());
    assert(q.last() == q[1]);
    assert(digits_val(q) == (q[0] - DIGIT_0) as nat * 10 + (q[1] - DIGIT_0) as nat);
    assert(digits_val(p.push(q[0])) == digits_val(p) * 10 + (q[0] - DIGIT_0) as nat);
    assert(digits_val(s) == (digits_val(p) * 10 + (q[0] - DIGIT_0) as nat) * 10 + (q[1]
        - DIGIT_0) as nat);
}

/// Append a value under a hundred as two decimal digits.
fn push_two_digits(out: &mut Vec<u8>, v: u64)
    requires
        v < 100,
    ensures
        final(out)@ == old(out)@ + two_digits(v as int),
{
    let tens: u8 = (v / 10) as u8 + DIGIT_0;
    let ones: u8 = (v % 10) as u8 + DIGIT_0;
    out.push(tens);
    out.push(ones);
    proof {
        assert(out@ =~= old(out)@ + two_digits(v as int));
    }
}

/// Render an instant as `YYYY-MM-DDTHH:MM:SSZ`. What is rendered parses
/// back to the very instant; an instant past the four-digit calendar is
/// refused.
#[verifier::rlimit(100)]
pub fn format_timestamp(t: u64) -> (r: Option<Vec<u8>>)
    ensures
        match r {
            Some(bytes) => timestamp_spec(bytes@) == Some(t),
            None => t > max_timestamp(),
        },
{
    let c = match civil_of_epoch(t) {
        Some(c) => c,
        None => {
            return None;
        },
    };
    let (y, mo, d, h, mi, sec) = c;
    let mut out: Vec<u8> = Vec::new();
    push_two_digits(&mut out, y / 100);
    push_two_digits(&mut out, y % 100);
    out.push(MINUS);
    push_two_digits(&mut out, mo);
    out.push(MINUS);
    push_two_digits(&mut out, d);
    out.push(UPPER_T);
    push_two_digits(&mut out, h);
    out.push(COLON);
    push_two_digits(&mut out, mi);
    out.push(COLON);
    push_two_digits(&mut out, sec);
    out.push(UPPER_Z);
    proof {
        let s = out@;
        let yh = two_digits(y as int / 100);
        let yl = two_digits(y as int % 100);
        assert(s =~= yh + yl + seq![MINUS] + two_digits(mo as int) + seq![MINUS] + two_digits(
            d as int,
        ) + seq![UPPER_T] + two_digits(h as int) + seq![COLON] + two_digits(mi as int)
            + seq![COLON] + two_digits(sec as int) + seq![UPPER_Z]);
        lemma_two_digits_val(y as int / 100);
        lemma_two_digits_val(y as int % 100);
        lemma_two_digits_val(mo as int);
        lemma_two_digits_val(d as int);
        lemma_two_digits_val(h as int);
        lemma_two_digits_val(mi as int);
        lemma_two_digits_val(sec as int);
        assert(s.subrange(0, 4) =~= yh + yl);
        lemma_digits_val_concat2(yh, yl);
        assert(digits_val(s.subrange(0, 4)) == y) by {
            assert((y as int / 100) * 100 + y as int % 100 == y);
        }
        assert forall|i: int| 0 <= i < 4 implies is_digit(#[trigger] s.subrange(0, 4)[i]) by {
            if i < 2 {
                assert(s.subrange(0, 4)[i] == yh[i]);
            } else {
                assert(s.subrange(0, 4)[i] == yl[i - 2]);
            }
        }
        assert(s.subrange(5, 7) =~= two_digits(mo as int));
        assert(s.subrange(8, 10) =~= two_digits(d as int));
        assert(s.subrange(11, 13) =~= two_digits(h as int));
        assert(s.subrange(14, 16) =~= two_digits(mi as int));
        assert(s.subrange(17, 19) =~= two_digits(sec as int));
        assert(well_formed_iso(s));
        assert(iso_field(s, 0, 4) == Some(y));
        assert(iso_field(s, 5, 2) == Some(mo));
        assert(iso_field(s, 8, 2) == Some(d));
        assert(iso_field(s, 11, 2) == Some(h));
        assert(iso_field(s, 14, 2) == Some(mi));
        assert(iso_field(s, 17, 2) == Some(sec));
    }
    Some(out)
}

} // verus!
