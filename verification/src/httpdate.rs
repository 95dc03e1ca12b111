use vstd::prelude::*;
use vstd::arithmetic::div_mod::{lemma_fundamental_div_mod, lemma_fundamental_div_mod_converse};

verus! {

/// The last second the four-digit-year HTTP date format can carry:
/// 9999-12-31 23:59:59 UTC.
pub const MAX_HTTP_DATE: u64 = 253402300799;

pub open spec fn is_leap_year(y: int) -> bool {
    y % 4 == 0 && (y % 100 != 0 || y % 400 == 0)
}

pub open spec fn days_in_year(y: int) -> int {
    if is_leap_year(y) {
        366
    } else {
        365
    }
}

/// Leap days among the years strictly before `y`, counted from year 1.
pub open spec fn leap_days_before(y: int) -> int
    recommends
        y >= 1,
{
    (y - 1) / 4 - (y - 1) / 100 + (y - 1) / 400
}

/// Days between the Unix epoch and the first day of year `y`.
pub open spec fn days_before_year(y: int) -> int
    recommends
        y >= 1970,
{
    365 * (y - 1970) + leap_days_before(y) - 477
}

proof fn lemma_div_step(x: int, d: int)
    requires
        d > 0,
    ensures
        x / d == (x - 1) / d + (if x % d == 0 {
            1int
        } else {
            0int
        }),
{
    let q = (x - 1) / d;
    let r = (x - 1) % d;
    lemma_fundamental_div_mod(x - 1, d);
    if r == d - 1 {
        assert((q + 1) * d == q * d + d) by (nonlinear_arith);
        assert(x == (q + 1) * d + 0);
        lemma_fundamental_div_mod_converse(x, d, q + 1, 0);
    } else {
        assert(q * d == d * q) by (nonlinear_arith);
        assert(x == q * d + (r + 1));
        lemma_fundamental_div_mod_converse(x, d, q, r + 1);
    }
}

/// Stepping one year forward adds exactly that year's length.
pub proof fn lemma_days_before_year_step(y: int)
    requires
        y >= 1970,
    ensures
        days_before_year(y + 1) == days_before_year(y) + days_in_year(y),
{
    lemma_div_step(y, 4);
    lemma_div_step(y, 100);
    lemma_div_step(y, 400);
}

proof fn lemma_days_before_year_10000()
    ensures
        days_before_year(10000) == 2932897,
{
    lemma_fundamental_div_mod_converse(9999, 4, 2499, 3);
    lemma_fundamental_div_mod_converse(9999, 100, 99, 99);
    lemma_fundamental_div_mod_converse(9999, 400, 24, 399);
}

/// Days between the first of January and the first of month `m`.
pub open spec fn days_before_month(leap: bool, m: int) -> int
    recommends
        1 <= m <= 12,
{
    let l: int = if leap {
        1
    } else {
        0
    };
    if m == 1 {
        0
    } else if m == 2 {
        31
    } else if m == 3 {
        59 + l
    } else if m == 4 {
        90 + l
    } else if m == 5 {
        120 + l
    } else if m == 6 {
        151 + l
    } else if m == 7 {
        181 + l
    } else if m == 8 {
        212 + l
    } else if m == 9 {
        243 + l
    } else if m == 10 {
        273 + l
    } else if m == 11 {
        304 + l
    } else {
        334 + l
    }
}

pub open spec fn days_in_month(leap: bool, m: int) -> int
    recommends
        1 <= m <= 12,
{
    if m == 12 {
        31
    } else {
        days_before_month(leap, m + 1) - days_before_month(leap, m)
    }
}

/// A broken-down UTC moment at one-second resolution, plus its weekday
/// (`0` is Sunday; the Unix epoch fell on a Thursday, weekday `4`).
pub struct HttpDate {
    pub year: u64,
    pub month: u64,
    pub day: u64,
    pub hour: u64,
    pub minute: u64,
    pub second: u64,
    pub weekday: u64,
}

pub open spec fn valid_date(d: HttpDate) -> bool {
    &&& 1970 <= d.year <= 9999
    &&& 1 <= d.month <= 12
    &&& 1 <= d.day <= days_in_month(is_leap_year(d.year as int), d.month as int)
    &&& d.hour < 24
    &&& d.minute < 60
    &&& d.second < 60
    &&& d.weekday < 7
}

/// The Unix timestamp a broken-down date denotes.
pub open spec fn timestamp_of(d: HttpDate) -> int {
    (days_before_year(d.year as int) + days_before_month(
        is_leap_year(d.year as int),
        d.month as int,
    ) + d.day - 1) * 86400 + d.hour * 3600 + d.minute * 60 + d.second
}

fn year_len(y: u64) -> (r: u64)
    ensures
        r == days_in_year(y as int),
{
    if y % 4 == 0 && (y % 100 != 0 || y % 400 == 0) {
        366
    } else {
        365
    }
}

/// Breaks a Unix timestamp into the UTC date and time it denotes: the one
/// valid broken-down moment whose timestamp is `t`.
pub fn timestamp_to_date(t: u64) -> (r: HttpDate)
    requires
        t <= MAX_HTTP_DATE,
    ensures
        valid_date(r),
        timestamp_of(r) == t,
        r.weekday == ((t / 86400) + 4) % 7,
{
    let days: u64 = t / 86400;
    let rem: u64 = t % 86400;
    let hour: u64 = rem / 3600;
    let minute: u64 = (rem % 3600) / 60;
    let second: u64 = (rem % 3600) % 60;
    let weekday: u64 = (days + 4) % 7;
    proof {
        lemma_fundamental_div_mod(t as int, 86400);
        lemma_fundamental_div_mod(rem as int, 3600);
        lemma_fundamental_div_mod((rem % 3600) as int, 60);
        assert(days <= 2932896) by {
            lemma_fundamental_div_mod_converse(253402300799, 86400, 2932896, 86399);
        }
    }
    let mut y: u64 = 1970;
    let mut left: u64 = days;
    let mut step: u64 = year_len(y);
    while left >= step
        invariant
            1970 <= y <= 9999,
            days <= 2932896,
            days_before_year(y as int) + left == days,
            step == days_in_year(y as int),
        decreases left,
    {
        proof {
            lemma_days_before_year_step(y as int);
            if y == 9999 {
                lemma_days_before_year_10000();
                assert(false);
            }
        }
        left = left - step;
        y = y + 1;
        step = year_len(y);
    }
    let leap: bool = y % 4 == 0 && (y % 100 != 0 || y % 400 == 0);
    let lp: u64 = if leap {
        1
    } else {
        0
    };
    let month: u64;
    let day: u64;
    if left < 31 {
        month = 1;
        day = left + 1;
    } else if left < 59 + lp {
        month = 2;
        day = left - 31 + 1;
    } else if left < 90 + lp {
        month = 3;
        day = left - (59 + lp) + 1;
    } else if left < 120 + lp {
        month = 4;
        day = left - (90 + lp) + 1;
    } else if left < 151 + lp {
        month = 5;
        day = left - (120 + lp) + 1;
    } else if left < 181 + lp {
        month = 6;
        day = left - (151 + lp) + 1;
    } else if left < 212 + lp {
        month = 7;
        day = left - (181 + lp) + 1;
    } else if left < 243 + lp {
        month = 8;
        day = left - (212 + lp) + 1;
    } else if left < 273 + lp {
        month = 9;
        day = left - (243 + lp) + 1;
    } else if left < 304 + lp {
        month = 10;
        day = left - (273 + lp) + 1;
    } else if left < 334 + lp {
        month = 11;
        day = left - (304 + lp) + 1;
    } else {
        month = 12;
        day = left - (334 + lp) + 1;
    }
    let r = HttpDate { year: y, month, day, hour, minute, second, weekday };
    proof {
        assert(days_before_year(y as int) + days_before_month(is_leap_year(y as int), r.month as int)
            + r.day - 1 == days);
        assert(hour * 3600 + minute * 60 + second == rem);
    }
    r
}

pub open spec fn day_name(w: int) -> Seq<char>
    recommends
        0 <= w < 7,
{
    if w == 0 {
        "Sun"@
    } else if w == 1 {
        "Mon"@
    } else if w == 2 {
        "Tue"@
    } else if w == 3 {
        "Wed"@
    } else if w == 4 {
        "Thu"@
    } else if w == 5 {
        "Fri"@
    } else {
        "Sat"@
    }
}

pub open spec fn month_name(m: int) -> Seq<char>
    recommends
        1 <= m <= 12,
{
    if m == 1 {
        "Jan"@
    } else if m == 2 {
        "Feb"@
    } else if m == 3 {
        "Mar"@
    } else if m == 4 {
        "Apr"@
    } else if m == 5 {
        "May"@
    } else if m == 6 {
        "Jun"@
    } else if m == 7 {
        "Jul"@
    } else if m == 8 {
        "Aug"@
    } else if m == 9 {
        "Sep"@
    } else if m == 10 {
        "Oct"@
    } else if m == 11 {
        "Nov"@
    } else {
        "Dec"@
    }
}

pub open spec fn two_digits(n: int) -> Seq<u8>
    recommends
        0 <= n < 100,
{
    seq![(48 + n / 10) as u8, (48 + n % 10) as u8]
}

pub open spec fn four_digits(n: int) -> Seq<u8>
    recommends
        0 <= n < 10000,
{
    seq![
        (48 + n / 1000) as u8,
        (48 + (n / 100) % 10) as u8,
        (48 + (n / 10) % 10) as u8,
        (48 + n % 10) as u8,
    ]
}

/// The RFC 7231 fixed-date spelling of a broken-down moment, such as
/// `Sun, 06 Nov 1994 08:49:37 GMT`.
pub open spec fn http_date_bytes(d: HttpDate) -> Seq<u8> {
    vstd::utf8::encode_utf8(day_name(d.weekday as int)) + vstd::utf8::encode_utf8(", "@)
        + two_digits(d.day as int) + vstd::utf8::encode_utf8(" "@) + vstd::utf8::encode_utf8(
        month_name(d.month as int),
    ) + vstd::utf8::encode_utf8(" "@) + four_digits(d.year as int) + vstd::utf8::encode_utf8(" "@)
        + two_digits(d.hour as int) + vstd::utf8::encode_utf8(":"@) + two_digits(d.minute as int)
        + vstd::utf8::encode_utf8(":"@) + two_digits(d.second as int) + vstd::utf8::encode_utf8(
        " GMT"@,
    )
}

fn push_two_digits(out: &mut Vec<u8>, n: u64)
    requires
        n < 100,
    ensures
        final(out)@ == old(out)@ + two_digits(n as int),
{
    out.push((48 + n / 10) as u8);
    out.push((48 + n % 10) as u8);
    proof {
        assert(out@ =~= old(out)@ + two_digits(n as int));
    }
}

/// Formats a valid broken-down moment as an RFC 7231 fixed date.
#[verifier::rlimit(100)]
pub fn format_http_date(d: &HttpDate) -> (r: Vec<u8>)
    requires
        valid_date(*d),
    ensures
        r@ == http_date_bytes(*d),
{
    let mut out: Vec<u8> = Vec::new();
    let dn: &str = if d.weekday == 0 {
        "Sun"
    } else if d.weekday == 1 {
        "Mon"
    } else if d.weekday == 2 {
        "Tue"
    } else if d.weekday == 3 {
        "Wed"
    } else if d.weekday == 4 {
        "Thu"
    } else if d.weekday == 5 {
        "Fri"
    } else {
        "Sat"
    };
    out.extend_from_slice(dn.as_bytes());
    out.extend_from_slice(", ".as_bytes());
    push_two_digits(&mut out, d.day);
    out.extend_from_slice(" ".as_bytes());
    let mn: &str = if d.month == 1 {
        "Jan"
    } else if d.month == 2 {
        "Feb"
    } else if d.month == 3 {
        "Mar"
    } else if d.month == 4 {
        "Apr"
    } else if d.month == 5 {
        "May"
    } else if d.month == 6 {
        "Jun"
    } else if d.month == 7 {
        "Jul"
    } else if d.month == 8 {
        "Aug"
    } else if d.month == 9 {
        "Sep"
    } else if d.month == 10 {
        "Oct"
    } else if d.month == 11 {
        "Nov"
    } else {
        "Dec"
    };
    out.extend_from_slice(mn.as_bytes());
    out.extend_from_slice(" ".as_bytes());
    let y: u64 = d.year;
    out.push((48 + y / 1000) as u8);
    out.push((48 + (y / 100) % 10) as u8);
    out.push((48 + (y / 10) % 10) as u8);
    out.push((48 + y % 10) as u8);
    out.extend_from_slice(" ".as_bytes());
    push_two_digits(&mut out, d.hour);
    out.extend_from_slice(":".as_bytes());
    push_two_digits(&mut out, d.minute);
    out.extend_from_slice(":".as_bytes());
    push_two_digits(&mut out, d.second);
    out.extend_from_slice(" GMT".as_bytes());
    proof {
        assert(out@ =~= http_date_bytes(*d));
    }
    out
}


proof fn lemma_days_before_year_monotone(a: int, b: int)
    requires
        1970 <= a <= b,
    ensures
        days_before_year(a) <= days_before_year(b),
        a < b ==> days_before_year(a) + days_in_year(a) <= days_before_year(b),
    decreases b - a,
{
    if a < b {
        lemma_days_before_year_monotone(a + 1, b);
        lemma_days_before_year_step(a);
    }
}

proof fn lemma_days_before_month_monotone(l: bool, a: int, b: int)
    requires
        1 <= a <= b <= 12,
    ensures
        days_before_month(l, a) <= days_before_month(l, b),
    decreases b - a,
{
    if a < b {
        lemma_days_before_month_monotone(l, a + 1, b);
    }
}

/// The day-of-year offset of a valid date stays inside its year.
proof fn lemma_day_offset_bounds(d: HttpDate)
    requires
        valid_date(d),
    ensures
        0 <= days_before_month(is_leap_year(d.year as int), d.month as int) + d.day - 1
            < days_in_year(d.year as int),
{
}

/// A timestamp denotes at most one valid broken-down moment.
pub proof fn lemma_date_unique(d1: HttpDate, d2: HttpDate)
    requires
        valid_date(d1),
        valid_date(d2),
        timestamp_of(d1) == timestamp_of(d2),
        d1.weekday == d2.weekday,
    ensures
        d1 == d2,
{
    let t = timestamp_of(d1);
    let l1 = is_leap_year(d1.year as int);
    let l2 = is_leap_year(d2.year as int);
    let days1 = days_before_year(d1.year as int) + days_before_month(l1, d1.month as int) + d1.day
        - 1;
    let days2 = days_before_year(d2.year as int) + days_before_month(l2, d2.month as int) + d2.day
        - 1;
    let tp1 = d1.hour * 3600 + d1.minute * 60 + d1.second;
    let tp2 = d2.hour * 3600 + d2.minute * 60 + d2.second;
    lemma_fundamental_div_mod_converse(t, 86400, days1, tp1 as int);
    lemma_fundamental_div_mod_converse(t, 86400, days2, tp2 as int);
    assert(days1 == days2 && tp1 == tp2);
    lemma_fundamental_div_mod_converse(tp1 as int, 3600, d1.hour as int, (d1.minute * 60
        + d1.second) as int);
    lemma_fundamental_div_mod_converse(tp2 as int, 3600, d2.hour as int, (d2.minute * 60
        + d2.second) as int);
    assert(d1.hour == d2.hour);
    lemma_fundamental_div_mod_converse((d1.minute * 60 + d1.second) as int, 60, d1.minute as int, d1.second as int);
    lemma_fundamental_div_mod_converse((d2.minute * 60 + d2.second) as int, 60, d2.minute as int, d2.second as int);
    assert(d1.minute == d2.minute && d1.second == d2.second);
    lemma_day_offset_bounds(d1);
    lemma_day_offset_bounds(d2);
    if d1.year < d2.year {
        lemma_days_before_year_monotone(d1.year as int, d2.year as int);
        assert(false);
    }
    if d2.year < d1.year {
        lemma_days_before_year_monotone(d2.year as int, d1.year as int);
        assert(false);
    }
    assert(d1.year == d2.year);
    if d1.month < d2.month {
        assert(days_before_month(l1, d1.month as int) + days_in_month(l1, d1.month as int)
            == days_before_month(l1, d1.month as int + 1));
        lemma_days_before_month_monotone(l1, d1.month as int + 1, d2.month as int);
        assert(false);
    }
    if d2.month < d1.month {
        assert(days_before_month(l2, d2.month as int) + days_in_month(l2, d2.month as int)
            == days_before_month(l2, d2.month as int + 1));
        lemma_days_before_month_monotone(l2, d2.month as int + 1, d1.month as int);
        assert(false);
    }
    assert(d1.month == d2.month && d1.day == d2.day);
}

/// Formats a Unix timestamp as the RFC 7231 spelling of the one moment it
/// denotes.
pub fn http_date(t: u64) -> (r: Vec<u8>)
    requires
        t <= MAX_HTTP_DATE,
    ensures
        exists|d: HttpDate|
            #![trigger http_date_bytes(d)]
            valid_date(d) && timestamp_of(d) == t && d.weekday == ((t / 86400) + 4) % 7 && r@
                == http_date_bytes(d),
{
    let d = timestamp_to_date(t);
    format_http_date(&d)
}

} // verus!
