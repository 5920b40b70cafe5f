//! Civil-calendar arithmetic on Unix timestamps: the year a timestamp falls in,
//! its era bucket, and whether it fell on a weekend.

use vstd::prelude::*;

verus! {

/// Days from 0000-03-01 (proleptic Gregorian) to March 1 of year `y`.
pub open spec fn march_start(y: int) -> int {
    365 * y + y / 4 - y / 100 + y / 400
}

/// Days from 1970-01-01 to January 1 of year `y`.
pub open spec fn jan1_days(y: int) -> int {
    march_start(y - 1) + 306 - 719468
}

/// `y` is the civil year containing day number `days` (days since 1970-01-01).
pub open spec fn is_year_of_day(y: int, days: int) -> bool {
    jan1_days(y) <= days < jan1_days(y + 1)
}

/// Whole days since 1970-01-01 of a Unix timestamp (rounded toward minus infinity).
pub open spec fn unix_day(ts: int) -> int {
    ts / 86400
}

/// The civil year of a Unix timestamp.
pub open spec fn civil_year(ts: int) -> int
    recommends exists|y: int| is_year_of_day(y, unix_day(ts)),
{
    choose|y: int| is_year_of_day(y, unix_day(ts))
}

/// A March-based year is 365 days long, or 366 when the following February has a leap day.
proof fn lemma_march_step(y: int)
    ensures
        march_start(y + 1) - march_start(y) == 365 + (if (y + 1) % 4 == 0 { 1int } else { 0 }) - (
        if (y + 1) % 100 == 0 { 1int } else { 0 }) + (if (y + 1) % 400 == 0 { 1int } else { 0 }),
        365 <= march_start(y + 1) - march_start(y) <= 366,
{
    assert((y + 1) / 4 - y / 4 == (if (y + 1) % 4 == 0 { 1int } else { 0 }));
    assert((y + 1) / 100 - y / 100 == (if (y + 1) % 100 == 0 { 1int } else { 0 }));
    assert((y + 1) / 400 - y / 400 == (if (y + 1) % 400 == 0 { 1int } else { 0 }));
    if (y + 1) % 100 == 0 {
        assert((y + 1) % 4 == 0);
    }
    if (y + 1) % 400 == 0 {
        assert((y + 1) % 100 == 0);
    }
}


/// Every day of a 400-year era lies in exactly one March-based year of the era.
proof fn lemma_era_year_exists(a: int, y: int) -> (r: int)
    requires
        0 <= a,
        0 <= y <= 399,
        a < march_start(y + 1),
    ensures
        0 <= r <= y,
        march_start(r) <= a < march_start(r + 1),
    decreases y,
{
    if march_start(y) <= a {
        y
    } else {
        lemma_era_year_exists(a, y - 1)
    }
}

/// The day-of-era to year-of-era formula: `(a - a/1460 + a/36524 - a/146096) / 365`
/// is the March-based year of the era that contains day `a`.
proof fn lemma_year_of_era(a: int, y: int)
    requires
        0 <= y <= 399,
        march_start(y) <= a < march_start(y + 1),
    ensures
        (a - a / 1460 + a / 36524 - a / 146096) / 365 == y,
{
    lemma_march_step(y);
    let q = y / 4;
    let r = y % 4;
    let k = y / 100;
    let s = y % 100;
    let d = a - march_start(y);
    assert(y / 400 == 0);
    assert(march_start(y) == 1461 * q + 365 * r - k);
    assert(q == 25 * k + s / 4);
    assert(0 <= d <= 365);
    assert(d == 365 ==> r == 3);
    // the century of the era
    assert(march_start(y) == 36524 * k + 365 * s + s / 4);
    if s < 99 {
        lemma_march_step(y);
        assert(march_start(y + 1) == 36524 * k + 365 * (s + 1) + (s + 1) / 4);
        assert(a < 36524 * (k + 1));
        assert(a / 36524 == k);
        assert(a / 146096 == 0);
    } else {
        assert(y + 1 == 100 * (k + 1));
        if k < 3 {
            assert(march_start(y + 1) == 36524 * (k + 1));
            assert(a / 36524 == k);
            assert(a / 146096 == 0);
        } else {
            assert(march_start(y + 1) == 146097);
            if a == 146096 {
                assert(a / 36524 == 4);
                assert(a / 146096 == 1);
            } else {
                assert(a / 36524 == k);
                assert(a / 146096 == 0);
            }
        }
    }
    assert(a / 36524 - a / 146096 == k);
    // the four-year block
    let e = q - k + 365 * r + d;
    assert(a == 1460 * q + e);
    assert(0 <= e < 2920);
    let m: int = if e >= 1460 { 1 } else { 0 };
    assert(a / 1460 == q + m);
    assert(a - a / 1460 + a / 36524 - a / 146096 == 365 * y + d - m);
    assert(0 <= d - m <= 364);
}


/// January 1 moves forward by at least 365 days per year.
proof fn lemma_jan1_grows(a: int, b: int)
    requires
        a <= b,
    ensures
        jan1_days(a) + 365 * (b - a) <= jan1_days(b),
    decreases b - a,
{
    if a < b {
        lemma_jan1_grows(a, b - 1);
        lemma_march_step(b - 2);
    }
}

/// A day lies in at most one civil year.
pub proof fn lemma_year_unique(y1: int, y2: int, days: int)
    requires
        is_year_of_day(y1, days),
        is_year_of_day(y2, days),
    ensures
        y1 == y2,
{
    if y1 < y2 {
        lemma_jan1_grows(y1 + 1, y2);
    } else if y2 < y1 {
        lemma_jan1_grows(y2 + 1, y1);
    }
}

/// Shifting by whole 400-year eras shifts the March-year start by whole 146097-day eras.
proof fn lemma_march_shift(e: int, y: int)
    ensures
        march_start(400 * e + y) == 146097 * e + march_start(y),
{
    assert((400 * e + y) / 4 == 100 * e + y / 4);
    assert((400 * e + y) / 100 == 4 * e + y / 100);
    assert((400 * e + y) / 400 == e + y / 400);
}

/// Civil year of a Unix timestamp (days→civil conversion).
#[verifier::rlimit(40)]
pub fn year_from_unix(ts: i64) -> (year: i64)
    ensures
        is_year_of_day(year as int, unix_day(ts as int)),
        year == civil_year(ts as int),
{
    let days: i64 = match ts.checked_div_euclid(86_400) {
        Some(d) => d,
        None => 0,
    };
    let z: i64 = days + 719_468;
    let era: i64 = match z.checked_div_euclid(146_097) {
        Some(e) => e,
        None => 0,
    };
    let doe: i64 = z - era * 146_097;
    proof {
        let y0 = lemma_era_year_exists(doe as int, 399);
        lemma_year_of_era(doe as int, y0);
    }
    let yoe: i64 = (doe - doe / 1460 + doe / 36_524 - doe / 146_096) / 365;
    let doy: i64 = doe - (365 * yoe + yoe / 4 - yoe / 100);
    let mp: i64 = (5 * doy + 2) / 153;
    let m: i64 = if mp < 10 { mp + 3 } else { mp - 9 };
    let year: i64 = yoe + era * 400 + if m <= 2 { 1 } else { 0 };
    proof {
        let yy = 400 * era + yoe;
        lemma_march_shift(era as int, yoe as int);
        lemma_march_step(yy);
        lemma_march_step(yy - 1);
        assert(z == march_start(yy) + doy);
        assert(m <= 2 <==> doy >= 306);
        assert(is_year_of_day(year as int, unix_day(ts as int)));
        lemma_year_unique(year as int, civil_year(ts as int), unix_day(ts as int));
    }
    year
}


/// Era index of a civil year: up to 2009, 2010–2015, 2016–2020, 2021 on.
pub open spec fn era_of_year(y: int) -> nat {
    if y <= 2009 {
        0
    } else if y <= 2015 {
        1
    } else if y <= 2020 {
        2
    } else {
        3
    }
}

/// Era bucket of an authored timestamp; `None` for an unknown (non-positive) time.
pub open spec fn era_bucket_spec(ts: int) -> Option<usize> {
    if ts <= 0 {
        None
    } else {
        Some(era_of_year(civil_year(ts)) as usize)
    }
}

/// Era bucket of an authored timestamp; `None` for an unknown (non-positive) time.
pub fn era_bucket(ts: i64) -> (r: Option<usize>)
    ensures
        r == era_bucket_spec(ts as int),
{
    if ts <= 0 {
        return None;
    }
    let y = year_from_unix(ts);
    Some(
        if y <= 2009 {
            0
        } else if y <= 2015 {
            1
        } else if y <= 2020 {
            2
        } else {
            3
        },
    )
}

/// Day of week of a day number: 0 = Sunday … 6 = Saturday (1970-01-01 was a Thursday).
pub open spec fn day_of_week(days: int) -> int {
    (days + 4) % 7
}

/// Weekend bucket of an authored timestamp: `Some(1)` on Saturday or Sunday, `Some(0)`
/// on a weekday, `None` for an unknown (non-positive) time.
pub open spec fn weekend_bucket_spec(ts: int) -> Option<usize> {
    if ts <= 0 {
        None
    } else if day_of_week(unix_day(ts)) == 0 || day_of_week(unix_day(ts)) == 6 {
        Some(1usize)
    } else {
        Some(0usize)
    }
}

/// Weekend bucket of an authored timestamp.
pub fn weekend_bucket(ts: i64) -> (r: Option<usize>)
    ensures
        r == weekend_bucket_spec(ts as int),
{
    if ts <= 0 {
        return None;
    }
    let days: i64 = ts / 86_400;
    let dow: i64 = (days + 4) % 7;
    Some(if dow == 0 || dow == 6 { 1 } else { 0 })
}

} // verus!
