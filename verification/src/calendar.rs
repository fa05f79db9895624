//! Proleptic Gregorian calendar: day numbers relative to 1970-01-01 and the
//! conversion from a day number back to a civil date.
use vstd::prelude::*;
use crate::text::{padded_decimal, push_padded, string_from_chars, text_less, ten_pow, lemma_padded_decimal_order,
    lemma_text_less_concat, lemma_text_less_irreflexive};

verus! {

/// Gregorian leap-year rule.
pub open spec fn is_leap_year(y: int) -> bool {
    y % 4 == 0 && (y % 100 != 0 || y % 400 == 0)
}

/// Number of days in month `m` (1..=12) of year `y`.
pub open spec fn days_in_month(y: int, m: int) -> int {
    if m == 2 {
        if is_leap_year(y) { 29 } else { 28 }
    } else if m == 4 || m == 6 || m == 9 || m == 11 {
        30
    } else {
        31
    }
}

/// Days in the months of year `y` that come before month `m`.
pub open spec fn days_before_month(y: int, m: int) -> int
    decreases m,
{
    if m <= 1 {
        0
    } else {
        days_before_month(y, m - 1) + days_in_month(y, m - 1)
    }
}

/// Days from 0001-01-01 to the first of January of year `y`: 365 per year
/// plus one for every leap year before `y`.
pub open spec fn days_before_year(y: int) -> int {
    let p = y - 1;
    365 * p + p / 4 - p / 100 + p / 400
}

/// A real calendar date: month in 1..=12, day within the month.
pub open spec fn is_valid_date(y: int, m: int, d: int) -> bool {
    1 <= m <= 12 && 1 <= d <= days_in_month(y, m)
}

/// Number of days from 1970-01-01 to the given date (negative before it).
pub open spec fn days_from_civil(y: int, m: int, d: int) -> int {
    days_before_year(y) + days_before_month(y, m) + d - 1 - days_before_year(1970)
}

/// The date whose day number is `z`.
pub open spec fn civil_date(z: int) -> (int, int, int) {
    choose|y: int, m: int, d: int| is_valid_date(y, m, d) && days_from_civil(y, m, d) == z
}

/// Year, month and day of a day-of-era inside one 400-year era that begins
/// on the first of March: the decomposition the conversion relies on.
proof fn lemma_year_of_era(doe: int)
    requires
        0 <= doe <= 146096,
    ensures
        ({
            let yoe = (doe - doe / 1460 + doe / 36524 - doe / 146096) / 365;
            let doy = doe - (365 * yoe + yoe / 4 - yoe / 100);
            &&& 0 <= yoe <= 399
            &&& 0 <= doy <= 365
            &&& doy == 365 ==> is_leap_year(yoe + 1)
        }),
{
    if doe == 146096 {
        assert(doe / 1460 == 100);
        assert(doe / 36524 == 4);
        assert(doe / 146096 == 1);
    } else {
        let c = doe / 36524;
        let r = doe % 36524;
        let k = r / 1461;
        let s = r % 1461;
        assert(0 <= c <= 3);
        assert(0 <= k <= 24);
        assert(doe == 36524 * c + 1461 * k + s);
        assert(k == 24 ==> s <= 1459);
        let flag: int = if 24 * c + k + s >= 1460 { 1 } else { 0 };
        assert(doe == 1460 * (25 * c + k) + 24 * c + k + s);
        assert(doe / 1460 == 25 * c + k + flag);
        assert(doe / 36524 == c);
        assert(doe / 146096 == 0);
        let t = s - flag;
        assert(0 <= t <= 1459);
        let q = t / 365;
        assert(0 <= q <= 3);
        let yoe = (doe - doe / 1460 + doe / 36524 - doe / 146096) / 365;
        assert(doe - doe / 1460 + doe / 36524 - doe / 146096 == 36500 * c + 1460 * k + t);
        assert(yoe == 100 * c + 4 * k + q);
        assert(yoe / 4 == 25 * c + k);
        assert(yoe / 100 == c);
        let doy = doe - (365 * yoe + yoe / 4 - yoe / 100);
        assert(doy == s - 365 * q);
        if doy == 365 {
            assert(flag == 1);
            assert(q == 3);
            assert(k < 24);
            assert((yoe + 1) % 4 == 0);
            assert((yoe + 1) % 100 != 0);
        }
    }
}


/// Month and day inside a year that begins on the first of March.
proof fn lemma_month_of_year(doy: int)
    requires
        0 <= doy <= 365,
    ensures
        ({
            let mp = (5 * doy + 2) / 153;
            let d = doy - (153 * mp + 2) / 5 + 1;
            let m = if mp < 10 { mp + 3 } else { mp - 9 };
            &&& 0 <= mp <= 11
            &&& 1 <= m <= 12
            &&& 1 <= d
            &&& m != 2 ==> d <= days_in_month(0, m)
            &&& m == 2 ==> (d <= 28 || (d == 29 && doy == 365))
        }),
{
    let mp = (5 * doy + 2) / 153;
    assert(153 * mp <= 5 * doy + 2 < 153 * mp + 153);
    assert(0 <= mp <= 11);
    if mp == 0 { assert((153 * mp + 2) / 5 == 0); }
    else if mp == 1 { assert((153 * mp + 2) / 5 == 31); }
    else if mp == 2 { assert((153 * mp + 2) / 5 == 61); }
    else if mp == 3 { assert((153 * mp + 2) / 5 == 92); }
    else if mp == 4 { assert((153 * mp + 2) / 5 == 122); }
    else if mp == 5 { assert((153 * mp + 2) / 5 == 153); }
    else if mp == 6 { assert((153 * mp + 2) / 5 == 184); }
    else if mp == 7 { assert((153 * mp + 2) / 5 == 214); }
    else if mp == 8 { assert((153 * mp + 2) / 5 == 245); }
    else if mp == 9 { assert((153 * mp + 2) / 5 == 275); }
    else if mp == 10 { assert((153 * mp + 2) / 5 == 306); }
    else { assert((153 * mp + 2) / 5 == 337); }
}

/// Days before each month, in closed form.
proof fn lemma_days_before_month(y: int, m: int)
    requires
        1 <= m <= 12,
    ensures
        m == 1 ==> days_before_month(y, m) == 0,
        m == 2 ==> days_before_month(y, m) == 31,
        m >= 3 ==> days_before_month(y, m) == 59 + (if is_leap_year(y) { 1int } else { 0 })
            + (153 * (m - 3) + 2) / 5,
{
    reveal_with_fuel(days_before_month, 13);
}

/// Counting leap years up to `y` adds one exactly when `y` is a leap year.
#[verifier::spinoff_prover]
proof fn lemma_leap_count_step(y: int)
    ensures
        (y - 1) / 4 - (y - 1) / 100 + (y - 1) / 400 + (if is_leap_year(y) { 1int } else { 0 })
            == y / 4 - y / 100 + y / 400,
{
}

/// Quotients of a year written as `400 * era + yoe`.
proof fn lemma_era_split(era: int, yoe: int)
    requires
        0 <= yoe <= 399,
    ensures
        (400 * era + yoe) / 4 == 100 * era + yoe / 4,
        (400 * era + yoe) / 100 == 4 * era + yoe / 100,
        (400 * era + yoe) / 400 == era,
        is_leap_year(400 * era + yoe + 1) == is_leap_year(yoe + 1),
{
}

/// The day number of the date built from an era, a year of the era, a
/// March-based month index and a day.
proof fn lemma_days_from_era(era: int, yoe: int, mp: int, d: int)
    requires
        0 <= yoe <= 399,
        0 <= mp <= 11,
    ensures
        ({
            let y = 400 * era + yoe;
            let m = if mp < 10 { mp + 3 } else { mp - 9 };
            let year = if m <= 2 { y + 1 } else { y };
            days_from_civil(year, m, d) == era * 146097 + 365 * yoe + yoe / 4 - yoe / 100
                + (153 * mp + 2) / 5 + d - 1 - 719468
        }),
{
    let y = 400 * era + yoe;
    let m = if mp < 10 { mp + 3 } else { mp - 9 };
    let year = if m <= 2 { y + 1 } else { y };
    lemma_era_split(era, yoe);
    lemma_days_before_month(year, m);
    assert(days_before_year(1970) == 719162);
    if m <= 2 {
        assert(days_before_year(year) == 365 * y + y / 4 - y / 100 + y / 400);
    } else {
        lemma_leap_count_step(y);
    }
}


/// Length of year `y` in days, and the span covered by `days_before_year`.
proof fn lemma_year_length(y: int)
    ensures
        days_before_year(y + 1) - days_before_year(y) == 365 + (if is_leap_year(y) { 1int } else { 0 }),
{
    lemma_leap_count_step(y);
}

/// Later years start on later days.
proof fn lemma_days_before_year_monotone(y1: int, y2: int)
    requires
        y1 <= y2,
    ensures
        days_before_year(y1) <= days_before_year(y2),
    decreases y2 - y1,
{
    if y1 < y2 {
        lemma_days_before_year_monotone(y1, y2 - 1);
        lemma_year_length(y2 - 1);
    }
}

/// The day of the year of a valid date lies within that year.
proof fn lemma_day_of_year_bounds(y: int, m: int, d: int)
    requires
        is_valid_date(y, m, d),
    ensures
        0 <= days_before_month(y, m) + d - 1 < 365 + (if is_leap_year(y) { 1int } else { 0 }),
{
    lemma_days_before_month(y, m);
}

/// Within one year, the day of the year determines month and day.
proof fn lemma_day_of_year_injective(y: int, m1: int, d1: int, m2: int, d2: int)
    requires
        is_valid_date(y, m1, d1),
        is_valid_date(y, m2, d2),
        days_before_month(y, m1) + d1 == days_before_month(y, m2) + d2,
    ensures
        m1 == m2 && d1 == d2,
{
    lemma_days_before_month(y, m1);
    lemma_days_before_month(y, m2);
}

/// Different valid dates have different day numbers.
pub proof fn lemma_days_from_civil_injective(y1: int, m1: int, d1: int, y2: int, m2: int, d2: int)
    requires
        is_valid_date(y1, m1, d1),
        is_valid_date(y2, m2, d2),
        days_from_civil(y1, m1, d1) == days_from_civil(y2, m2, d2),
    ensures
        y1 == y2 && m1 == m2 && d1 == d2,
{
    lemma_day_of_year_bounds(y1, m1, d1);
    lemma_day_of_year_bounds(y2, m2, d2);
    if y1 < y2 {
        lemma_year_length(y1);
        lemma_days_before_year_monotone(y1 + 1, y2);
    } else if y2 < y1 {
        lemma_year_length(y2);
        lemma_days_before_year_monotone(y2 + 1, y1);
    } else {
        lemma_day_of_year_injective(y1, m1, d1, m2, d2);
    }
}

/// A date found for day number `z` is the date `civil_date(z)`.
pub proof fn lemma_civil_date_unique(z: int, y: int, m: int, d: int)
    requires
        is_valid_date(y, m, d),
        days_from_civil(y, m, d) == z,
    ensures
        civil_date(z) == (y, m, d),
{
    let (y2, m2, d2) = civil_date(z);
    lemma_days_from_civil_injective(y, m, d, y2, m2, d2);
}

/// Every day number is the day number of a date, which `civil_date` picks;
/// days from 1970-01-01 on fall in years from 1970 on.
pub proof fn lemma_civil_date(z: int)
    ensures
        is_valid_date(civil_date(z).0, civil_date(z).1, civil_date(z).2),
        days_from_civil(civil_date(z).0, civil_date(z).1, civil_date(z).2) == z,
        z >= 0 ==> civil_date(z).0 >= 1970,
{
    let zz = z + 719468;
    let era = zz / 146097;
    let doe = zz - era * 146097;
    lemma_year_of_era(doe);
    let yoe = (doe - doe / 1460 + doe / 36524 - doe / 146096) / 365;
    let doy = doe - (365 * yoe + yoe / 4 - yoe / 100);
    lemma_month_of_year(doy);
    let mp = (5 * doy + 2) / 153;
    let d = doy - (153 * mp + 2) / 5 + 1;
    let m = if mp < 10 { mp + 3 } else { mp - 9 };
    let y = 400 * era + yoe;
    let year = if m <= 2 { y + 1 } else { y };
    lemma_days_from_era(era, yoe, mp, d);
    lemma_era_split(era, yoe);
    assert(is_valid_date(year, m, d));
    lemma_civil_date_unique(z, year, m, d);
    if z >= 0 && year < 1970 {
        lemma_day_of_year_bounds(year, m, d);
        lemma_year_length(year);
        lemma_days_before_year_monotone(year + 1, 1970);
    }
}

/// Later months start later in the year.
proof fn lemma_days_before_month_monotone(y: int, a: int, b: int)
    requires
        1 <= a <= b,
    ensures
        days_before_month(y, a) <= days_before_month(y, b),
    decreases b - a,
{
    if a < b {
        lemma_days_before_month_monotone(y, a, b - 1);
    }
}

/// Later dates (by year, then month, then day) have larger day numbers.
pub proof fn lemma_days_from_civil_order(y1: int, m1: int, d1: int, y2: int, m2: int, d2: int)
    requires
        is_valid_date(y1, m1, d1),
        is_valid_date(y2, m2, d2),
        y1 < y2 || (y1 == y2 && (m1 < m2 || (m1 == m2 && d1 < d2))),
    ensures
        days_from_civil(y1, m1, d1) < days_from_civil(y2, m2, d2),
{
    lemma_day_of_year_bounds(y1, m1, d1);
    lemma_day_of_year_bounds(y2, m2, d2);
    if y1 < y2 {
        lemma_year_length(y1);
        lemma_days_before_year_monotone(y1 + 1, y2);
    } else if m1 < m2 {
        assert(days_before_month(y1, m1 + 1) == days_before_month(y1, m1) + days_in_month(y1, m1));
        lemma_days_before_month_monotone(y1, m1 + 1, m2);
    }
}

/// The civil date of day number `z` (days since 1970-01-01).
pub fn civil_from_days(z: i64) -> (r: (i64, u32, u32))
    requires
        z <= i64::MAX - 719468,
    ensures
        is_valid_date(r.0 as int, r.1 as int, r.2 as int),
        days_from_civil(r.0 as int, r.1 as int, r.2 as int) == z,
        z >= -719468 ==> r.0 >= 0,
        (r.0 as int, r.1 as int, r.2 as int) == civil_date(z as int),
{
    let z = z + 719_468;
    let era = if z >= 0 { z } else { z - 146_096 } / 146_097;
    assert(era == z as int / 146097);
    let doe = z - era * 146_097;
    proof {
        lemma_year_of_era(doe as int);
    }
    let yoe = (doe - doe / 1460 + doe / 36524 - doe / 146_096) / 365;
    let y = yoe + era * 400;
    let doy = doe - (365 * yoe + yoe / 4 - yoe / 100);
    proof {
        lemma_month_of_year(doy as int);
    }
    let mp = (5 * doy + 2) / 153;
    let d = (doy - (153 * mp + 2) / 5 + 1) as u32;
    let m = (if mp < 10 { mp + 3 } else { mp - 9 }) as u32;
    let year = if m <= 2 { y + 1 } else { y };
    proof {
        lemma_days_from_era(era as int, yoe as int, mp as int, d as int);
        lemma_era_split(era as int, yoe as int);
        lemma_civil_date_unique(z - 719468, year as int, m as int, d as int);
    }
    (year, m, d)
}

/// `YYYY-MM-DDTHH:MM:SSZ` text of a time given in seconds since the epoch.
pub open spec fn timestamp_text(secs: nat) -> Seq<char> {
    let (y, m, d) = civil_date(secs as int / 86400);
    let tod = secs % 86400;
    padded_decimal(y as nat, 4) + seq!['-'] + padded_decimal(m as nat, 2) + seq!['-']
        + padded_decimal(d as nat, 2) + seq!['T'] + padded_decimal(tod / 3600, 2) + seq![':']
        + padded_decimal((tod % 3600) / 60, 2) + seq![':'] + padded_decimal(tod % 60, 2)
        + seq!['Z']
}

/// Formats a modification time (seconds since the epoch) as an ISO-8601
/// UTC timestamp, `YYYY-MM-DDTHH:MM:SSZ`.
pub fn format_systime(secs: u64) -> (s: String)
    ensures
        s@ == timestamp_text(secs as nat),
{
    let days = secs / 86_400;
    let (y, m, d) = civil_from_days(days as i64);
    let tod = secs % 86_400;
    let mut out: Vec<char> = Vec::new();
    push_padded(&mut out, y as u64, 4);
    out.push('-');
    push_padded(&mut out, m as u64, 2);
    out.push('-');
    push_padded(&mut out, d as u64, 2);
    out.push('T');
    push_padded(&mut out, tod / 3600, 2);
    out.push(':');
    push_padded(&mut out, (tod % 3600) / 60, 2);
    out.push(':');
    push_padded(&mut out, tod % 60, 2);
    out.push('Z');
    assert(out@ =~= timestamp_text(secs as nat));
    string_from_chars(&out)
}

/// Year, month, day, hour, minute and second of a time given in seconds
/// since the epoch, as its timestamp shows them.
pub open spec fn time_fields(secs: nat) -> (int, int, int, int, int, int) {
    let (y, m, d) = civil_date(secs as int / 86400);
    let tod = secs % 86400;
    (y, m, d, (tod / 3600) as int, ((tod % 3600) / 60) as int, (tod % 60) as int)
}

/// Field tuples in order: by year, then month, day, hour, minute, second.
pub open spec fn fields_less(p: (int, int, int, int, int, int), q: (int, int, int, int, int, int)) -> bool {
    if p.0 != q.0 {
        p.0 < q.0
    } else if p.1 != q.1 {
        p.1 < q.1
    } else if p.2 != q.2 {
        p.2 < q.2
    } else if p.3 != q.3 {
        p.3 < q.3
    } else if p.4 != q.4 {
        p.4 < q.4
    } else {
        p.5 < q.5
    }
}

/// Times are ordered as their fields are.
proof fn lemma_time_fields_order(a: nat, b: nat)
    ensures
        fields_less(time_fields(a), time_fields(b)) <==> a < b,
        (time_fields(a) == time_fields(b)) <==> a == b,
{
    let za = a as int / 86400;
    let zb = b as int / 86400;
    lemma_civil_date(za);
    lemma_civil_date(zb);
    let (ya, ma, da) = civil_date(za);
    let (yb, mb, db) = civil_date(zb);
    let ta = a % 86400;
    let tb = b % 86400;
    assert(a == za * 86400 + ta);
    assert(b == zb * 86400 + tb);
    let fa = time_fields(a);
    let fb = time_fields(b);
    assert(ta == 3600 * fa.3 + 60 * fa.4 + fa.5 && 0 <= fa.4 < 60 && 0 <= fa.5 < 60);
    assert(tb == 3600 * fb.3 + 60 * fb.4 + fb.5 && 0 <= fb.4 < 60 && 0 <= fb.5 < 60);
    if za < zb {
        if ya == yb && ma == mb && da == db {
            assert(false);
        }
        if yb < ya || (yb == ya && (mb < ma || (mb == ma && db < da))) {
            lemma_days_from_civil_order(yb, mb, db, ya, ma, da);
        }
    } else if zb < za {
        if ya == yb && ma == mb && da == db {
            assert(false);
        }
        if ya < yb || (ya == yb && (ma < mb || (ma == mb && da < db))) {
            lemma_days_from_civil_order(ya, ma, da, yb, mb, db);
        }
    }
}

/// A field padded to `w` places, a separator, then the rest of a timestamp.
#[verifier::opaque]
spec fn field_then(x: nat, w: nat, sep: char, rest: Seq<char>) -> Seq<char> {
    padded_decimal(x, w) + (seq![sep] + rest)
}

/// The timestamp text of a tuple of fields.
spec fn stamp_of(f: (int, int, int, int, int, int)) -> Seq<char> {
    field_then(
        f.0 as nat,
        4,
        '-',
        field_then(
            f.1 as nat,
            2,
            '-',
            field_then(
                f.2 as nat,
                2,
                'T',
                field_then(f.3 as nat, 2, ':', field_then(f.4 as nat, 2, ':', field_then(f.5 as nat, 2, 'Z', Seq::empty()))),
            ),
        ),
    )
}

/// A timestamp is the text of its fields.
proof fn lemma_stamp_of(a: nat)
    ensures
        timestamp_text(a) == stamp_of(time_fields(a)),
{
    reveal(field_then);
    let f = time_fields(a);
    assert(timestamp_text(a) =~= stamp_of(f));
}

/// One fixed-width field, a separator, then the rest: texts compare by the
/// field first, then by the rest.
proof fn lemma_field_step(x: nat, y: nat, w: nat, sep: char, p: Seq<char>, q: Seq<char>)
    requires
        w >= 1,
        x < ten_pow(w),
        y < ten_pow(w),
    ensures
        text_less(field_then(x, w, sep, p), field_then(y, w, sep, q)) <==> (x < y || (x == y && text_less(p, q))),
        (field_then(x, w, sep, p) == field_then(y, w, sep, q)) <==> (x == y && p == q),
{
    reveal(field_then);
    lemma_padded_decimal_order(x, y, w);
    lemma_text_less_concat(padded_decimal(x, w), seq![sep] + p, padded_decimal(y, w), seq![sep] + q);
    lemma_text_less_concat(seq![sep], p, seq![sep], q);
    lemma_text_less_irreflexive(seq![sep]);
}

/// Timestamps with four-digit years compare as texts as their fields do.
proof fn lemma_timestamp_text_fields(a: nat, b: nat)
    requires
        1970 <= time_fields(a).0 <= 9999,
        1970 <= time_fields(b).0 <= 9999,
        is_valid_date(time_fields(a).0, time_fields(a).1, time_fields(a).2),
        is_valid_date(time_fields(b).0, time_fields(b).1, time_fields(b).2),
    ensures
        text_less(timestamp_text(a), timestamp_text(b)) <==> fields_less(time_fields(a), time_fields(b)),
        (timestamp_text(a) == timestamp_text(b)) <==> time_fields(a) == time_fields(b),
{
    let fa = time_fields(a);
    let fb = time_fields(b);
    lemma_stamp_of(a);
    lemma_stamp_of(b);
    assert(ten_pow(2) == 100 && ten_pow(4) == 10000) by {
        reveal_with_fuel(ten_pow, 5);
    }
    assert(0 <= fa.3 < 24 && 0 <= fa.4 < 60 && 0 <= fa.5 < 60);
    assert(0 <= fb.3 < 24 && 0 <= fb.4 < 60 && 0 <= fb.5 < 60);
    let e = Seq::<char>::empty();
    let r5a = field_then(fa.5 as nat, 2, 'Z', e);
    let r4a = field_then(fa.4 as nat, 2, ':', r5a);
    let r3a = field_then(fa.3 as nat, 2, ':', r4a);
    let r2a = field_then(fa.2 as nat, 2, 'T', r3a);
    let r1a = field_then(fa.1 as nat, 2, '-', r2a);
    let r5b = field_then(fb.5 as nat, 2, 'Z', e);
    let r4b = field_then(fb.4 as nat, 2, ':', r5b);
    let r3b = field_then(fb.3 as nat, 2, ':', r4b);
    let r2b = field_then(fb.2 as nat, 2, 'T', r3b);
    let r1b = field_then(fb.1 as nat, 2, '-', r2b);
    lemma_text_less_irreflexive(e);
    lemma_field_step(fa.5 as nat, fb.5 as nat, 2, 'Z', e, e);
    lemma_field_step(fa.4 as nat, fb.4 as nat, 2, ':', r5a, r5b);
    lemma_field_step(fa.3 as nat, fb.3 as nat, 2, ':', r4a, r4b);
    lemma_field_step(fa.2 as nat, fb.2 as nat, 2, 'T', r3a, r3b);
    lemma_field_step(fa.1 as nat, fb.1 as nat, 2, '-', r2a, r2b);
    lemma_field_step(fa.0 as nat, fb.0 as nat, 4, '-', r1a, r1b);
}

/// Times before the year 10000 have four-digit years from 1970 on.
proof fn lemma_four_digit_year(a: nat)
    requires
        a < 253402300800,
    ensures
        1970 <= time_fields(a).0 <= 9999,
        is_valid_date(time_fields(a).0, time_fields(a).1, time_fields(a).2),
{
    let z = a as int / 86400;
    lemma_civil_date(z);
    let (y, m, d) = civil_date(z);
    assert(z < 2932897);
    assert(days_before_year(1970) == 719162);
    assert(days_from_civil(10000, 1, 1) == 2932897);
    if y >= 10000 && !(y == 10000 && m == 1 && d == 1) {
        assert(is_valid_date(10000, 1, 1));
        lemma_days_from_civil_order(10000, 1, 1, y, m, d);
    }
}

/// Timestamps sort as the times they stand for: for times before the year
/// 10000 (four-digit years), the text of one comes before the text of the
/// other, in plain string order, exactly when it is the earlier time, and
/// the texts are equal exactly when the times are.
pub proof fn lemma_timestamp_order(a: nat, b: nat)
    requires
        a < 253402300800,
        b < 253402300800,
    ensures
        text_less(timestamp_text(a), timestamp_text(b)) <==> a < b,
        (timestamp_text(a) == timestamp_text(b)) <==> a == b,
{
    lemma_four_digit_year(a);
    lemma_four_digit_year(b);
    lemma_timestamp_text_fields(a, b);
    lemma_time_fields_order(a, b);
}

} // verus!
