//! The proleptic Gregorian calendar, and the timestamps the service stores.

use vstd::prelude::*;
use vstd::arithmetic::div_mod::{lemma_fundamental_div_mod, lemma_fundamental_div_mod_converse};
use crate::text::{
    char_lex_less, fixed_digits, lemma_char_lex_concat,
    lemma_fixed_digits_order, lemma_padded_is_fixed, padded_decimal, pow10, push_char, push_padded,
};
use vstd::utf8::{is_ascii_chars, is_ascii_chars_concat};

verus! {

pub open spec fn is_leap_year(y: int) -> bool {
    y % 4 == 0 && (y % 100 != 0 || y % 400 == 0)
}

pub open spec fn leap_int(y: int) -> int {
    if is_leap_year(y) { 1 } else { 0 }
}

pub open spec fn days_in_month(y: int, m: int) -> int {
    if m == 2 {
        28 + leap_int(y)
    } else if m == 4 || m == 6 || m == 9 || m == 11 {
        30
    } else {
        31
    }
}

pub open spec fn is_valid_date(y: int, m: int, d: int) -> bool {
    1 <= m <= 12 && 1 <= d <= days_in_month(y, m)
}

/// Number of leap years in `[1, y)`; for `y < 1` it is minus the number of
/// leap years in `[y, 1)`, so differences count the leap years between two years.
pub open spec fn leap_years_before(y: int) -> int {
    (y - 1) / 4 - (y - 1) / 100 + (y - 1) / 400
}

/// Days from 1970-01-01 to January 1st of year `y`.
pub open spec fn days_before_year(y: int) -> int {
    365 * (y - 1970) + leap_years_before(y) - leap_years_before(1970)
}

/// Days from January 1st of year `y` to the first day of month `m`.
pub open spec fn days_before_month(y: int, m: int) -> int {
    let common: int = if m <= 1 {
        0
    } else if m == 2 {
        31
    } else if m == 3 {
        59
    } else if m == 4 {
        90
    } else if m == 5 {
        120
    } else if m == 6 {
        151
    } else if m == 7 {
        181
    } else if m == 8 {
        212
    } else if m == 9 {
        243
    } else if m == 10 {
        273
    } else if m == 11 {
        304
    } else {
        334
    };
    if m > 2 { common + leap_int(y) } else { common }
}

/// Day number of the date `y-m-d`, counted from 1970-01-01 (day 0).
pub open spec fn days_from_civil(y: int, m: int, d: int) -> int {
    days_before_year(y) + days_before_month(y, m) + d - 1
}

/// `(y, m, d)` is the date of day number `n`.
pub open spec fn is_date_of_day(n: int, y: int, m: int, d: int) -> bool {
    is_valid_date(y, m, d) && days_from_civil(y, m, d) == n
}

/// The date of day number `n` (days since 1970-01-01, negative before it).
pub open spec fn civil_from_days(n: int) -> (int, int, int) {
    choose|y: int, m: int, d: int| is_date_of_day(n, y, m, d)
}

// ── Lemmas on the calendar ──────────────────────────────────────────────────

proof fn lemma_div_step(y: int, d: int)
    requires
        d > 0,
    ensures
        y / d - (y - 1) / d == (if y % d == 0 { 1int } else { 0int }),
{
    let q = (y - 1) / d;
    let r = (y - 1) % d;
    lemma_fundamental_div_mod(y - 1, d);
    assert(0 <= r < d);
    if r == d - 1 {
        assert(y == (q + 1) * d + 0) by (nonlinear_arith)
            requires
                y - 1 == d * q + r,
                r == d - 1,
        ;
        lemma_fundamental_div_mod_converse(y, d, q + 1, 0);
    } else {
        assert(y == q * d + (r + 1)) by (nonlinear_arith)
            requires
                y - 1 == d * q + r,
        ;
        lemma_fundamental_div_mod_converse(y, d, q, r + 1);
    }
}

proof fn lemma_leap_years_step(y: int)
    ensures
        leap_years_before(y + 1) == leap_years_before(y) + leap_int(y),
{
    lemma_div_step(y, 4);
    lemma_div_step(y, 100);
    lemma_div_step(y, 400);
    lemma_fundamental_div_mod(y, 400);
    lemma_fundamental_div_mod(y, 100);
    if y % 400 == 0 {
        lemma_fundamental_div_mod_converse(y, 100, 4 * (y / 400), 0);
    }
    if y % 100 == 0 {
        lemma_fundamental_div_mod_converse(y, 4, 25 * (y / 100), 0);
    }
}

/// A year has 365 days, 366 in a leap year.
pub proof fn lemma_year_length(y: int)
    ensures
        days_before_year(y + 1) == days_before_year(y) + 365 + leap_int(y),
{
    lemma_leap_years_step(y);
}

proof fn lemma_shift_div(x: int, d: int, k: int)
    requires
        d > 0,
    ensures
        (x + d * k) / d == x / d + k,
        (x + d * k) % d == x % d,
{
    lemma_fundamental_div_mod(x, d);
    let q = x / d;
    let r = x % d;
    assert(x + d * k == (q + k) * d + r) by (nonlinear_arith)
        requires
            x == d * q + r,
    ;
    lemma_fundamental_div_mod_converse(x + d * k, d, q + k, r);
}

/// The calendar repeats every 400 years, which last 146097 days.
pub proof fn lemma_era_shift(y: int, m: int, d: int, e: int)
    ensures
        days_from_civil(y + 400 * e, m, d) == days_from_civil(y, m, d) + 146097 * e,
        is_valid_date(y + 400 * e, m, d) == is_valid_date(y, m, d),
{
    lemma_shift_div(y - 1, 4, 100 * e);
    lemma_shift_div(y - 1, 100, 4 * e);
    lemma_shift_div(y - 1, 400, e);
    lemma_shift_div(y, 4, 100 * e);
    lemma_shift_div(y, 100, 4 * e);
    lemma_shift_div(y, 400, e);
    assert(leap_years_before(y + 400 * e) == leap_years_before(y) + 97 * e);
    assert(leap_int(y + 400 * e) == leap_int(y));
}

/// Day number of March 1st of year `k`.
proof fn lemma_march_first(k: int)
    ensures
        days_from_civil(k, 3, 1) == 365 * k + k / 4 - k / 100 + k / 400 - 719468,
{
    lemma_leap_years_step(k);
    assert(leap_years_before(1970) == 477);
}

/// First day of the month `mp` months after March of year `k`, and that month's length.
proof fn lemma_month_of_march_year(k: int, mp: int)
    requires
        0 <= mp <= 11,
    ensures
        ({
            let mo = if mp < 10 { mp + 3 } else { mp - 9 };
            let yy = if mp < 10 { k } else { k + 1 };
            &&& days_from_civil(yy, mo, 1) == days_from_civil(k, 3, 1) + (153 * mp + 2) / 5
            &&& mp < 11 ==> days_in_month(yy, mo) == (153 * (mp + 1) + 2) / 5 - (153 * mp + 2) / 5
            &&& mp == 11 ==> days_in_month(yy, mo) == 28 + leap_int(k + 1)
        }),
{
    lemma_year_length(k);
    if mp == 0 {
    } else if mp == 1 {
    } else if mp == 2 {
    } else if mp == 3 {
    } else if mp == 4 {
    } else if mp == 5 {
    } else if mp == 6 {
    } else if mp == 7 {
    } else if mp == 8 {
    } else if mp == 9 {
    } else if mp == 10 {
    } else {
    }
}

/// The month index (from March) of day `doy` of a March-based year.
proof fn lemma_month_index(doy: int)
    requires
        0 <= doy <= 365,
    ensures
        ({
            let mp = (5 * doy + 2) / 153;
            &&& 0 <= mp <= 11
            &&& (153 * mp + 2) / 5 <= doy
            &&& mp < 11 ==> doy < (153 * (mp + 1) + 2) / 5
        }),
{
    let mp = (5 * doy + 2) / 153;
    lemma_fundamental_div_mod(5 * doy + 2, 153);
    lemma_fundamental_div_mod(153 * mp + 2, 5);
    lemma_fundamental_div_mod(153 * (mp + 1) + 2, 5);
}

/// Start of the March-based year `k` (`0 <= k < 400`) within its 400-year era.
pub open spec fn year_of_era_start(k: int) -> int {
    365 * k + k / 4 - k / 100
}

/// The year of era computed from the day of era `doe` (`0 <= doe <= 146096`).
proof fn lemma_year_of_era(doe: int)
    requires
        0 <= doe <= 146096,
    ensures
        ({
            let yoe = (doe - doe / 1460 + doe / 36524 - doe / 146096) / 365;
            &&& 0 <= yoe <= 399
            &&& year_of_era_start(yoe) <= doe
            &&& doe < year_of_era_start(yoe) + 365 + leap_int(yoe + 1)
        }),
{
    let c: int = if doe / 36524 < 4 { doe / 36524 } else { 3 };
    let rem1 = doe - 36524 * c;
    lemma_fundamental_div_mod(doe, 36524);
    assert(0 <= rem1 <= 36524);
    assert(rem1 == 36524 ==> c == 3);
    let b = rem1 / 1461;
    lemma_fundamental_div_mod(rem1, 1461);
    let rem2 = rem1 - 1461 * b;
    assert(0 <= b <= 24);
    assert(0 <= rem2 <= 1460);
    assert(b == 24 ==> rem2 <= 1459 || c == 3);
    let t: int = if rem2 / 365 < 4 { rem2 / 365 } else { 3 };
    lemma_fundamental_div_mod(rem2, 365);
    let r = rem2 - 365 * t;
    assert(0 <= t <= 3);
    assert(0 <= r <= 365);
    assert(r == 365 ==> t == 3 && rem2 == 1460);
    let a = 25 * c + b;
    let y = 4 * a + t;
    lemma_fundamental_div_mod_converse(y, 4, a, t);
    lemma_fundamental_div_mod_converse(a, 25, c, b);
    lemma_fundamental_div_mod_converse(y, 100, c, 4 * b + t);
    assert(year_of_era_start(y) == 365 * y + a - c);
    assert(doe == 1461 * a + 365 * t - c + r);
    // doe / 1460
    let e1: int = if a - c + 365 * t + r >= 1460 { 1 } else { 0 };
    assert(0 <= a - c <= 96);
    lemma_fundamental_div_mod_converse(doe, 1460, a + e1, a - c + 365 * t + r - 1460 * e1);
    // doe / 36524 and doe / 146096
    let e2: int = if doe == 146096 { 1 } else { 0 };
    assert(doe == 36524 * c + 1461 * b + 365 * t + r);
    assert(1461 * b + 365 * t + r <= 36524);
    assert(1461 * b + 365 * t + r == 36524 ==> doe == 146096);
    lemma_fundamental_div_mod_converse(doe, 36524, c + e2, 1461 * b + 365 * t + r - 36524 * e2);
    lemma_fundamental_div_mod_converse(doe, 146096, e2, doe - 146096 * e2);
    let g = doe - doe / 1460 + doe / 36524 - doe / 146096;
    assert(g == 365 * y + r - e1);
    assert(r == 365 ==> e1 == 1);
    assert(e1 == 1 ==> r >= 1);
    lemma_fundamental_div_mod_converse(g, 365, y, r - e1);
    // the length of the March-based year y
    lemma_fundamental_div_mod(y + 1, 4);
    lemma_fundamental_div_mod(y + 1, 100);
    lemma_fundamental_div_mod(y + 1, 400);
    if t == 3 {
        lemma_fundamental_div_mod_converse(y + 1, 4, a + 1, 0);
        if b == 24 {
            lemma_fundamental_div_mod_converse(y + 1, 100, c + 1, 0);
            if c == 3 {
                lemma_fundamental_div_mod_converse(y + 1, 400, 1, 0);
            } else {
                lemma_fundamental_div_mod_converse(y + 1, 400, 0, y + 1);
            }
        } else {
            lemma_fundamental_div_mod_converse(y + 1, 100, c, 4 * b + 4);
        }
    }
    assert(r == 365 ==> leap_int(y + 1) == 1);
}

/// The date of day number `n` as computed in `format_unix_to_datetime`
/// (after H. Hinnant's `civil_from_days`).
spec fn computed_date(n: int) -> (int, int, int) {
    let z = n + 719468;
    let era = z / 146097;
    let doe = z - era * 146097;
    let yoe = (doe - doe / 1460 + doe / 36524 - doe / 146096) / 365;
    let doy = doe - (365 * yoe + yoe / 4 - yoe / 100);
    let mp = (5 * doy + 2) / 153;
    let d = doy - (153 * mp + 2) / 5 + 1;
    let mo = if mp < 10 { mp + 3 } else { mp - 9 };
    let y = yoe + era * 400;
    (if mo <= 2 { y + 1 } else { y }, mo, d)
}

proof fn lemma_computed_date(n: int)
    ensures
        is_date_of_day(n, computed_date(n).0, computed_date(n).1, computed_date(n).2),
{
    let z = n + 719468;
    let era = z / 146097;
    let doe = z - era * 146097;
    lemma_fundamental_div_mod(z, 146097);
    assert(0 <= doe <= 146096);
    lemma_year_of_era(doe);
    let yoe = (doe - doe / 1460 + doe / 36524 - doe / 146096) / 365;
    let doy = doe - (365 * yoe + yoe / 4 - yoe / 100);
    assert(0 <= doy <= 365);
    lemma_month_index(doy);
    let mp = (5 * doy + 2) / 153;
    lemma_month_of_march_year(yoe, mp);
    lemma_march_first(yoe);
    assert(yoe / 400 == 0);
    let mo = if mp < 10 { mp + 3 } else { mp - 9 };
    let yy = if mp < 10 { yoe } else { yoe + 1 };
    let d = doy - (153 * mp + 2) / 5 + 1;
    assert(days_from_civil(yy, mo, d) == days_from_civil(yy, mo, 1) + d - 1);
    assert(days_from_civil(yy, mo, d) == doe - 719468);
    assert(is_valid_date(yy, mo, d));
    lemma_era_shift(yy, mo, d, era);
    assert(yy + 400 * era == computed_date(n).0);
}

/// Years are laid out one after another: a later year starts after an earlier one ends.
proof fn lemma_years_ordered(y1: int, y2: int)
    requires
        y1 < y2,
    ensures
        days_before_year(y1 + 1) <= days_before_year(y2),
    decreases y2 - y1,
{
    if y1 + 1 < y2 {
        lemma_years_ordered(y1 + 1, y2);
        lemma_year_length(y1 + 1);
    }
}

/// A valid date lies within its year.
proof fn lemma_date_within_year(y: int, m: int, d: int)
    requires
        is_valid_date(y, m, d),
    ensures
        days_before_year(y) <= days_from_civil(y, m, d) < days_before_year(y + 1),
{
    lemma_year_length(y);
}

/// Two valid dates with the same day number are the same date.
pub proof fn lemma_date_unique(n: int, y1: int, m1: int, d1: int, y2: int, m2: int, d2: int)
    requires
        is_date_of_day(n, y1, m1, d1),
        is_date_of_day(n, y2, m2, d2),
    ensures
        y1 == y2 && m1 == m2 && d1 == d2,
{
    lemma_date_within_year(y1, m1, d1);
    lemma_date_within_year(y2, m2, d2);
    if y1 < y2 {
        lemma_years_ordered(y1, y2);
    } else if y2 < y1 {
        lemma_years_ordered(y2, y1);
    }
    assert(y1 == y2);
}

/// Every day number has exactly one date, and `civil_from_days` gives it.
pub proof fn lemma_civil_from_days(n: int)
    ensures
        is_date_of_day(n, civil_from_days(n).0, civil_from_days(n).1, civil_from_days(n).2),
        forall|y: int, m: int, d: int| is_date_of_day(n, y, m, d) ==> civil_from_days(n) == (y, m, d),
{
    lemma_computed_date(n);
    let (y, m, d) = computed_date(n);
    assert(is_date_of_day(n, y, m, d));
    let c = civil_from_days(n);
    assert(is_date_of_day(n, c.0, c.1, c.2));
    lemma_date_unique(n, y, m, d, c.0, c.1, c.2);
    assert forall|y2: int, m2: int, d2: int| is_date_of_day(n, y2, m2, d2) implies civil_from_days(n) == (y2, m2, d2) by {
        lemma_date_unique(n, y, m, d, y2, m2, d2);
    }
}

proof fn lemma_computed_is_civil(n: int)
    ensures
        civil_from_days(n) == computed_date(n),
{
    lemma_civil_from_days(n);
    lemma_computed_date(n);
}

// ── Timestamp text ──────────────────────────────────────────────────────────

/// A year as `format!("{:04}", y)` writes it: at least four characters,
/// the sign counted among them.
pub open spec fn year_text(y: int) -> Seq<char> {
    if y >= 0 {
        padded_decimal(y as nat, 4)
    } else {
        seq!['-'] + padded_decimal((-y) as nat, 3)
    }
}

/// `YYYY-MM-DD HH:MM:SS` for the given date and clock fields.
pub open spec fn datetime_text(y: int, mo: int, d: int, h: nat, mi: nat, s: nat) -> Seq<char> {
    year_text(y) + seq!['-'] + padded_decimal(mo as nat, 2) + seq!['-'] + padded_decimal(
        d as nat,
        2,
    ) + seq![' '] + padded_decimal(h, 2) + seq![':'] + padded_decimal(mi, 2) + seq![':']
        + padded_decimal(s, 2)
}

/// The day number that `days` stands for once read as an `i64`
/// (values above `i64::MAX` wrap around to negative day numbers).
pub open spec fn day_number(days: u64) -> int {
    if days <= i64::MAX {
        days as int
    } else {
        days as int - 0x1_0000_0000_0000_0000
    }
}

/// The text for day `n` (days since 1970-01-01) and the clock fields `h`, `mi`, `s`.
pub open spec fn day_datetime_text(n: int, h: nat, mi: nat, s: nat) -> Seq<char> {
    let (y, mo, d) = civil_from_days(n);
    datetime_text(y, mo, d, h, mi, s)
}

/// The text the service stores for the Unix time `secs` (UTC).
pub open spec fn unix_time_text(secs: nat) -> Seq<char> {
    day_datetime_text((secs / 86400) as int, (secs / 3600) % 24, (secs / 60) % 60, secs % 60)
}

/// Appends `year_text(y)`.
fn push_year(out: &mut String, y: i128)
    requires
        -0x1_0000_0000_0000_0000 < y < 0x1_0000_0000_0000_0000,
    ensures
        final(out)@ == old(out)@ + year_text(y as int),
{
    if y >= 0 {
        push_padded(out, y as u64, 4);
    } else {
        let ghost start = out@;
        push_char(out, '-');
        push_padded(out, (-y) as u64, 3);
        assert(out@ =~= start + year_text(y as int));
    }
}

/// `z / 146097`, rounded down.
fn era_of(z: i128) -> (era: i128)
    requires
        -0x1_0000_0000_0000_0000 < z < 0x1_0000_0000_0000_0000,
    ensures
        era == z / 146097,
{
    if z >= 0 {
        (z as u128 / 146097) as i128
    } else {
        let q = ((-z) as u128 + 146096) / 146097;
        proof {
            let r0 = ((-z) + 146096) % 146097;
            lemma_fundamental_div_mod((-z) + 146096, 146097);
            lemma_fundamental_div_mod_converse(z as int, 146097, -(q as int), 146096 - r0);
        }
        -(q as i128)
    }
}

/// Year of era, month index from March and day of month of the day of era `doe`.
fn date_in_era(doe: u64) -> (r: (u64, u64, u64))
    requires
        doe <= 146096,
    ensures
        ({
            let d = doe as int;
            let yoe = (d - d / 1460 + d / 36524 - d / 146096) / 365;
            let doy = d - (365 * yoe + yoe / 4 - yoe / 100);
            let mp = (5 * doy + 2) / 153;
            &&& r.0 == yoe
            &&& r.1 == mp
            &&& r.2 == doy - (153 * mp + 2) / 5 + 1
        }),
{
    let yoe: u64 = (doe - doe / 1460 + doe / 36524 - doe / 146096) / 365;
    proof {
        lemma_year_of_era(doe as int);
    }
    let doy: u64 = doe - (365 * yoe + yoe / 4 - yoe / 100);
    let mp: u64 = (5 * doy + 2) / 153;
    proof {
        lemma_month_index(doy as int);
    }
    let d: u64 = doy - (153 * mp + 2) / 5 + 1;
    (yoe, mp, d)
}

/// The date `(year, month, day)` of day number `n`.
fn civil_date(n: i128) -> (r: (i128, u64, u64))
    requires
        i64::MIN <= n <= i64::MAX - 719468,
    ensures
        civil_from_days(n as int) == (r.0 as int, r.1 as int, r.2 as int),
        -0x1_0000_0000_0000_0000 < r.0 < 0x1_0000_0000_0000_0000,
{
    let z: i128 = n + 719468;
    let era = era_of(z);
    proof {
        lemma_fundamental_div_mod(z as int, 146097);
    }
    let doe: u64 = (z - era * 146097) as u64;
    let (yoe, mp, d) = date_in_era(doe);
    let mo: u64 = if mp < 10 { mp + 3 } else { mp - 9 };
    let y0: i128 = yoe as i128 + era * 400;
    let y: i128 = if mo <= 2 { y0 + 1 } else { y0 };
    proof {
        lemma_computed_is_civil(n as int);
    }
    (y, mo, d)
}

/// Formats a day count since 1970-01-01 and clock fields as `YYYY-MM-DD HH:MM:SS`,
/// following H. Hinnant's `civil_from_days` for the date.
///
/// The day count is read as an `i64`; the one range where adding the epoch
/// shift overflows an `i64` is left out.
pub fn format_unix_to_datetime(days: u64, h: u64, m: u64, s: u64) -> (r: String)
    requires
        days <= i64::MAX - 719468 || days > i64::MAX,
    ensures
        r@ == day_datetime_text(day_number(days), h as nat, m as nat, s as nat),
{
    let n: i128 = if days <= 0x7fff_ffff_ffff_ffff {
        days as i128
    } else {
        days as i128 - 0x1_0000_0000_0000_0000
    };
    let (y, mo, d) = civil_date(n);
    let mut out = String::new();
    push_year(&mut out, y);
    push_char(&mut out, '-');
    push_padded(&mut out, mo, 2);
    push_char(&mut out, '-');
    push_padded(&mut out, d, 2);
    push_char(&mut out, ' ');
    push_padded(&mut out, h, 2);
    push_char(&mut out, ':');
    push_padded(&mut out, m, 2);
    push_char(&mut out, ':');
    push_padded(&mut out, s, 2);
    proof {
        assert(out@ =~= datetime_text(y as int, mo as int, d as int, h as nat, m as nat, s as nat));
    }
    out
}

/// Public entry to `format_unix_to_datetime`.
pub fn format_unix_to_datetime_pub(days: u64, h: u64, m: u64, s: u64) -> (r: String)
    requires
        days <= i64::MAX - 719468 || days > i64::MAX,
    ensures
        r@ == day_datetime_text(day_number(days), h as nat, m as nat, s as nat),
{
    format_unix_to_datetime(days, h, m, s)
}

/// The `YYYY-MM-DD HH:MM:SS` text (UTC) of the Unix time `secs`.
pub fn format_unix_secs(secs: u64) -> (r: String)
    ensures
        r@ == unix_time_text(secs as nat),
{
    let days = secs / 86400;
    let h = (secs / 3600) % 24;
    let m = (secs / 60) % 60;
    let s = secs % 60;
    format_unix_to_datetime(days, h, m, s)
}

// ── Order of dates and timestamps ───────────────────────────────────────────

/// `(y1, m1, d1)` comes before `(y2, m2, d2)` in the calendar.
pub open spec fn date_before(y1: int, m1: int, d1: int, y2: int, m2: int, d2: int) -> bool {
    y1 < y2 || (y1 == y2 && (m1 < m2 || (m1 == m2 && d1 < d2)))
}

proof fn lemma_month_end(y: int, m: int)
    requires
        1 <= m < 12,
    ensures
        days_before_month(y, m) + days_in_month(y, m) == days_before_month(y, m + 1),
{
}

proof fn lemma_months_ordered(y: int, m1: int, m2: int)
    requires
        1 <= m1 < m2 <= 12,
    ensures
        days_before_month(y, m1 + 1) <= days_before_month(y, m2),
{
}

/// A date before another has a smaller day number.
proof fn lemma_date_before_days(y1: int, m1: int, d1: int, y2: int, m2: int, d2: int)
    requires
        is_valid_date(y1, m1, d1),
        is_valid_date(y2, m2, d2),
        date_before(y1, m1, d1, y2, m2, d2),
    ensures
        days_from_civil(y1, m1, d1) < days_from_civil(y2, m2, d2),
{
    lemma_date_within_year(y1, m1, d1);
    lemma_date_within_year(y2, m2, d2);
    if y1 < y2 {
        lemma_years_ordered(y1, y2);
    } else if m1 < m2 {
        lemma_month_end(y1, m1);
        lemma_months_ordered(y1, m1, m2);
    }
}

/// Day numbers and dates are in the same order.
pub proof fn lemma_days_order(n1: int, n2: int)
    ensures
        (n1 < n2) == date_before(
            civil_from_days(n1).0,
            civil_from_days(n1).1,
            civil_from_days(n1).2,
            civil_from_days(n2).0,
            civil_from_days(n2).1,
            civil_from_days(n2).2,
        ),
{
    lemma_civil_from_days(n1);
    lemma_civil_from_days(n2);
    let (y1, m1, d1) = civil_from_days(n1);
    let (y2, m2, d2) = civil_from_days(n2);
    if date_before(y1, m1, d1, y2, m2, d2) {
        lemma_date_before_days(y1, m1, d1, y2, m2, d2);
    } else if date_before(y2, m2, d2, y1, m1, d1) {
        lemma_date_before_days(y2, m2, d2, y1, m1, d1);
    }
}

/// The Unix time `a` splits into a day and the hours, minutes and seconds of that day.
proof fn lemma_clock_fields(a: nat)
    ensures
        (a / 3600) % 24 < 24,
        (a / 60) % 60 < 60,
        a % 60 < 60,
        a == 86400 * (a / 86400) + 3600 * ((a / 3600) % 24) + 60 * ((a / 60) % 60) + a % 60,
{
    let q = a / 86400;
    let r = a % 86400;
    lemma_fundamental_div_mod(a as int, 86400);
    let h = r / 3600;
    let r2 = r % 3600;
    lemma_fundamental_div_mod(r as int, 3600);
    let mi = r2 / 60;
    let s = r2 % 60;
    lemma_fundamental_div_mod(r2 as int, 60);
    lemma_fundamental_div_mod_converse(a as int, 3600, (24 * q + h) as int, r2 as int);
    lemma_fundamental_div_mod_converse((a / 3600) as int, 24, q as int, h as int);
    lemma_fundamental_div_mod_converse(a as int, 60, (1440 * q + 60 * h + mi) as int, s as int);
    lemma_fundamental_div_mod_converse((a / 60) as int, 60, (24 * q + h) as int, mi as int);
}

/// The text of a date and clock fields that all fit their widths.
pub open spec fn stamp(y: nat, mo: nat, d: nat, h: nat, mi: nat, s: nat) -> Seq<char> {
    fixed_digits(y, 4) + (seq!['-'] + (fixed_digits(mo, 2) + (seq!['-'] + (fixed_digits(d, 2) + (
    seq![' '] + (fixed_digits(h, 2) + (seq![':'] + (fixed_digits(mi, 2) + (seq![':']
        + fixed_digits(s, 2))))))))))
}

proof fn lemma_sep_order(c: char, a: Seq<char>, b: Seq<char>)
    ensures
        char_lex_less(seq![c] + a, seq![c] + b) == char_lex_less(a, b),
{
    lemma_char_lex_concat(seq![c], a, seq![c], b);
}

proof fn lemma_field_order(n1: nat, n2: nat, w: nat, a: Seq<char>, b: Seq<char>)
    requires
        n1 < pow10(w),
        n2 < pow10(w),
    ensures
        char_lex_less(fixed_digits(n1, w) + a, fixed_digits(n2, w) + b) == if n1 == n2 {
            char_lex_less(a, b)
        } else {
            n1 < n2
        },
{
    lemma_fixed_digits_order(n1, n2, w);
    lemma_char_lex_concat(fixed_digits(n1, w), a, fixed_digits(n2, w), b);
}

/// Timestamps whose fields fit their widths compare as their fields, in order.
proof fn lemma_stamp_order(
    y1: nat, mo1: nat, d1: nat, h1: nat, mi1: nat, s1: nat,
    y2: nat, mo2: nat, d2: nat, h2: nat, mi2: nat, s2: nat,
)
    requires
        y1 < 10000 && y2 < 10000,
        mo1 < 100 && mo2 < 100 && d1 < 100 && d2 < 100,
        h1 < 100 && h2 < 100 && mi1 < 100 && mi2 < 100 && s1 < 100 && s2 < 100,
    ensures
        char_lex_less(stamp(y1, mo1, d1, h1, mi1, s1), stamp(y2, mo2, d2, h2, mi2, s2)) == if y1
            != y2 {
            y1 < y2
        } else if mo1 != mo2 {
            mo1 < mo2
        } else if d1 != d2 {
            d1 < d2
        } else if h1 != h2 {
            h1 < h2
        } else if mi1 != mi2 {
            mi1 < mi2
        } else {
            s1 < s2
        },
{
    reveal_with_fuel(pow10, 5);
    let f = |n: nat| fixed_digits(n, 2);
    let t5a = seq![':'] + f(s1);
    let t5b = seq![':'] + f(s2);
    lemma_fixed_digits_order(s1, s2, 2);
    lemma_sep_order(':', f(s1), f(s2));
    let t4a = f(mi1) + t5a;
    let t4b = f(mi2) + t5b;
    lemma_field_order(mi1, mi2, 2, t5a, t5b);
    let t3a = seq![':'] + t4a;
    let t3b = seq![':'] + t4b;
    lemma_sep_order(':', t4a, t4b);
    let t2a = f(h1) + t3a;
    let t2b = f(h2) + t3b;
    lemma_field_order(h1, h2, 2, t3a, t3b);
    let t1a = seq![' '] + t2a;
    let t1b = seq![' '] + t2b;
    lemma_sep_order(' ', t2a, t2b);
    let u3a = f(d1) + t1a;
    let u3b = f(d2) + t1b;
    lemma_field_order(d1, d2, 2, t1a, t1b);
    let u2a = seq!['-'] + u3a;
    let u2b = seq!['-'] + u3b;
    lemma_sep_order('-', u3a, u3b);
    let u1a = f(mo1) + u2a;
    let u1b = f(mo2) + u2b;
    lemma_field_order(mo1, mo2, 2, u2a, u2b);
    let u0a = seq!['-'] + u1a;
    let u0b = seq!['-'] + u1b;
    lemma_sep_order('-', u1a, u1b);
    lemma_field_order(y1, y2, 4, u0a, u0b);
}

/// Unix time of 10000-01-01 00:00:00 UTC: up to here years have four digits.
pub open spec fn four_digit_years_end() -> nat {
    253402300800
}

/// Before year 10000, the stored text of a Unix time is `stamp` of its fields.
proof fn lemma_unix_time_stamp(a: nat)
    requires
        a < four_digit_years_end(),
    ensures
        ({
            let (y, mo, d) = civil_from_days((a / 86400) as int);
            &&& 1970 <= y <= 9999
            &&& 1 <= mo <= 12
            &&& 1 <= d <= 31
            &&& unix_time_text(a) == stamp(
                y as nat,
                mo as nat,
                d as nat,
                (a / 3600) % 24,
                (a / 60) % 60,
                a % 60,
            )
        }),
        is_ascii_chars(unix_time_text(a)),
{
    let n = (a / 86400) as int;
    lemma_civil_from_days(n);
    let (y, mo, d) = civil_from_days(n);
    lemma_date_within_year(y, mo, d);
    assert(days_before_year(1970) == 0);
    assert(days_before_year(10000) == 2932897);
    if y > 9999 {
        lemma_years_ordered(9999, y);
    }
    if y < 1970 {
        lemma_years_ordered(y, 1970);
    }
    lemma_clock_fields(a);
    let h = (a / 3600) % 24;
    let mi = (a / 60) % 60;
    let s = a % 60;
    reveal_with_fuel(pow10, 5);
    lemma_padded_is_fixed(y as nat, 4);
    lemma_padded_is_fixed(mo as nat, 2);
    lemma_padded_is_fixed(d as nat, 2);
    lemma_padded_is_fixed(h, 2);
    lemma_padded_is_fixed(mi, 2);
    lemma_padded_is_fixed(s, 2);
    let t = stamp(y as nat, mo as nat, d as nat, h, mi, s);
    assert(unix_time_text(a) =~= t);
    lemma_fixed_digits_order(y as nat, y as nat, 4);
    lemma_fixed_digits_order(mo as nat, d as nat, 2);
    lemma_fixed_digits_order(d as nat, h, 2);
    lemma_fixed_digits_order(h, mi, 2);
    lemma_fixed_digits_order(mi, s, 2);
    lemma_fixed_digits_order(s, s, 2);
    assert(is_ascii_chars(seq!['-']) && is_ascii_chars(seq![' ']) && is_ascii_chars(seq![':']));
    broadcast use is_ascii_chars_concat;

    let f = |k: nat| fixed_digits(k, 2);
    assert(is_ascii_chars(seq![':'] + f(s)));
    assert(is_ascii_chars(f(mi) + (seq![':'] + f(s))));
    assert(is_ascii_chars(seq![':'] + (f(mi) + (seq![':'] + f(s)))));
    assert(is_ascii_chars(f(h) + (seq![':'] + (f(mi) + (seq![':'] + f(s))))));
    assert(is_ascii_chars(seq![' '] + (f(h) + (seq![':'] + (f(mi) + (seq![':'] + f(s)))))));
    assert(is_ascii_chars(f(d as nat) + (seq![' '] + (f(h) + (seq![':'] + (f(mi) + (seq![':'] + f(s))))))));
    assert(is_ascii_chars(seq!['-'] + (f(d as nat) + (seq![' '] + (f(h) + (seq![':'] + (f(mi) + (seq![':'] + f(s)))))))));
    assert(is_ascii_chars(f(mo as nat) + (seq!['-'] + (f(d as nat) + (seq![' '] + (f(h) + (seq![':'] + (f(mi) + (seq![':'] + f(s))))))))));
    assert(is_ascii_chars(seq!['-'] + (f(mo as nat) + (seq!['-'] + (f(d as nat) + (seq![' '] + (f(h) + (seq![':'] + (f(mi) + (seq![':'] + f(s)))))))))));
    assert(is_ascii_chars(t));
}

/// Before year 10000, the stored texts of Unix times sort as the times do.
pub proof fn lemma_unix_time_text_order(a: nat, b: nat)
    requires
        a < four_digit_years_end(),
        b < four_digit_years_end(),
    ensures
        char_lex_less(unix_time_text(a), unix_time_text(b)) == (a < b),
        is_ascii_chars(unix_time_text(a)),
{
    lemma_unix_time_stamp(a);
    lemma_unix_time_stamp(b);
    let na = (a / 86400) as int;
    let nb = (b / 86400) as int;
    let (ya, ma, da) = civil_from_days(na);
    let (yb, mb, db) = civil_from_days(nb);
    lemma_clock_fields(a);
    lemma_clock_fields(b);
    lemma_stamp_order(
        ya as nat, ma as nat, da as nat, (a / 3600) % 24, (a / 60) % 60, a % 60,
        yb as nat, mb as nat, db as nat, (b / 3600) % 24, (b / 60) % 60, b % 60,
    );
    lemma_days_order(na, nb);
    lemma_days_order(nb, na);
    if ya == yb && ma == mb && da == db {
        assert(na == nb);
    }
}

} // verus!
