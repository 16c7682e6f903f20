//! Calendar dates as day counts: days since 1970-01-01 in the Gregorian calendar, in UTC.

use vstd::prelude::*;

use crate::text;
use crate::text::{chars_of, decimal_of, read_digits};

verus! {

/// Seconds in a day.
pub const DAY_SECONDS: i64 = 86_400;

/// Seconds in an hour.
pub const HOUR_SECONDS: i64 = 3_600;

/// Whether `year` has a 29th of February.
pub open spec fn leap(year: int) -> bool {
    year % 4 == 0 && (year % 100 != 0 || year % 400 == 0)
}

/// The number of days in a month.
pub open spec fn month_length(year: int, month: int) -> int {
    if month == 2 {
        if leap(year) {
            29
        } else {
            28
        }
    } else if month == 4 || month == 6 || month == 9 || month == 11 {
        30
    } else {
        31
    }
}

/// Whether there is such a day.
pub open spec fn valid_date(year: int, month: int, day: int) -> bool {
    1 <= month <= 12 && 1 <= day <= month_length(year, month)
}

/// How many of the years from 0 up to, but without, `year` are multiples of `k`.
#[verifier::opaque]
pub open spec fn multiples_before(year: int, k: int) -> int {
    (year + k - 1) / k
}

/// The number of days in the years from 0 up to, but without, `year`.
pub open spec fn days_before_year(year: int) -> int {
    365 * year + multiples_before(year, 4) - multiples_before(year, 100) + multiples_before(
        year,
        400,
    )
}

/// The number of days of `year` before the first of `month`.
pub open spec fn days_before_month(year: int, month: int) -> int
    decreases month,
{
    if month <= 1 {
        0
    } else {
        days_before_month(year, month - 1) + month_length(year, month - 1)
    }
}

/// The number of days from 1970-01-01 to a date; negative before it.
pub open spec fn epoch_days(year: int, month: int, day: int) -> int {
    days_before_year(year) - days_before_year(1970) + days_before_month(year, month) + day - 1
}

/// `n` in exactly two digits.
pub open spec fn two_digits(n: int) -> Seq<char> {
    seq![text::digit(n / 10), text::digit(n % 10)]
}

/// A date as `YYYY-MM-DD`, for the years 0 to 9999.
pub open spec fn date_text(year: int, month: int, day: int) -> Seq<char> {
    two_digits(year / 100) + two_digits(year % 100) + seq!['-'] + two_digits(month) + seq!['-']
        + two_digits(day)
}

/// Whether a text has the shape `YYYY-MM-DD`.
pub open spec fn date_shape(t: Seq<char>) -> bool {
    &&& t.len() == 10
    &&& text::all_digits(t.subrange(0, 4))
    &&& t[4] == '-'
    &&& text::all_digits(t.subrange(5, 7))
    &&& t[7] == '-'
    &&& text::all_digits(t.subrange(8, 10))
}

/// The day that a text names as `YYYY-MM-DD`: nothing where it has another shape or names no day.
pub open spec fn day_named(t: Seq<char>) -> Option<int> {
    let year = text::number_of(t.subrange(0, 4)) as int;
    let month = text::number_of(t.subrange(5, 7)) as int;
    let day = text::number_of(t.subrange(8, 10)) as int;
    if date_shape(t) && valid_date(year, month, day) {
        Some(epoch_days(year, month, day))
    } else {
        None
    }
}

/// One more year adds a multiple of `k` exactly where that year is one.
proof fn lemma_multiples(year: int, k: int)
    requires
        k > 0,
    ensures
        multiples_before(year + 1, k) - multiples_before(year, k) == (if year % k == 0 {
            1int
        } else {
            0
        }),
{
    reveal(multiples_before);
    let q = year / k;
    let m = year % k;
    vstd::arithmetic::div_mod::lemma_fundamental_div_mod(year, k);
    vstd::arithmetic::div_mod::lemma_mod_bound(year, k);
    vstd::arithmetic::div_mod::lemma_hoist_over_denominator(m + k, q, k as nat);
    vstd::arithmetic::div_mod::lemma_hoist_over_denominator(m + k - 1, q, k as nat);
    assert(year + k == m + k + q * k) by (nonlinear_arith)
        requires
            year == k * q + m,
    ;
    if m == 0 {
        vstd::arithmetic::div_mod::lemma_fundamental_div_mod_converse(k, k, 1, 0);
        vstd::arithmetic::div_mod::lemma_fundamental_div_mod_converse(k - 1, k, 0, k - 1);
    } else {
        vstd::arithmetic::div_mod::lemma_fundamental_div_mod_converse(m + k, k, 1, m);
        vstd::arithmetic::div_mod::lemma_fundamental_div_mod_converse(m + k - 1, k, 1, m - 1);
    }
}

/// A multiple of 400 is one of 100, and a multiple of 100 is one of 4.
proof fn lemma_centuries(year: int)
    ensures
        year % 400 == 0 ==> year % 100 == 0,
        year % 100 == 0 ==> year % 4 == 0,
{
}

/// A year has 365 days, and a leap year one more.
proof fn lemma_year_length(year: int)
    ensures
        days_before_year(year + 1) - days_before_year(year) == (if leap(year) {
            366int
        } else {
            365
        }),
{
    lemma_multiples(year, 4);
    lemma_multiples(year, 100);
    lemma_multiples(year, 400);
    lemma_centuries(year);
}

/// The twelve months fill the year.
proof fn lemma_months(year: int, month: int)
    requires
        1 <= month <= 12,
    ensures
        0 <= days_before_month(year, month),
        days_before_month(year, month) + month_length(year, month) <= (if leap(year) {
            366int
        } else {
            365
        }),
{
    reveal_with_fuel(days_before_month, 13);
}

/// A later month starts after an earlier one has ended.
proof fn lemma_month_order(year: int, a: int, b: int)
    requires
        1 <= a < b <= 12,
    ensures
        days_before_month(year, a) + month_length(year, a) <= days_before_month(year, b),
    decreases b,
{
    if a < b - 1 {
        lemma_month_order(year, a, b - 1);
    }
}

/// A later year starts after an earlier one has ended.
proof fn lemma_year_order(a: int, b: int)
    requires
        a < b,
    ensures
        days_before_year(a) + (if leap(a) {
            366int
        } else {
            365
        }) <= days_before_year(b),
    decreases b - a,
{
    lemma_year_length(b - 1);
    if a < b - 1 {
        lemma_year_order(a, b - 1);
    }
}

/// A later date has a larger day count, so comparing counts compares dates.
pub proof fn lemma_dates_in_order(y1: int, m1: int, d1: int, y2: int, m2: int, d2: int)
    requires
        valid_date(y1, m1, d1),
        valid_date(y2, m2, d2),
        y1 < y2 || (y1 == y2 && (m1 < m2 || (m1 == m2 && d1 < d2))),
    ensures
        epoch_days(y1, m1, d1) < epoch_days(y2, m2, d2),
{
    lemma_months(y1, m1);
    lemma_months(y2, m2);
    if y1 < y2 {
        lemma_year_order(y1, y2);
    } else if m1 < m2 {
        lemma_month_order(y1, m1, m2);
    }
}

/// The day after a date counts one more: within a month, into the next month, into the next year.
pub proof fn lemma_next_day(year: int, month: int, day: int)
    requires
        valid_date(year, month, day),
    ensures
        day < month_length(year, month) ==> epoch_days(year, month, day + 1) == epoch_days(
            year,
            month,
            day,
        ) + 1,
        day == month_length(year, month) && month < 12 ==> epoch_days(year, month + 1, 1)
            == epoch_days(year, month, day) + 1,
        day == month_length(year, month) && month == 12 ==> epoch_days(year + 1, 1, 1)
            == epoch_days(year, month, day) + 1,
        epoch_days(1970, 1, 1) == 0,
{
    reveal_with_fuel(days_before_month, 13);
    reveal(multiples_before);
    lemma_year_length(year);
}

/// Reading back a written two-digit number.
proof fn lemma_two_digits(n: int)
    requires
        0 <= n < 100,
    ensures
        two_digits(n).len() == 2,
        text::all_digits(two_digits(n)),
        text::number_of(two_digits(n)) == n,
{
    text::lemma_digit(n / 10);
    text::lemma_digit(n % 10);
    let t = two_digits(n);
    assert(t.drop_last() =~= seq![text::digit(n / 10)]);
    assert(t.drop_last().drop_last() =~= Seq::empty());
    reveal_with_fuel(text::number_of, 3);
}

/// A written date reads back as the day it was written from.
pub proof fn lemma_date_reads_back(year: int, month: int, day: int)
    requires
        0 <= year <= 9999,
        valid_date(year, month, day),
    ensures
        day_named(date_text(year, month, day)) == Some(epoch_days(year, month, day)),
{
    let t = date_text(year, month, day);
    lemma_two_digits(year / 100);
    lemma_two_digits(year % 100);
    lemma_two_digits(month);
    lemma_two_digits(day);
    let high = two_digits(year / 100);
    let low = two_digits(year % 100);
    assert(t.subrange(0, 4) =~= high + low);
    assert((high + low).drop_last() =~= high.push(low[0]));
    assert((high + low).drop_last().drop_last() =~= high);
    assert(low.drop_last() =~= seq![low[0]]);
    assert(low.drop_last().drop_last() =~= Seq::empty());
    reveal_with_fuel(text::number_of, 3);
    assert(text::number_of(high + low) == text::number_of(high) * 100 + text::number_of(low));
    assert(t.subrange(5, 7) =~= two_digits(month));
    assert(t.subrange(8, 10) =~= two_digits(day));
}

/// A digit character is the character of its value.
proof fn lemma_digit_back(c: char)
    requires
        text::is_digit(c),
    ensures
        text::digit(text::digit_value(c) as int) == c,
        text::digit_value(c) <= 9,
{
}

/// Two digit characters are the two digits of the number that they write.
proof fn lemma_pair_back(t: Seq<char>)
    requires
        t.len() == 2,
        text::all_digits(t),
    ensures
        two_digits(text::number_of(t) as int) == t,
        text::number_of(t) <= 99,
{
    reveal_with_fuel(text::number_of, 3);
    lemma_digit_back(t[0]);
    lemma_digit_back(t[1]);
    assert(t.drop_last().last() == t[0]);
    let n = text::number_of(t) as int;
    assert(n == text::digit_value(t[0]) * 10 + text::digit_value(t[1]));
    assert(two_digits(n) =~= t);
}

/// Four digit characters are two pairs of digits of the number that they write.
proof fn lemma_four_back(whole: Seq<char>)
    requires
        whole.len() == 4,
        text::all_digits(whole),
    ensures
        two_digits(text::number_of(whole) as int / 100) + two_digits(
            text::number_of(whole) as int % 100,
        ) == whole,
        text::number_of(whole) <= 9999,
{
    let high = whole.subrange(0, 2);
    let low = whole.subrange(2, 4);
    assert forall|i: int| 0 <= i < 2 implies text::is_digit(#[trigger] high[i]) && text::is_digit(
        low[i],
    ) by {
        assert(high[i] == whole[i]);
        assert(low[i] == whole[i + 2]);
    }
    lemma_pair_back(high);
    lemma_pair_back(low);
    let h = text::number_of(high);
    let l = text::number_of(low);
    assert(whole =~= high + low);
    assert(text::number_of(whole) == h * 100 + l) by {
        assert((high + low).drop_last() =~= high.push(low[0]));
        assert((high + low).drop_last().drop_last() =~= high);
        assert(low.drop_last() =~= seq![low[0]]);
        assert(low.drop_last().drop_last() =~= Seq::empty());
        reveal_with_fuel(text::number_of, 3);
    }
    assert((h * 100 + l) as int / 100 == h && (h * 100 + l) as int % 100 == l);
}

/// A text that names a day is how that day is written: writing and reading are inverse.
pub proof fn lemma_named_day_is_written(t: Seq<char>)
    requires
        day_named(t) is Some,
    ensures
        exists|year: int, month: int, day: int|
            0 <= year <= 9999 && valid_date(year, month, day) && #[trigger] epoch_days(
                year,
                month,
                day,
            ) == day_named(t)->Some_0 && date_text(year, month, day) == t,
{
    let year = text::number_of(t.subrange(0, 4)) as int;
    let month = text::number_of(t.subrange(5, 7)) as int;
    let day = text::number_of(t.subrange(8, 10)) as int;
    lemma_four_back(t.subrange(0, 4));
    lemma_pair_back(t.subrange(5, 7));
    lemma_pair_back(t.subrange(8, 10));
    let whole = two_digits(year / 100) + two_digits(year % 100);
    assert(t =~= whole + seq!['-'] + two_digits(month) + seq!['-'] + two_digits(day));
    assert(date_text(year, month, day) =~= t);
    assert(epoch_days(year, month, day) == day_named(t)->Some_0);
}

/// Two digits write at most 99, four at most 9999.
proof fn lemma_short_number(t: Seq<char>)
    ensures
        t.len() <= 2 ==> text::number_of(t) <= 99,
        t.len() <= 4 ==> text::number_of(t) <= 9999,
{
    reveal_with_fuel(text::number_of, 5);
}

/// The number of days in a month.
fn length_of_month(year: i64, month: i64) -> (r: i64)
    requires
        0 <= year,
    ensures
        r == month_length(year as int, month as int),
{
    if month == 2 {
        if year % 4 == 0 && (year % 100 != 0 || year % 400 == 0) {
            29
        } else {
            28
        }
    } else if month == 4 || month == 6 || month == 9 || month == 11 {
        30
    } else {
        31
    }
}

/// The day count of a `YYYY-MM-DD` date; nothing for any other text.
pub fn date_to_epoch_days(s: &str) -> (r: Option<i64>)
    ensures
        match r {
            Some(n) => day_named(s@) == Some(n as int),
            None => day_named(s@) is None,
        },
{
    let t: Vec<char> = chars_of(s);
    if t.len() != 10 || t[4] != '-' || t[7] != '-' {
        return None;
    }
    proof {
        lemma_short_number(t@.subrange(0, 4));
        lemma_short_number(t@.subrange(5, 7));
        lemma_short_number(t@.subrange(8, 10));
    }
    let (year, month, day): (i64, i64, i64) = match (
        read_digits(&t, 0, 4, 9999),
        read_digits(&t, 5, 7, 99),
        read_digits(&t, 8, 10, 99),
    ) {
        (Some(y), Some(m), Some(d)) => (y as i64, m as i64, d as i64),
        _ => {
            return None;
        },
    };
    if month < 1 || month > 12 || day < 1 || day > length_of_month(year, month) {
        return None;
    }
    let mut days: i64 = 0;
    let mut m: i64 = 1;
    while m < month
        invariant
            1 <= m <= month <= 12,
            0 <= year,
            days == days_before_month(year as int, m as int),
            0 <= days <= 31 * (m - 1),
        decreases month - m,
    {
        days = days + length_of_month(year, m);
        m = m + 1;
    }
    proof {
        reveal(multiples_before);
    }
    let before: i64 = 365 * year + (year + 3) / 4 - (year + 99) / 100 + (year + 399) / 400;
    Some(before - 719_528 + days + day - 1)
}

/// How dates are written.
pub open spec fn date_pattern() -> Seq<char> {
    "%Y-%m-%d"@
}

/// How hours are written.
pub open spec fn hour_pattern() -> Seq<char> {
    "%Y-%m-%dT%H"@
}

/// A moment of UTC, given in seconds since the epoch, as `chrono` renders it by a pattern.
pub uninterp spec fn rendered_time(seconds: i64, pattern: Seq<char>) -> Option<Seq<char>>;

/// The hour of its day that a moment lies in.
pub open spec fn hour_of_day(seconds: int) -> int {
    (seconds % (DAY_SECONDS as int)) / (HOUR_SECONDS as int)
}

/// What a pattern writes of a moment on a date.
pub open spec fn pattern_text(
    year: int,
    month: int,
    day: int,
    seconds: int,
    pattern: Seq<char>,
) -> Seq<char> {
    if pattern == hour_pattern() {
        date_text(year, month, day) + seq!['T'] + two_digits(hour_of_day(seconds))
    } else {
        date_text(year, month, day)
    }
}

/// `chrono::DateTime::from_timestamp` and its `format` with one of the two patterns: whether there
/// is a text, and what it is, depend on the moment and the pattern alone. In the years 0 to 9999
/// `%Y-%m-%d` is the four-digit year, the month and the day of the moment's date in UTC, and
/// `T%H` behind it the two-digit hour.
#[verifier::external_body]
fn render_time(seconds: i64, pattern: &str) -> (r: Option<String>)
    requires
        pattern@ == date_pattern() || pattern@ == hour_pattern(),
    ensures
        match r {
            Some(t) => rendered_time(seconds, pattern@) == Some(t@),
            None => rendered_time(seconds, pattern@) is None,
        },
        forall|year: int, month: int, day: int|
            0 <= year <= 9999 && valid_date(year, month, day) && #[trigger] epoch_days(
                year,
                month,
                day,
            ) == (seconds as int) / (DAY_SECONDS as int) ==> r is Some && r->Some_0@
                == pattern_text(year, month, day, seconds as int, pattern@),
{
    chrono::DateTime::from_timestamp(seconds, 0).map(|d| d.format(pattern).to_string())
}

/// The day that a moment lies in, as a count of days since the epoch.
pub open spec fn day_count(seconds: i64) -> i64 {
    ((seconds as int) / (DAY_SECONDS as int)) as i64
}

/// The day that a moment lies in, as a count of days since the epoch.
pub fn day_of(seconds: i64) -> (r: i64)
    ensures
        r == day_count(seconds),
        r == (seconds as int) / (DAY_SECONDS as int),
{
    if seconds >= 0 {
        seconds / DAY_SECONDS
    } else {
        -((-(seconds + 1)) / DAY_SECONDS) - 1
    }
}

/// The hour that a moment lies in, as a count of hours since the epoch.
fn hour_count(seconds: i64) -> (r: i64)
    ensures
        r == (seconds as int) / (HOUR_SECONDS as int),
{
    if seconds >= 0 {
        seconds / HOUR_SECONDS
    } else {
        -((-(seconds + 1)) / HOUR_SECONDS) - 1
    }
}

/// The first second of an hour, held inside the 64-bit range.
pub open spec fn hour_start(hours: int) -> i64 {
    if hours * HOUR_SECONDS < i64::MIN {
        i64::MIN
    } else {
        (hours * HOUR_SECONDS) as i64
    }
}

/// The UTC hour that a moment lies in, as text, and no finer time: where there is none to render,
/// the count of hours since the epoch.
pub open spec fn hour_text(seconds: i64) -> Seq<char> {
    let hours = (seconds as int) / (HOUR_SECONDS as int);
    match rendered_time(hour_start(hours), hour_pattern()) {
        Some(t) => t,
        None => text::decimal(hours),
    }
}

/// Moments of the same hour are written alike.
pub proof fn lemma_same_hour_same_text(a: i64, b: i64)
    requires
        (a as int) / (HOUR_SECONDS as int) == (b as int) / (HOUR_SECONDS as int),
    ensures
        hour_text(a) == hour_text(b),
{
}

/// The UTC hour that a moment lies in, as text, such as `2026-08-23T07`.
pub fn format_hour(seconds: i64) -> (r: String)
    ensures
        r@ == hour_text(seconds),
        forall|year: int, month: int, day: int|
            0 <= year <= 9999 && valid_date(year, month, day) && #[trigger] epoch_days(
                year,
                month,
                day,
            ) == (seconds as int) / (DAY_SECONDS as int) ==> r@ == date_text(year, month, day)
                + seq!['T'] + two_digits(hour_of_day(seconds as int)),
{
    let hours: i64 = hour_count(seconds);
    let start: i64 = match hours.checked_mul(HOUR_SECONDS) {
        Some(s) => s,
        None => i64::MIN,
    };
    proof {
        assert(start == hour_start(hours as int));
        assert forall|year: int, month: int, day: int|
            0 <= year <= 9999 && valid_date(year, month, day) && #[trigger] epoch_days(
                year,
                month,
                day,
            ) == (seconds as int) / (DAY_SECONDS as int) implies epoch_days(year, month, day) == (
        start as int) / (DAY_SECONDS as int) && hour_of_day(start as int) == hour_of_day(
            seconds as int,
        ) by {
            lemma_months(year, month);
            lemma_day_range(year);
        }
    }
    match render_time(start, "%Y-%m-%dT%H") {
        Some(t) => t,
        None => decimal_of(hours),
    }
}

/// The first second of a day, held inside the 64-bit range.
pub open spec fn day_start(days: i64) -> i64 {
    if days * DAY_SECONDS > i64::MAX {
        i64::MAX
    } else if days * DAY_SECONDS < i64::MIN {
        i64::MIN
    } else {
        (days * DAY_SECONDS) as i64
    }
}

/// A day count as text: the date where there is one to render, else the count itself.
pub open spec fn expiry_text(days: i64) -> Seq<char> {
    match rendered_time(day_start(days), date_pattern()) {
        Some(t) => t,
        None => text::decimal(days as int),
    }
}

/// The day counts of the years 0 to 9999 are small numbers.
proof fn lemma_day_range(year: int)
    requires
        0 <= year <= 9999,
    ensures
        0 <= days_before_year(year) <= 4_000_000,
        days_before_year(1970) == 719_528,
{
    reveal(multiples_before);
}

/// A day count as text: the date where there is one to render, else the count itself.
pub fn format_expiry(days: i64) -> (r: String)
    ensures
        r@ == expiry_text(days),
        forall|year: int, month: int, day: int|
            0 <= year <= 9999 && valid_date(year, month, day) && #[trigger] epoch_days(
                year,
                month,
                day,
            ) == days ==> r@ == date_text(year, month, day),
{
    let seconds: i64 = match days.checked_mul(DAY_SECONDS) {
        Some(s) => s,
        None => if days > 0 {
            i64::MAX
        } else {
            i64::MIN
        },
    };
    proof {
        assert(seconds == day_start(days));
        assert forall|year: int, month: int, day: int|
            0 <= year <= 9999 && valid_date(year, month, day) && #[trigger] epoch_days(
                year,
                month,
                day,
            ) == days implies epoch_days(year, month, day) == (seconds as int) / (
        DAY_SECONDS as int) by {
            lemma_months(year, month);
            lemma_day_range(year);
            assert(-1_000_000 <= days <= 4_000_000);
        }
    }
    proof {
        reveal_strlit("%Y-%m-%d");
        reveal_strlit("%Y-%m-%dT%H");
        assert(date_pattern().len() != hour_pattern().len());
    }
    match render_time(seconds, "%Y-%m-%d") {
        Some(t) => t,
        None => decimal_of(days),
    }
}

/// The count of days starts at the epoch, and the calendar repeats itself every four hundred years.
pub proof fn lemma_calendar_repeats(year: int, month: int, day: int)
    ensures
        epoch_days(1970, 1, 1) == 0,
        epoch_days(year + 400, month, day) == epoch_days(year, month, day) + 146097,
{
    reveal(multiples_before);
    lemma_months_repeat(year, month);
    assert((year + 400 + 3) / 4 == (year + 3) / 4 + 100);
    assert((year + 400 + 99) / 100 == (year + 99) / 100 + 4);
    assert((year + 400 + 399) / 400 == (year + 399) / 400 + 1);
}

/// The months of a year are as long as those four hundred years later.
proof fn lemma_months_repeat(year: int, month: int)
    ensures
        leap(year + 400) == leap(year),
        days_before_month(year + 400, month) == days_before_month(year, month),
    decreases month,
{
    assert((year + 400) % 4 == year % 4);
    assert((year + 400) % 100 == year % 100);
    assert((year + 400) % 400 == year % 400);
    if month > 1 {
        lemma_months_repeat(year, month - 1);
    }
}

/// A moment lies in the day of its count, and in the hour of that day.
pub proof fn lemma_moment_lies_in_its_day(seconds: i64)
    ensures
        ({
            let day = day_count(seconds) as int;
            let hour = hour_of_day(seconds as int);
            &&& day * 86400 <= seconds < day * 86400 + 86400
            &&& 0 <= hour < 24
            &&& day * 86400 + hour * 3600 <= seconds < day * 86400 + hour * 3600 + 3600
        }),
{
}

/// Where there is no date to render, the hours, or the days, since the epoch are told instead.
pub proof fn lemma_counts_stand_in(seconds: i64, hours: int, days: i64)
    requires
        hours * 3600 <= seconds < hours * 3600 + 3600,
    ensures
        rendered_time(hour_start(hours), hour_pattern()) is None ==> hour_text(seconds)
            == text::decimal(hours),
        rendered_time(hour_start(hours), hour_pattern()) matches Some(t) ==> hour_text(seconds)
            == t,
        rendered_time(day_start(days), date_pattern()) is None ==> expiry_text(days)
            == text::decimal(days as int),
        rendered_time(day_start(days), date_pattern()) matches Some(t) ==> expiry_text(days) == t,
        hours * 3600 >= i64::MIN ==> hour_start(hours) == hours * 3600,
        i64::MIN <= days * 86400 <= i64::MAX ==> day_start(days) == days * 86400,
        hour_pattern() == "%Y-%m-%dT%H"@ && date_pattern() == "%Y-%m-%d"@,
{
}

} // verus!
