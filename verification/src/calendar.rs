//! Calendar days, local time, and Monday-to-Sunday weeks numbered within a month.
use chrono::{Datelike, NaiveDate, Offset};
use vstd::prelude::*;

use crate::text::{
    decimal, decimal_string, digit_char, push_char, push_str, signed_decimal, signed_decimal_string,
};

verus! {

/// The first day chrono can represent (January 1 of year -262143), as a day number.
pub open spec fn min_day() -> int {
    -95746129
}

/// The last day chrono can represent (December 31 of year 262142), as a day number.
pub open spec fn max_day() -> int {
    95745399
}

/// A day number that chrono can turn into a date. Days are numbered as chrono's
/// `num_days_from_ce` numbers them: January 1 of year 1 is day 1, a Monday.
pub open spec fn valid_day(n: int) -> bool {
    min_day() <= n <= max_day()
}

/// The (year, month, day) of a day number in the proleptic Gregorian calendar: the day is
/// counted from March 1 of year 0 in 400-year eras of 146097 days, then years of 365 days with
/// a leap day every fourth year except centuries not divisible by 400, then months from March.
#[verifier::opaque]
pub open spec fn civil_of_day(n: i32) -> (i32, u32, u32) {
    let z = n as int + 305;
    let era = z / 146097;
    let doe = z - era * 146097;
    let yoe = (doe - doe / 1460 + doe / 36524 - doe / 146096) / 365;
    let doy = doe - (365 * yoe + yoe / 4 - yoe / 100);
    let mp = (5 * doy + 2) / 153;
    let d = doy - (153 * mp + 2) / 5 + 1;
    let m = if mp < 10 {
        mp + 3
    } else {
        mp - 9
    };
    let y = yoe + era * 400 + if m <= 2 {
        1int
    } else {
        0
    };
    (y as i32, m as u32, d as u32)
}

/// chrono: `NaiveDate::from_num_days_from_ce_opt(n)`, as (year, month, day). Stated: it gives
/// a date exactly on chrono's range of days, the proleptic Gregorian date of the day number
/// ([`civil_of_day`]), with a month in 1..=12 and a day in 1..=31.
#[verifier::external_body]
pub(crate) fn date_of_day(n: i32) -> (res: Option<(i32, u32, u32)>)
    ensures
        res is Some <==> valid_day(n as int),
        res matches Some(d) ==> d == civil_of_day(n) && -262143 <= d.0 <= 262142 && 1 <= d.1 <= 12
            && 1 <= d.2 <= 31,
{
    NaiveDate::from_num_days_from_ce_opt(n).map(|d| (d.year(), d.month(), d.day()))
}

/// A leap year of the proleptic Gregorian calendar.
pub open spec fn leap_year(y: int) -> bool {
    y % 4 == 0 && (y % 100 != 0 || y % 400 == 0)
}

/// The number of days of a month.
pub open spec fn month_length(y: int, m: int) -> int {
    if m == 2 {
        if leap_year(y) {
            29
        } else {
            28
        }
    } else if m == 4 || m == 6 || m == 9 || m == 11 {
        30
    } else {
        31
    }
}

/// The day number of a date (January 1 of year 1 is day 1): days counted from March 1 of year
/// 0 in eras, years and months as [`civil_of_day`] counts them.
pub open spec fn day_number(y: int, m: int, d: int) -> int {
    let yy = if m <= 2 {
        y - 1
    } else {
        y
    };
    let era = yy / 400;
    let yoe = yy - era * 400;
    let doy = (153 * (if m > 2 {
        m - 3
    } else {
        m + 9
    }) + 2) / 5 + d - 1;
    let doe = yoe * 365 + yoe / 4 - yoe / 100 + doy;
    era * 146097 + doe - 305
}

/// The day number of a (year, month, day), when it is a date of chrono's range of years.
#[verifier::opaque]
pub open spec fn day_of_civil(year: i32, month: u32, day: u32) -> Option<i32> {
    if -262143 <= year <= 262142 && 1 <= month <= 12 && 1 <= day <= month_length(year as int, month as int) {
        Some(day_number(year as int, month as int, day as int) as i32)
    } else {
        None
    }
}

/// chrono: `NaiveDate::from_ymd_opt(year, month, day)` as a day number. Stated: a date of
/// chrono's years gives its day number ([`day_of_civil`]); the first of a month exists in every
/// year of chrono's range; a date it gives is a valid day.
#[verifier::external_body]
pub(crate) fn day_of_date(year: i32, month: u32, day: u32) -> (res: Option<i32>)
    ensures
        res == day_of_civil(year, month, day),
        res matches Some(n) ==> valid_day(n as int),
        (-262143 <= year <= 262142 && 1 <= month <= 12 && day == 1) ==> res is Some,
{
    NaiveDate::from_ymd_opt(year, month, day).map(|d| d.num_days_from_ce())
}

/// Digits padded with zeros in front to at least four.
pub open spec fn pad4(s: Seq<char>) -> Seq<char> {
    if s.len() >= 4 {
        s
    } else {
        Seq::new((4 - s.len()) as nat, |i: int| '0') + s
    }
}

/// How chrono writes a year: four digits for years 0 to 9999, otherwise with its sign and at
/// least four digits.
pub open spec fn year_text(y: int) -> Seq<char> {
    if 0 <= y <= 9999 {
        pad4(decimal(y as nat))
    } else if y < 0 {
        seq!['-'] + pad4(decimal((-y) as nat))
    } else {
        seq!['+'] + pad4(decimal(y as nat))
    }
}

/// How chrono displays a day: `YYYY-MM-DD` (see [`year_text`]).
#[verifier::opaque]
pub open spec fn day_text(n: i32) -> Seq<char> {
    let (y, m, d) = civil_of_day(n);
    year_text(y as int) + "-"@ + two_digits(m as int) + "-"@ + two_digits(d as int)
}

/// chrono: `NaiveDate`'s `Display` of a valid day, which writes it as its `Debug` does: the
/// year as [`year_text`], then the month and day in two digits each ([`day_text`]).
#[verifier::external_body]
pub(crate) fn display_day(n: i32) -> (res: String)
    requires
        valid_day(n as int),
    ensures
        res@ == day_text(n),
{
    NaiveDate::from_num_days_from_ce_opt(n).unwrap().to_string()
}

/// The day number, in UTC, of a Unix timestamp (January 1, 1970 is day 719163).
pub open spec fn utc_day(timestamp: i64) -> int {
    timestamp as int / 86400 + 719163
}

/// A timestamp chrono can turn into a date and time: its UTC day is one chrono represents.
pub open spec fn in_time_range(timestamp: i64) -> bool {
    valid_day(utc_day(timestamp))
}

/// A timestamp on the first or last day chrono represents, where the local date may fall
/// outside chrono's range.
pub open spec fn at_range_edge(timestamp: i64) -> bool {
    utc_day(timestamp) == min_day() || utc_day(timestamp) == max_day()
}

/// chrono: the offset of the local time zone from UTC, in seconds, at a Unix timestamp
/// (`DateTime::from_timestamp(timestamp, 0)` in `Local`, its offset's `local_minus_utc`).
/// Stated: there is one exactly when the timestamp's UTC day is one chrono represents, and a
/// `FixedOffset` is always less than a day either way. Which offset it is depends on the
/// machine's time zone, so nothing more is stated. chrono panics where the system's time zone
/// data cannot be read or gives an offset of a day or more: a condition of the machine, not of
/// the timestamp, which no clause here can exclude.
#[verifier::external_body]
fn local_offset(timestamp: i64) -> (res: Option<i32>)
    ensures
        res is Some <==> in_time_range(timestamp),
        res matches Some(off) ==> -86400 < off < 86400,
{
    chrono::DateTime::from_timestamp(timestamp, 0).map(
        |date_time| date_time.with_timezone(&chrono::Local).offset().fix().local_minus_utc(),
    )
}

/// The local day number of a timestamp at an offset from UTC.
pub open spec fn local_day(timestamp: i64, offset: int) -> int {
    (timestamp + offset) / 86400 + 719163
}

/// The seconds since local midnight of a timestamp at an offset from UTC.
pub open spec fn local_second(timestamp: i64, offset: int) -> int {
    (timestamp + offset) % 86400
}

/// Two decimal digits of a number below 100.
pub open spec fn two_digits(n: int) -> Seq<char> {
    seq![digit_char((n / 10) as nat), digit_char((n % 10) as nat)]
}

/// `HH:MM` of a timestamp at an offset from UTC.
pub open spec fn clock_at(timestamp: i64, offset: int) -> Seq<char> {
    two_digits(local_second(timestamp, offset) / 3600) + ":"@ + two_digits(
        local_second(timestamp, offset) % 3600 / 60,
    )
}

/// `YYYY-MM-DD HH:MM` of a timestamp at an offset from UTC, as chrono shows the day.
pub open spec fn minute_at(timestamp: i64, offset: int) -> Seq<char> {
    day_text(local_day(timestamp, offset) as i32) + " "@ + clock_at(timestamp, offset)
}

/// An offset a local time zone can have: less than a day either way.
pub open spec fn zone_offset(offset: int) -> bool {
    -86400 < offset < 86400
}

/// Two digits of a number below 100.
fn two_digit_text(n: i64) -> (res: String)
    requires
        0 <= n < 100,
    ensures
        res@ == two_digits(n as int),
{
    let mut s = String::new();
    push_char(&mut s, char_of_digit((n / 10) as u8));
    push_char(&mut s, char_of_digit((n % 10) as u8));
    assert(s@ =~= two_digits(n as int));
    s
}

/// The ASCII digit of a number below 10.
fn char_of_digit(d: u8) -> (res: char)
    requires
        d < 10,
    ensures
        res == digit_char(d as nat),
{
    (d + 48) as char
}

/// `HH:MM` of a timestamp at an offset (see [`clock_at`]).
fn clock_text_at(timestamp: i64, offset: i32) -> (res: String)
    requires
        zone_offset(offset as int),
    ensures
        res@ == clock_at(timestamp, offset as int),
{
    let second = ((timestamp as i128 + offset as i128) % 86400) as i64;
    let second = if second < 0 {
        second + 86400
    } else {
        second
    };
    assert(second == local_second(timestamp, offset as int));
    proof {
        reveal_strlit(":");
    }
    let mut s = two_digit_text(second / 3600);
    push_char(&mut s, ':');
    let ghost head = s@;
    let m = two_digit_text(second % 3600 / 60);
    push_str(&mut s, m.as_str());
    assert(s@ =~= clock_at(timestamp, offset as int));
    s
}

/// The local time of day of a Unix timestamp as `HH:MM`, or `"?"` when chrono cannot
/// represent the timestamp. Which time it shows depends on the machine's time zone: it is the
/// time at some offset of less than a day.
pub fn clock_text(timestamp: i64) -> (res: String)
    ensures
        !in_time_range(timestamp) ==> res@ == "?"@,
        in_time_range(timestamp) ==> exists|offset: int| zone_offset(offset) && res@ == #[trigger] clock_at(timestamp, offset),
{
    match local_offset(timestamp) {
        Some(offset) => clock_text_at(timestamp, offset),
        None => {
            proof {
                reveal_strlit("?");
            }
            String::from_str("?")
        },
    }
}

/// The local day of a timestamp at an offset, when chrono represents it.
fn local_day_at(timestamp: i64, offset: i32) -> (res: Option<i32>)
    requires
        zone_offset(offset as int),
    ensures
        res is Some <==> valid_day(local_day(timestamp, offset as int)),
        res matches Some(n) ==> n == local_day(timestamp, offset as int),
{
    let total = timestamp as i128 + offset as i128;
    let q = total / 86400;
    let r = total % 86400;
    let floor = if r < 0 {
        q - 1
    } else {
        q
    };
    assert(floor == (timestamp + offset) / 86400) by {
        if r < 0 {
            assert(total == 86400 * q + r);
        }
    }
    let day = floor + 719163;
    if -95746129 <= day && day <= 95745399 {
        Some(day as i32)
    } else {
        None
    }
}

/// chrono: `DateTime::from_timestamp(timestamp, 0)` shown at `FixedOffset::east_opt(offset)`
/// by `format("%Y-%m-%d %H:%M")`. Stated: the local date and time at that offset as
/// [`minute_at`] writes them. chrono formats the local date through
/// `overflowing_naive_local`, so on its first and last day a local date one day outside its
/// range is written too (December 31 of year -262144, January 1 of year 262143), in the same
/// way: the year as `year_text`, with its sign.
#[verifier::external_body]
fn format_minute_at(timestamp: i64, offset: i32) -> (res: String)
    requires
        in_time_range(timestamp),
        zone_offset(offset as int),
    ensures
        res@ == minute_at(timestamp, offset as int),
{
    let offset = chrono::FixedOffset::east_opt(offset).unwrap();
    chrono::DateTime::from_timestamp(timestamp, 0).unwrap().with_timezone(&offset).format("%Y-%m-%d %H:%M").to_string()
}

/// The local date and time of a Unix timestamp as `YYYY-MM-DD HH:MM`, or `"?"` when chrono
/// cannot represent it (its UTC day is out of range). Which time it shows depends on the
/// machine's time zone: it is the time at some offset of less than a day.
pub fn minute_text(timestamp: i64) -> (res: String)
    ensures
        !in_time_range(timestamp) ==> res@ == "?"@,
        in_time_range(timestamp) ==> exists|offset: int|
            zone_offset(offset) && res@ == #[trigger] minute_at(timestamp, offset),
{
    proof {
        reveal_strlit("?");
        reveal_strlit(" ");
    }
    match local_offset(timestamp) {
        Some(offset) => match local_day_at(timestamp, offset) {
            Some(day) => {
                let mut s = display_day(day);
                push_str(&mut s, " ");
                let clock = clock_text_at(timestamp, offset);
                push_str(&mut s, clock.as_str());
                assert(s@ =~= minute_at(timestamp, offset as int));
                s
            },
            // On chrono's first or last day the local date may lie just outside its range,
            // where only chrono's own formatting reaches it.
            None => format_minute_at(timestamp, offset),
        },
        None => String::from_str("?"),
    }
}

/// The local day of a Unix timestamp: there is one exactly when chrono represents the
/// timestamp and its local day; it is the day at some offset of less than a day.
pub fn local_day_of(timestamp: i64) -> (res: Option<i32>)
    ensures
        !in_time_range(timestamp) ==> res is None,
        in_time_range(timestamp) ==> exists|offset: int|
            zone_offset(offset) && (if valid_day(#[trigger] local_day(timestamp, offset)) {
                res == Some(local_day(timestamp, offset) as i32)
            } else {
                res is None
            }),
        in_time_range(timestamp) && !at_range_edge(timestamp) ==> res is Some,
        res matches Some(n) ==> valid_day(n as int) && utc_day(timestamp) - 1 <= n <= utc_day(timestamp) + 1,
{
    match local_offset(timestamp) {
        Some(offset) => local_day_at(timestamp, offset),
        None => None,
    }
}

// ---------------------------------------------------------------------------
// Weeks
/// The weekday of a day counted from Monday (0) to Sunday (6); day 1 is a Monday.
pub open spec fn weekday(n: int) -> int {
    (n - 1) % 7
}

/// The weekday of a day counted from Monday.
pub fn weekday_from_monday(n: i64) -> (res: i64)
    requires
        n > i64::MIN,
    ensures
        res == weekday(n as int),
        0 <= res < 7,
{
    let r = (n - 1) % 7;
    if r < 0 {
        r + 7
    } else {
        r
    }
}

/// A Monday-to-Sunday week, known by its Monday.
#[derive(Clone, Copy, Debug, PartialEq, Eq)]
pub struct CalendarWeek {
    start: i32,
}

/// The week number of a Monday within the month of its Thursday: the week holding the first
/// Thursday of that month is week 1.
pub open spec fn week_number(start: int, first_of_month: int) -> int {
    let first_thursday = first_of_month + (3 + 7 - weekday(first_of_month)) % 7;
    let first_week = first_thursday - weekday(first_thursday);
    let days = start - first_week;
    (if days >= 0 {
        days / 7
    } else {
        -((-days) / 7)
    }) + 1
}

/// The year, month and number in the label of the week that begins on Monday `monday`: the
/// year and month of its Thursday, and its number within that month ([`week_number`]).
pub open spec fn week_label_parts(monday: int) -> (int, nat, int) {
    let (y, m, _) = civil_of_day((monday + 3) as i32);
    (y as int, m as nat, week_number(monday, day_of_civil(y, m, 1).unwrap() as int))
}

/// The label of a week whose Thursday falls in `month` of `year`: `"{year}년 {month}월 {n}주차"`.
pub open spec fn week_label(year: int, month: nat, n: int) -> Seq<char> {
    signed_decimal(year) + "년 "@ + decimal(month) + "월 "@ + signed_decimal(n) + "주차"@
}

impl CalendarWeek {
    /// The Monday of the week.
    pub closed spec fn monday(self) -> int {
        self.start as int
    }

    /// A week whose Monday chrono can represent.
    pub closed spec fn wf(self) -> bool {
        valid_day(self.start as int)
    }

    /// The week that holds a day (whose Monday chrono can represent).
    pub fn containing(day: i32) -> (res: CalendarWeek)
        requires
            valid_day(day as int),
            valid_day(day - weekday(day as int)),
        ensures
            res.monday() == day - weekday(day as int),
            res.wf(),
    {
        let offset = weekday_from_monday(day as i64);
        CalendarWeek { start: (day as i64 - offset) as i32 }
    }

    /// The Monday.
    pub fn start(self) -> (res: i32)
        ensures
            res == self.monday(),
    {
        self.start
    }

    /// The Sunday.
    pub fn end(self) -> (res: i32)
        requires
            valid_day(self.monday() + 6),
        ensures
            res == self.monday() + 6,
    {
        self.start + 6
    }

    /// Monday through Sunday, in order.
    pub fn dates(self) -> (res: Vec<i32>)
        requires
            valid_day(self.monday() + 6),
        ensures
            res@.len() == 7,
            forall|i: int| 0 <= i < 7 ==> #[trigger] res@[i] == self.monday() + i,
    {
        let mut v: Vec<i32> = Vec::new();
        for i in 0..7
            invariant
                valid_day(self.monday() + 6),
                v@.len() == i,
                forall|k: int| 0 <= k < i ==> #[trigger] v@[k] == self.monday() + k,
        {
            v.push(self.start + i);
        }
        v
    }

    /// The week `weeks` weeks later (earlier when negative).
    pub fn shifted(self, weeks: i64) -> (res: CalendarWeek)
        requires
            valid_day(self.monday() + 7 * weeks),
        ensures
            res.monday() == self.monday() + 7 * weeks,
            res.wf(),
    {
        let start = self.start as i64 + 7 * weeks;
        CalendarWeek { start: start as i32 }
    }

    /// The week's label: its number within the month of its Thursday, the week holding the
    /// month's first Thursday being week 1 (see [`week_number`], [`week_label`]).
    pub fn label(self) -> (res: String)
        requires
            valid_day(self.monday() + 3),
        ensures
            ({
                let (y, m, _) = civil_of_day((self.monday() + 3) as i32);
                let first = day_of_civil(y, m, 1);
                first is Some && res@ == week_label(
                    y as int,
                    m as nat,
                    week_number(self.monday(), first.unwrap() as int),
                )
            }),
            res@ == week_label(
                week_label_parts(self.monday()).0,
                week_label_parts(self.monday()).1,
                week_label_parts(self.monday()).2,
            ),
    {
        let thursday = self.start + 3;
        let (year, month, _) = date_of_day(thursday).unwrap();
        let first = day_of_date(year, month, 1).unwrap();
        let first_weekday = weekday_from_monday(first as i64);
        let first_thursday = first as i64 + (3 + 7 - first_weekday) % 7;
        let first_week = first_thursday - weekday_from_monday(first_thursday);
        let days = self.start as i64 - first_week;
        let number: i64 = if days >= 0 {
            days / 7
        } else {
            -((-days) / 7)
        } + 1;
        let mut res = signed_decimal_string(year as i64);
        push_str(&mut res, "년 ");
        push_str(&mut res, decimal_string(month as u64).as_str());
        push_str(&mut res, "월 ");
        push_str(&mut res, signed_decimal_string(number).as_str());
        push_str(&mut res, "주차");
        res
    }
}

/// A week runs from Monday to Sunday: the Monday of the week that holds a day is a Monday,
/// at most six days before it.
pub proof fn law_weeks_run_monday_to_sunday(day: int)
    ensures
        weekday(day - weekday(day)) == 0,
        day - weekday(day) <= day <= day - weekday(day) + 6,
{
    let w = weekday(day);
    vstd::arithmetic::div_mod::lemma_fundamental_div_mod(day - 1, 7);
    let q = (day - 1) / 7;
    assert(day - 1 == 7 * q + w);
    vstd::arithmetic::div_mod::lemma_fundamental_div_mod_converse_mod(day - w - 1, 7, q, 0);
}

/// The proleptic Gregorian date of a day chrono represents is a real date of its range (a
/// month 1 to 12, a day 1 to 31, a year of chrono's), and counting its days back gives the
/// day again.
proof fn lemma_civil_of_day(n: i32)
    requires
        valid_day(n as int),
    ensures
        ({
            let (y, m, d) = civil_of_day(n);
            &&& 1 <= m <= 12
            &&& 1 <= d <= 31
            &&& -262143 <= y <= 262142
            &&& day_number(y as int, m as int, d as int) == n
        }),
{
    reveal(civil_of_day);
    let z = n as int + 305;
    let era = z / 146097;
    vstd::arithmetic::div_mod::lemma_fundamental_div_mod(z, 146097);
    let doe = z - era * 146097;
    assert(0 <= doe < 146097);
    let a = doe / 1460;
    let b = doe / 36524;
    let c = doe / 146096;
    vstd::arithmetic::div_mod::lemma_fundamental_div_mod(doe, 1460);
    vstd::arithmetic::div_mod::lemma_fundamental_div_mod(doe, 36524);
    vstd::arithmetic::div_mod::lemma_fundamental_div_mod(doe, 146096);
    let t = doe - a + b - c;
    let yoe = t / 365;
    vstd::arithmetic::div_mod::lemma_fundamental_div_mod(t, 365);
    assert(0 <= yoe < 400);
    let q4 = yoe / 4;
    let q100 = yoe / 100;
    vstd::arithmetic::div_mod::lemma_fundamental_div_mod(yoe, 4);
    vstd::arithmetic::div_mod::lemma_fundamental_div_mod(yoe, 100);
    let doy = doe - (365 * yoe + q4 - q100);
    assert(0 <= doy <= 365);
    let mp = (5 * doy + 2) / 153;
    vstd::arithmetic::div_mod::lemma_fundamental_div_mod(5 * doy + 2, 153);
    assert(0 <= mp <= 11);
    let k = (153 * mp + 2) / 5;
    vstd::arithmetic::div_mod::lemma_fundamental_div_mod(153 * mp + 2, 5);
    let d = doy - k + 1;
    assert(1 <= d <= 31);
    let m = if mp < 10 {
        mp + 3
    } else {
        mp - 9
    };
    let y = yoe + era * 400 + if m <= 2 {
        1int
    } else {
        0
    };
    assert(-262143 <= y <= 262142);
    assert(civil_of_day(n) == (y as i32, m as u32, d as u32));
    let yy = yoe + era * 400;
    vstd::arithmetic::div_mod::lemma_fundamental_div_mod_converse(yy, 400, era, yoe);
    assert(day_number(y, m, d) == n);
}

/// How a Monday `s` stands to the first Thursday of the month that begins on day `f`: that
/// Thursday lies in the month's first seven days, and the week number counts the whole weeks
/// from it to the Thursday of `s`'s week.
proof fn lemma_week_number(s: int, f: int)
    requires
        weekday(s) == 0,
    ensures
        ({
            let ft = f + (3 + 7 - weekday(f)) % 7;
            &&& f <= ft <= f + 6
            &&& weekday(ft) == 3
            &&& (s + 3 - ft) % 7 == 0
            &&& week_number(s, f) == (s + 3 - ft) / 7 + 1
        }),
{
    let w = weekday(f);
    vstd::arithmetic::div_mod::lemma_fundamental_div_mod(f - 1, 7);
    let a = (f - 1) / 7;
    assert(f - 1 == 7 * a + w);
    assert(0 <= w < 7);
    let d = (3 + 7 - w) % 7;
    if w <= 3 {
        vstd::arithmetic::div_mod::lemma_fundamental_div_mod_converse(10 - w, 7, 1, 3 - w);
    } else {
        vstd::arithmetic::div_mod::lemma_fundamental_div_mod_converse(10 - w, 7, 0, 10 - w);
    }
    let ft = f + d;
    if w <= 3 {
        vstd::arithmetic::div_mod::lemma_fundamental_div_mod_converse(ft - 1, 7, a, 3);
    } else {
        vstd::arithmetic::div_mod::lemma_fundamental_div_mod_converse(ft - 1, 7, a + 1, 3);
    }
    assert(weekday(ft) == 3);
    vstd::arithmetic::div_mod::lemma_fundamental_div_mod(s - 1, 7);
    let b = (s - 1) / 7;
    assert(s - 1 == 7 * b);
    let c = if w <= 3 {
        b - a
    } else {
        b - a - 1
    };
    let days = s + 3 - ft;
    assert(days == 7 * c);
    vstd::arithmetic::div_mod::lemma_fundamental_div_mod_converse(days, 7, c, 0);
    assert(ft - weekday(ft) == ft - 3);
    if days < 0 {
        vstd::arithmetic::div_mod::lemma_fundamental_div_mod_converse(-days, 7, -c, 0);
    }
}

/// Week 1 of a month is the week that holds its first Thursday, and the weeks after it count
/// up by one: for a Monday `s` and a month beginning on day `f`, the week of `s` is numbered 1
/// exactly when some Thursday in it is one of the month's first seven days, and the next
/// week's number is one more.
pub proof fn law_week_one_holds_the_first_thursday(s: int, f: int)
    requires
        weekday(s) == 0,
    ensures
        week_number(s, f) == 1 <==> exists|t: int| s <= t <= s + 6 && f <= t <= f + 6 && #[trigger] weekday(t) == 3,
        week_number(s + 7, f) == week_number(s, f) + 1,
{
    lemma_week_number(s, f);
    let ft = f + (3 + 7 - weekday(f)) % 7;
    vstd::arithmetic::div_mod::lemma_fundamental_div_mod(s - 1, 7);
    let b = (s - 1) / 7;
    vstd::arithmetic::div_mod::lemma_fundamental_div_mod_converse(s + 7 - 1, 7, b + 1, 0);
    lemma_week_number(s + 7, f);
    let c = (s + 3 - ft) / 7;
    vstd::arithmetic::div_mod::lemma_fundamental_div_mod((s + 3 - ft), 7);
    vstd::arithmetic::div_mod::lemma_fundamental_div_mod_converse(s + 7 + 3 - ft, 7, c + 1, 0);
    if week_number(s, f) == 1 {
        assert(s + 3 == ft);
        assert(weekday(ft) == 3);
    }
    if exists|t: int| s <= t <= s + 6 && f <= t <= f + 6 && #[trigger] weekday(t) == 3 {
        let t = choose|t: int| s <= t <= s + 6 && f <= t <= f + 6 && #[trigger] weekday(t) == 3;
        vstd::arithmetic::div_mod::lemma_fundamental_div_mod(t - 1, 7);
        let q = (t - 1) / 7;
        assert(t - 1 == 7 * q + 3);
        assert(t - s == 7 * (q - b) + 3);
        assert(q == b);
        vstd::arithmetic::div_mod::lemma_fundamental_div_mod(ft - 1, 7);
        let r = (ft - 1) / 7;
        assert(ft - 1 == 7 * r + 3);
        assert(t - ft == 7 * (q - r));
        assert(q == r);
        assert(s + 3 - ft == 0);
    }
}

/// A week is labelled by the month of its Thursday: the labelled month begins on a day `f`
/// no later than the week's Thursday, which is one of the month's first 31 days; the week's
/// number counts from 1 to 5, and is 1 exactly when the week holds the month's first
/// Thursday. So 2026-08-24 to 30 is a week of August and 2026-08-31 to 09-06 week 1 of September.
pub proof fn law_week_is_labelled_by_its_thursdays_month(monday: int)
    requires
        weekday(monday) == 0,
        valid_day(monday + 3),
    ensures
        ({
            let (y, m, n) = week_label_parts(monday);
            &&& day_of_civil(y as i32, m as u32, 1) is Some
            &&& ({
                let f = day_of_civil(y as i32, m as u32, 1).unwrap() as int;
                &&& f <= monday + 3 <= f + 30
                &&& 1 <= n <= 5
                &&& n == 1 <==> exists|t: int|
                    monday <= t <= monday + 6 && f <= t <= f + 6 && #[trigger] weekday(t) == 3
            })
        }),
{
    let thu = (monday + 3) as i32;
    lemma_civil_of_day(thu);
    let (y, m, d) = civil_of_day(thu);
    reveal(day_of_civil);
    let f = day_number(y as int, m as int, 1);
    assert(f == thu - (d - 1));
    assert(day_of_civil(y, m, 1) == Some(f as i32));
    assert(week_label_parts(monday) == (y as int, m as nat, week_number(monday, f)));
    law_week_one_holds_the_first_thursday(monday, f);
    lemma_week_number(monday, f);
    let ft = f + (3 + 7 - weekday(f)) % 7;
    vstd::arithmetic::div_mod::lemma_fundamental_div_mod(monday + 3 - ft, 7);
}

} // verus!
