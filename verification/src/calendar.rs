//! Calendar dates and ISO-8601 timestamps from seconds since the Unix epoch.

use vstd::prelude::*;

use crate::text::{
    all_digits, digits_value, is_digit, is_text_before, lemma_number_decides, lemma_padded,
    lemma_padded_reads_back, lemma_text_order_one_way, padded, push_padded, ten_to,
};

verus! {

// ---------------------------------------------------------------------------
// The Gregorian calendar
// ---------------------------------------------------------------------------

/// Whether `y` is a leap year.
pub open spec fn is_leap(y: int) -> bool {
    y % 4 == 0 && (y % 100 != 0 || y % 400 == 0)
}

/// How many days the year `y` has.
pub open spec fn year_len(y: int) -> int {
    if is_leap(y) {
        366
    } else {
        365
    }
}

/// How many days the month `m` (1 to 12) of the year `y` has.
pub open spec fn month_len(y: int, m: int) -> int {
    if m == 2 {
        if is_leap(y) {
            29
        } else {
            28
        }
    } else if m == 4 || m == 6 || m == 9 || m == 11 {
        30
    } else {
        31
    }
}

/// How many days lie between 1 January 1970 and 1 January of the year `y`.
pub open spec fn days_before_year(y: int) -> int
    decreases y - 1970,
{
    if y <= 1970 {
        0
    } else {
        days_before_year(y - 1) + year_len(y - 1)
    }
}

/// How many days of the year `y` lie before its month `m`.
pub open spec fn days_before_month(y: int, m: int) -> int
    decreases m,
{
    if m <= 1 {
        0
    } else {
        days_before_month(y, m - 1) + month_len(y, m - 1)
    }
}

/// A calendar date: year, month, day of the month.
pub struct Date {
    pub year: int,
    pub month: int,
    pub day: int,
}

impl Date {
    /// Whether the date is in the calendar, and not before 1970.
    pub open spec fn exists_from_1970(self) -> bool {
        &&& self.year >= 1970
        &&& 1 <= self.month <= 12
        &&& 1 <= self.day <= month_len(self.year, self.month)
    }

    /// How many days lie between 1 January 1970 and this date.
    pub open spec fn day_number(self) -> int {
        days_before_year(self.year) + days_before_month(self.year, self.month) + self.day - 1
    }
}

/// The date that a year, a month and a day of the month stand for.
pub open spec fn date_of(ymd: (u64, u64, u64)) -> Date {
    Date { year: ymd.0 as int, month: ymd.1 as int, day: ymd.2 as int }
}

/// How many leap years lie before the year `y`, counted from the year 1.
spec fn leaps_before(y: int) -> int {
    (y - 1) / 4 - (y - 1) / 100 + (y - 1) / 400
}

proof fn lemma_days_before_year(y: int)
    requires
        y >= 1970,
    ensures
        days_before_year(y) == 365 * (y - 1970) + leaps_before(y) - 477,
    decreases y,
{
    if y > 1970 {
        lemma_days_before_year(y - 1);
        lemma_leaps_step(y - 1);
    }
}

proof fn lemma_leaps_step(y: int)
    requires
        y >= 1,
    ensures
        leaps_before(y + 1) == leaps_before(y) + year_len(y) - 365,
{
    assert(y / 4 == (y - 1) / 4 + if y % 4 == 0 { 1int } else { 0int });
    assert(y / 100 == (y - 1) / 100 + if y % 100 == 0 { 1int } else { 0int });
    assert(y / 400 == (y - 1) / 400 + if y % 400 == 0 { 1int } else { 0int });
    assert(y % 100 == 0 ==> y % 4 == 0);
    assert(y % 400 == 0 ==> y % 100 == 0);
}

/// The days of a year before each month, counted from March.
proof fn lemma_days_before_month(y: int)
    ensures
        days_before_month(y, 1) == 0,
        days_before_month(y, 2) == 31,
        days_before_month(y, 3) == 59 + year_len(y) - 365,
        forall|m: int|
            3 <= m <= 12 ==> #[trigger] days_before_month(y, m) == 59 + year_len(y) - 365 + (153 * (m
                - 3) + 2) / 5,
{
    reveal_with_fuel(days_before_month, 13);
    assert forall|m: int| 3 <= m <= 12 implies #[trigger] days_before_month(y, m) == 59 + year_len(y)
        - 365 + (153 * (m - 3) + 2) / 5 by {
        if m == 3 {
        } else if m == 4 {
        } else if m == 5 {
        } else if m == 6 {
        } else if m == 7 {
        } else if m == 8 {
        } else if m == 9 {
        } else if m == 10 {
        } else if m == 11 {
        } else {
            assert(m == 12);
        }
    }
}

/// Splitting a day of a 400-year era into a year of the era and a day of that
/// year, both counted from March.
proof fn lemma_year_of_era(doe: int, yoe: int, doy: int)
    requires
        0 <= doe < 146_097,
        yoe == (doe - doe / 1_460 + doe / 36_524 - doe / 146_096) / 365,
        doy == doe - (365 * yoe + yoe / 4 - yoe / 100),
    ensures
        0 <= yoe < 400,
        0 <= doy <= 365,
        doy == 365 ==> is_leap(yoe + 1),
{
}

/// Splitting a day of a year counted from March into a month counted from March
/// and a day of that month, and finding the calendar date that this is.
proof fn lemma_date_of_parts(era: int, yoe: int, doy: int, mp: int, date: Date)
    requires
        0 <= yoe < 400,
        0 <= doy <= 365,
        doy == 365 ==> is_leap(yoe + 1),
        146_097 * era + 365 * yoe + yoe / 4 - yoe / 100 + doy >= 719_468,
        mp == (5 * doy + 2) / 153,
        date.day == doy - (153 * mp + 2) / 5 + 1,
        date.month == if mp < 10 {
            mp + 3
        } else {
            mp - 9
        },
        date.year == 400 * era + yoe + if mp < 10 {
            0int
        } else {
            1int
        },
    ensures
        0 <= mp < 12,
        date.exists_from_1970(),
        date.day_number() == 146_097 * era + 365 * yoe + yoe / 4 - yoe / 100 + doy - 719_468,
{
    let y = 400 * era + yoe;
    assert(is_leap(yoe + 1) == is_leap(y + 1));
    assert(y / 4 == 100 * era + yoe / 4);
    assert(y / 100 == 4 * era + yoe / 100);
    assert(y / 400 == era);
    assert(y >= 1969);
    lemma_days_before_year(date.year);
    lemma_days_before_month(date.year);
    if mp < 10 {
        assert(date.year >= 1970);
        lemma_leaps_step(y);
    }
}

/// The calendar date `z` days after 1 January 1970, as year, month and day of
/// the month, by Howard Hinnant's `civil_from_days`.
pub fn epoch_days_to_ymd(z: u64) -> (ymd: (u64, u64, u64))
    requires
        z + 719_468 <= u64::MAX,
    ensures
        date_of(ymd).exists_from_1970(),
        date_of(ymd).day_number() == z,
        date_of(ymd) == civil_date(z as nat),
        ymd.0 == civil_date(z as nat).year,
        ymd.1 == civil_date(z as nat).month,
        ymd.2 == civil_date(z as nat).day,
{
    let ghost days: nat = z as nat;
    let z: u64 = z + 719_468;
    let era: u64 = z / 146_097;
    let doe: u64 = z - era * 146_097;
    let yoe: u64 = (doe - doe / 1_460 + doe / 36_524 - doe / 146_096) / 365;
    let ghost days_before: int = 365 * yoe + yoe / 4 - yoe / 100;
    proof {
        lemma_year_of_era(doe as int, yoe as int, doe - days_before);
    }
    let y: u64 = yoe + era * 400;
    let doy: u64 = doe - (365 * yoe + yoe / 4 - yoe / 100);
    let mp: u64 = (5 * doy + 2) / 153;
    proof {
        let date = Date {
            year: y + if mp < 10 { 0int } else { 1int },
            month: if mp < 10 { mp + 3 } else { mp - 9 },
            day: doy - (153 * mp + 2) / 5 + 1,
        };
        lemma_date_of_parts(era as int, yoe as int, doy as int, mp as int, date);
    }
    let d: u64 = doy - (153 * mp + 2) / 5 + 1;
    let mo: u64 = if mp < 10 {
        mp + 3
    } else {
        mp - 9
    };
    let y: u64 = if mo <= 2 {
        y + 1
    } else {
        y
    };
    proof {
        lemma_civil_date(days);
        lemma_day_number_unique(date_of((y, mo, d)), civil_date(days));
    }
    (y, mo, d)
}

impl Date {
    /// Whether this date comes before `other`.
    pub open spec fn is_before(self, other: Date) -> bool {
        ||| self.year < other.year
        ||| self.year == other.year && self.month < other.month
        ||| self.year == other.year && self.month == other.month && self.day < other.day
    }

    /// The date one day later.
    pub open spec fn next(self) -> Date {
        if self.day < month_len(self.year, self.month) {
            Date { year: self.year, month: self.month, day: self.day + 1 }
        } else if self.month < 12 {
            Date { year: self.year, month: self.month + 1, day: 1 }
        } else {
            Date { year: self.year + 1, month: 1, day: 1 }
        }
    }
}

proof fn lemma_year_holds_its_months(y: int)
    ensures
        forall|m: int|
            1 <= m <= 12 ==> 0 <= #[trigger] days_before_month(y, m) && days_before_month(y, m)
                + month_len(y, m) <= year_len(y),
        days_before_month(y, 12) + 31 == year_len(y),
{
    reveal_with_fuel(days_before_month, 13);
    assert forall|m: int| 1 <= m <= 12 implies 0 <= #[trigger] days_before_month(y, m)
        && days_before_month(y, m) + month_len(y, m) <= year_len(y) by {
        if m == 1 {
        } else if m == 2 {
        } else if m == 3 {
        } else if m == 4 {
        } else if m == 5 {
        } else if m == 6 {
        } else if m == 7 {
        } else if m == 8 {
        } else if m == 9 {
        } else if m == 10 {
        } else if m == 11 {
        } else {
            assert(m == 12);
        }
    }
}

proof fn lemma_years_ordered(a: int, b: int)
    requires
        1970 <= a < b,
    ensures
        days_before_year(a) + year_len(a) <= days_before_year(b),
    decreases b,
{
    if a < b - 1 {
        lemma_years_ordered(a, b - 1);
    }
}

proof fn lemma_months_ordered(y: int, a: int, b: int)
    requires
        1 <= a < b <= 12,
    ensures
        days_before_month(y, a) + month_len(y, a) <= days_before_month(y, b),
    decreases b,
{
    if a < b - 1 {
        lemma_months_ordered(y, a, b - 1);
    }
}

/// An earlier date has a smaller day number.
pub proof fn lemma_day_numbers_ordered(a: Date, b: Date)
    requires
        a.exists_from_1970(),
        b.exists_from_1970(),
        a.is_before(b),
    ensures
        a.day_number() < b.day_number(),
{
    lemma_year_holds_its_months(a.year);
    lemma_year_holds_its_months(b.year);
    if a.year < b.year {
        lemma_years_ordered(a.year, b.year);
    } else if a.month < b.month {
        lemma_months_ordered(a.year, a.month, b.month);
    }
}

/// A day number belongs to one date only.
pub proof fn lemma_day_number_unique(a: Date, b: Date)
    requires
        a.exists_from_1970(),
        b.exists_from_1970(),
        a.day_number() == b.day_number(),
    ensures
        a == b,
{
    if a.is_before(b) {
        lemma_day_numbers_ordered(a, b);
    } else if b.is_before(a) {
        lemma_day_numbers_ordered(b, a);
    }
}

/// The next day is in the calendar and its day number is one higher.
pub proof fn lemma_next_day(date: Date)
    requires
        date.exists_from_1970(),
    ensures
        date.next().exists_from_1970(),
        date.next().day_number() == date.day_number() + 1,
{
    lemma_year_holds_its_months(date.year);
    lemma_months_of_next(date);
}

proof fn lemma_months_of_next(date: Date)
    ensures
        date.month >= 1 ==> days_before_month(date.year, date.month + 1) == days_before_month(
            date.year,
            date.month,
        ) + month_len(date.year, date.month),
        date.year >= 1970 ==> days_before_year(date.year + 1) == days_before_year(date.year)
            + year_len(date.year),
        days_before_month(date.year + 1, 1) == 0,
{
}

/// The calendar date `z` days after 1 January 1970.
pub open spec fn civil_date(z: nat) -> Date {
    choose|date: Date| date.exists_from_1970() && #[trigger] date.day_number() == z
}

/// Every day from 1970 on has its date.
pub proof fn lemma_civil_date(z: nat)
    ensures
        civil_date(z).exists_from_1970(),
        civil_date(z).day_number() == z,
{
    let date = lemma_some_date(z);
    assert(date.day_number() == z);
}

proof fn lemma_some_date(z: nat) -> (date: Date)
    ensures
        date.exists_from_1970(),
        date.day_number() == z,
    decreases z,
{
    if z == 0 {
        let date = Date { year: 1970, month: 1, day: 1 };
        assert(days_before_month(1970, 1) == 0);
        date
    } else {
        let before = lemma_some_date((z - 1) as nat);
        lemma_next_day(before);
        before.next()
    }
}

/// The calendar starts on 1 January 1970 and goes on day by day: to the next day of
/// the month, behind the last day of a month to the first of the next, and behind
/// 31 December to 1 January of the next year. February has 29 days in the years that
/// four divides, but not where a hundred does and four hundred does not.
pub proof fn lemma_calendar_goes_day_by_day(z: nat)
    ensures
        civil_date(0) == (Date { year: 1970, month: 1, day: 1 }),
        ({
            let date = civil_date(z);
            let last = if date.month == 2 {
                if date.year % 400 == 0 || date.year % 4 == 0 && date.year % 100 != 0 {
                    29int
                } else {
                    28
                }
            } else if date.month == 4 || date.month == 6 || date.month == 9 || date.month == 11 {
                30
            } else {
                31
            };
            civil_date(z + 1) == if date.day < last {
                Date { year: date.year, month: date.month, day: date.day + 1 }
            } else if date.month < 12 {
                Date { year: date.year, month: date.month + 1, day: 1 }
            } else {
                Date { year: date.year + 1, month: 1, day: 1 }
            }
        }),
{
    let first = Date { year: 1970, month: 1, day: 1 };
    assert(days_before_month(1970, 1) == 0);
    lemma_civil_date(0);
    lemma_day_number_unique(first, civil_date(0));
    lemma_civil_date(z);
    lemma_civil_date(z + 1);
    lemma_next_day(civil_date(z));
    lemma_day_number_unique(civil_date(z).next(), civil_date(z + 1));
    assert(civil_date(z).year % 400 == 0 ==> civil_date(z).year % 4 == 0);
}

// ---------------------------------------------------------------------------
// Timestamps
// ---------------------------------------------------------------------------

/// A date and a time of day in ISO-8601 form, in UTC and to the second.
pub open spec fn iso8601_text(date: Date, h: nat, m: nat, s: nat) -> Seq<char> {
    padded(date.year as nat, 4).push('-') + padded(date.month as nat, 2).push('-') + padded(
        date.day as nat,
        2,
    ).push('T') + padded(h, 2).push(':') + padded(m, 2).push(':') + padded(s, 2).push('Z')
}

/// The ISO-8601 timestamp of the moment `secs` seconds after the Unix epoch.
pub open spec fn timestamp_text(secs: nat) -> Seq<char> {
    iso8601_text(civil_date(secs / 86_400), (secs / 3_600) % 24, (secs / 60) % 60, secs % 60)
}

/// The ISO-8601 timestamp of the moment `secs` seconds after the Unix epoch.
pub fn iso8601(secs: u64) -> (text: String)
    ensures
        text@ == timestamp_text(secs as nat),
{
    let s: u64 = secs % 60;
    let m: u64 = (secs / 60) % 60;
    let h: u64 = (secs / 3600) % 24;
    let (y, mo, d) = epoch_days_to_ymd(secs / 86400);
    let mut text: String = String::new();
    push_padded(&mut text, y, 4);
    text.push('-');
    push_padded(&mut text, mo, 2);
    text.push('-');
    push_padded(&mut text, d, 2);
    text.push('T');
    push_padded(&mut text, h, 2);
    text.push(':');
    push_padded(&mut text, m, 2);
    text.push(':');
    push_padded(&mut text, s, 2);
    text.push('Z');
    assert(text@ =~= iso8601_text(date_of((y, mo, d)), h as nat, m as nat, s as nat));
    text
}

/// The whole seconds that the system clock is past the Unix epoch, or `None`
/// where the clock is set before it. Calls `SystemTime::elapsed` on
/// `UNIX_EPOCH`, which compares that instant with the current clock time;
/// nothing is claimed of what the clock shows.
#[verifier::external_body]
fn clock_seconds() -> Option<u64> {
    match std::time::UNIX_EPOCH.elapsed() {
        Ok(elapsed) => Some(elapsed.as_secs()),
        Err(_) => None,
    }
}

/// The ISO-8601 timestamp of a clock reading, where a clock set before the Unix
/// epoch counts as showing the epoch.
pub fn iso8601_of_reading(reading: Option<u64>) -> (text: String)
    ensures
        text@ == timestamp_text(
            match reading {
                Some(secs) => secs as nat,
                None => 0,
            },
        ),
{
    match reading {
        Some(secs) => iso8601(secs),
        None => iso8601(0),
    }
}

/// Whether `reading` is what a reading of the system clock comes back with, taken
/// by a call of [`clock_seconds`]. Nothing else is known to be such a reading.
pub closed spec fn clock_shows(reading: Option<u64>) -> bool {
    call_ensures(clock_seconds, (), reading)
}

/// What the clock shows is what a call of `clock_seconds` returns, and nothing
/// else.
proof fn lemma_clock_shows_what_is_read(reading: Option<u64>)
    ensures
        clock_shows(reading) <==> call_ensures(clock_seconds, (), reading),
{
}

/// Takes one reading of a clock.
fn read_clock<C: Fn() -> Option<u64>>(clock: C) -> (reading: Option<u64>)
    requires
        clock.requires(()),
    ensures
        clock.ensures((), reading),
{
    clock()
}

/// The ISO-8601 timestamp of the moment that the system clock shows, where a clock
/// set before the Unix epoch counts as showing the epoch.
pub fn now_iso8601() -> (text: String)
    ensures
        exists|reading: Option<u64>, secs: u64|
            #![trigger clock_shows(reading), timestamp_text(secs as nat)]
            {
                &&& clock_shows(reading)
                &&& secs == match reading {
                    Some(shown) => shown,
                    None => 0,
                }
                &&& text@ == timestamp_text(secs as nat)
            },
{
    let reading = read_clock(clock_seconds);
    proof {
        lemma_clock_shows_what_is_read(reading);
    }
    let ghost secs: u64 = match reading {
        Some(secs) => secs,
        None => 0,
    };
    let text = iso8601_of_reading(reading);
    assert(clock_shows(reading) && text@ == timestamp_text(secs as nat));
    text
}

proof fn lemma_two_digits(n: nat)
    requires
        n < 100,
    ensures
        all_digits(padded(n, 2)),
        digits_value(padded(n, 2)) == n,
        padded(n, 2).len() == 2,
{
    reveal_with_fuel(ten_to, 3);
    lemma_padded(n, 2);
}

/// The parts of a timestamp: each number has its digits in its place, and the
/// separators stand between them.
proof fn lemma_timestamp_parts(secs: nat) -> (w: int)
    ensures
        ({
            let text = timestamp_text(secs);
            let date = civil_date(secs / 86_400);
            &&& w >= 4
            &&& date.year <= 9999 ==> w == 4
            &&& text.len() == w + 16
            &&& all_digits(text.take(w))
            &&& text.take(w) == padded(date.year as nat, 4)
            &&& digits_value(text.take(w)) == date.year
            &&& text.subrange(w + 1, w + 3) == padded(date.month as nat, 2)
            &&& text.subrange(w + 4, w + 6) == padded(date.day as nat, 2)
            &&& text.subrange(w + 7, w + 9) == padded((secs / 3_600) % 24, 2)
            &&& text.subrange(w + 10, w + 12) == padded((secs / 60) % 60, 2)
            &&& text.subrange(w + 13, w + 15) == padded(secs % 60, 2)
            &&& text[w] == '-'
            &&& text[w + 3] == '-'
            &&& text[w + 6] == 'T'
            &&& text[w + 9] == ':'
            &&& text[w + 12] == ':'
            &&& text[w + 15] == 'Z'
            &&& forall|i: int|
                0 <= i < text.len() && i != w && i != w + 3 && i != w + 6 && i != w + 9 && i != w + 12
                    && i != w + 15 ==> is_digit(#[trigger] text[i])
        }),
{
    let date = civil_date(secs / 86_400);
    let text = timestamp_text(secs);
    lemma_civil_date(secs / 86_400);
    reveal_with_fuel(ten_to, 5);
    lemma_padded(date.year as nat, 4);
    lemma_two_digits(date.month as nat);
    lemma_two_digits(date.day as nat);
    lemma_two_digits((secs / 3_600) % 24);
    lemma_two_digits((secs / 60) % 60);
    lemma_two_digits(secs % 60);
    let w = padded(date.year as nat, 4).len() as int;
    assert(text.take(w) =~= padded(date.year as nat, 4));
    assert(text.subrange(w + 1, w + 3) =~= padded(date.month as nat, 2));
    assert(text.subrange(w + 4, w + 6) =~= padded(date.day as nat, 2));
    assert(text.subrange(w + 7, w + 9) =~= padded((secs / 3_600) % 24, 2));
    assert(text.subrange(w + 10, w + 12) =~= padded((secs / 60) % 60, 2));
    assert(text.subrange(w + 13, w + 15) =~= padded(secs % 60, 2));
    assert forall|i: int| 0 <= i < text.len() && i != w && i != w + 3 && i != w + 6 && i != w + 9
        && i != w + 12 && i != w + 15 implies is_digit(#[trigger] text[i]) by {
        if i < w {
            assert(text.take(w)[i] == text[i]);
        } else if i < w + 3 {
            assert(text.subrange(w + 1, w + 3)[i - w - 1] == text[i]);
        } else if i < w + 6 {
            assert(text.subrange(w + 4, w + 6)[i - w - 4] == text[i]);
        } else if i < w + 9 {
            assert(text.subrange(w + 7, w + 9)[i - w - 7] == text[i]);
        } else if i < w + 12 {
            assert(text.subrange(w + 10, w + 12)[i - w - 10] == text[i]);
        } else {
            assert(text.subrange(w + 13, w + 15)[i - w - 13] == text[i]);
        }
    }
    w
}

/// What a timestamp says: the year, the month and the day of the month of its date,
/// and an hour, a minute and a second that give the moment back. The year has at
/// least four digits, and more only where the first of them counts; the other
/// numbers have two.
pub proof fn lemma_timestamp_reads_back(secs: nat)
    ensures
        ({
            let text = timestamp_text(secs);
            let w = text.len() - 16;
            let date = civil_date(secs / 86_400);
            let h = digits_value(text.subrange(w + 7, w + 9));
            let m = digits_value(text.subrange(w + 10, w + 12));
            let s = digits_value(text.subrange(w + 13, w + 15));
            &&& w >= 4
            &&& w > 4 ==> text[0] != '0'
            &&& digits_value(text.take(w)) == date.year
            &&& digits_value(text.subrange(w + 1, w + 3)) == date.month
            &&& digits_value(text.subrange(w + 4, w + 6)) == date.day
            &&& h < 24 && m < 60 && s < 60
            &&& secs == 86_400 * (secs / 86_400) + 3_600 * h + 60 * m + s
            &&& text[w] == '-' && text[w + 3] == '-' && text[w + 6] == 'T' && text[w + 9] == ':'
                && text[w + 12] == ':' && text[w + 15] == 'Z'
            &&& forall|i: int|
                0 <= i < text.len() && i != w && i != w + 3 && i != w + 6 && i != w + 9 && i != w + 12
                    && i != w + 15 ==> '0' <= #[trigger] text[i] <= '9'
        }),
{
    let text = timestamp_text(secs);
    let date = civil_date(secs / 86_400);
    let w = lemma_timestamp_parts(secs);
    assert(w == text.len() - 16);
    lemma_civil_date(secs / 86_400);
    lemma_two_digits(date.month as nat);
    lemma_two_digits(date.day as nat);
    lemma_two_digits((secs / 3_600) % 24);
    lemma_two_digits((secs / 60) % 60);
    lemma_two_digits(secs % 60);
    lemma_time_of_day(secs);
    lemma_padded_reads_back(date.year as nat, 4);
    assert(text.take(w) == padded(date.year as nat, 4));
    assert(text.take(w)[0] == text[0]);
    assert forall|i: int|
        0 <= i < text.len() && i != w && i != w + 3 && i != w + 6 && i != w + 9 && i != w + 12 && i
            != w + 15 implies '0' <= #[trigger] text[i] <= '9' by {
        assert(is_digit(text[i]));
    }
}

/// Up to the year 9999 a timestamp has the form `YYYY-MM-DDThh:mm:ssZ`.
pub proof fn lemma_timestamp_shape(secs: nat)
    requires
        civil_date(secs / 86_400).year <= 9999,
    ensures
        timestamp_text(secs).len() == 20,
        timestamp_text(secs)[4] == '-',
        timestamp_text(secs)[7] == '-',
        timestamp_text(secs)[10] == 'T',
        timestamp_text(secs)[13] == ':',
        timestamp_text(secs)[16] == ':',
        timestamp_text(secs)[19] == 'Z',
        forall|i: int|
            0 <= i < 19 && i != 4 && i != 7 && i != 10 && i != 13 && i != 16 ==> is_digit(
                #[trigger] timestamp_text(secs)[i],
            ),
{
    lemma_timestamp_parts(secs);
}

/// A timestamp is made of digits and of `-`, `T`, `:` and `Z`.
pub proof fn lemma_timestamp_characters(secs: nat)
    ensures
        forall|i: int|
            0 <= i < timestamp_text(secs).len() ==> {
                let c = #[trigger] timestamp_text(secs)[i];
                is_digit(c) || c == '-' || c == 'T' || c == ':' || c == 'Z'
            },
{
    lemma_timestamp_parts(secs);
}

/// A second by its day and its time of day.
proof fn lemma_time_of_day(secs: nat)
    ensures
        secs == 86_400 * (secs / 86_400) + 3_600 * ((secs / 3_600) % 24) + 60 * ((secs / 60) % 60)
            + secs % 60,
{
}

/// Two different seconds have different timestamps.
pub proof fn lemma_timestamp_injective(a: nat, b: nat)
    requires
        timestamp_text(a) == timestamp_text(b),
    ensures
        a == b,
{
    lemma_timestamp_parts(a);
    lemma_timestamp_parts(b);
    let da = civil_date(a / 86_400);
    let db = civil_date(b / 86_400);
    lemma_civil_date(a / 86_400);
    lemma_civil_date(b / 86_400);
    lemma_two_digits(da.month as nat);
    lemma_two_digits(db.month as nat);
    lemma_two_digits(da.day as nat);
    lemma_two_digits(db.day as nat);
    lemma_two_digits((a / 3_600) % 24);
    lemma_two_digits((b / 3_600) % 24);
    lemma_two_digits((a / 60) % 60);
    lemma_two_digits((b / 60) % 60);
    lemma_two_digits(a % 60);
    lemma_two_digits(b % 60);
    assert(da == db);
    assert(a / 86_400 == b / 86_400);
    lemma_time_of_day(a);
    lemma_time_of_day(b);
}

/// Whether a text has the form `YYYY-MM-DDThh:mm:ssZ`.
spec fn is_timestamp(text: Seq<char>) -> bool {
    &&& text.len() == 20
    &&& text[4] == '-' && text[7] == '-' && text[10] == 'T' && text[13] == ':' && text[16] == ':'
    &&& forall|i: int|
        0 <= i < 19 && i != 4 && i != 7 && i != 10 && i != 13 && i != 16 ==> is_digit(
            #[trigger] text[i],
        )
}

/// The numbers of a text of the form `YYYY-MM-DDThh:mm:ssZ`, the first on the left.
spec fn fields(text: Seq<char>) -> (nat, nat, nat, nat, nat, nat) {
    (
        digits_value(text.subrange(0, 4)),
        digits_value(text.subrange(5, 7)),
        digits_value(text.subrange(8, 10)),
        digits_value(text.subrange(11, 13)),
        digits_value(text.subrange(14, 16)),
        digits_value(text.subrange(17, 19)),
    )
}

/// The order of two lists of numbers: by the first in which they differ.
spec fn fields_before(
    f: (nat, nat, nat, nat, nat, nat),
    g: (nat, nat, nat, nat, nat, nat),
) -> bool {
    f.0 < g.0 || f.0 == g.0 && (f.1 < g.1 || f.1 == g.1 && (f.2 < g.2 || f.2 == g.2 && (f.3 < g.3
        || f.3 == g.3 && (f.4 < g.4 || f.4 == g.4 && f.5 < g.5))))
}

proof fn lemma_fields_decide(x: Seq<char>, y: Seq<char>)
    requires
        is_timestamp(x),
        is_timestamp(y),
        fields_before(fields(x), fields(y)),
    ensures
        is_text_before(x, y),
{
    assert(x.take(0) =~= y.take(0));
    lemma_number_decides(x, y, 0, 4);
    if fields(x).0 == fields(y).0 {
        lemma_separator_kept(x, y, 4);
        lemma_number_decides(x, y, 5, 7);
        if fields(x).1 == fields(y).1 {
            lemma_separator_kept(x, y, 7);
            lemma_number_decides(x, y, 8, 10);
            if fields(x).2 == fields(y).2 {
                lemma_separator_kept(x, y, 10);
                lemma_number_decides(x, y, 11, 13);
                if fields(x).3 == fields(y).3 {
                    lemma_separator_kept(x, y, 13);
                    lemma_number_decides(x, y, 14, 16);
                    if fields(x).4 == fields(y).4 {
                        lemma_separator_kept(x, y, 16);
                        lemma_number_decides(x, y, 17, 19);
                    }
                }
            }
        }
    }
}

proof fn lemma_separator_kept(x: Seq<char>, y: Seq<char>, i: int)
    requires
        0 <= i < x.len(),
        i < y.len(),
        x.take(i) == y.take(i),
        x[i] == y[i],
    ensures
        x.take(i + 1) == y.take(i + 1),
{
    assert(x.take(i + 1) =~= x.take(i).push(x[i]));
    assert(y.take(i + 1) =~= y.take(i).push(y[i]));
}

proof fn lemma_timestamp_fields(secs: nat)
    requires
        civil_date(secs / 86_400).year <= 9999,
    ensures
        is_timestamp(timestamp_text(secs)),
        fields(timestamp_text(secs)) == (
            civil_date(secs / 86_400).year as nat,
            civil_date(secs / 86_400).month as nat,
            civil_date(secs / 86_400).day as nat,
            (secs / 3_600) % 24,
            (secs / 60) % 60,
            secs % 60,
        ),
{
    let text = timestamp_text(secs);
    let date = civil_date(secs / 86_400);
    lemma_civil_date(secs / 86_400);
    lemma_timestamp_shape(secs);
    lemma_timestamp_parts(secs);
    assert(text.subrange(0, 4) =~= text.take(4));
    lemma_two_digits(date.month as nat);
    lemma_two_digits(date.day as nat);
    lemma_two_digits((secs / 3_600) % 24);
    lemma_two_digits((secs / 60) % 60);
    lemma_two_digits(secs % 60);
}

/// Within a day, an earlier second has the earlier time of day.
proof fn lemma_times_ordered(day: int, h: int, m: int, s: int, i: int, n: int, t: int)
    requires
        0 <= m < 60,
        0 <= s < 60,
        0 <= n < 60,
        0 <= t < 60,
        86_400 * day + 3_600 * h + 60 * m + s < 86_400 * day + 3_600 * i + 60 * n + t,
    ensures
        h < i || h == i && (m < n || m == n && s < t),
{
}

proof fn lemma_earlier_date(a: nat, b: nat)
    requires
        a < b,
    ensures
        civil_date(a).is_before(civil_date(b)),
{
    lemma_civil_date(a);
    lemma_civil_date(b);
    if civil_date(b).is_before(civil_date(a)) {
        lemma_day_numbers_ordered(civil_date(b), civil_date(a));
    }
}

proof fn lemma_earlier_timestamp(a: nat, b: nat)
    requires
        a < b,
        civil_date(a / 86_400).year <= 9999,
        civil_date(b / 86_400).year <= 9999,
    ensures
        is_text_before(timestamp_text(a), timestamp_text(b)),
{
    lemma_civil_date(a / 86_400);
    lemma_civil_date(b / 86_400);
    lemma_timestamp_fields(a);
    lemma_timestamp_fields(b);
    lemma_time_of_day(a);
    lemma_time_of_day(b);
    if a / 86_400 < b / 86_400 {
        lemma_earlier_date(a / 86_400, b / 86_400);
    } else {
        assert(a / 86_400 == b / 86_400);
        lemma_times_ordered(
            a as int / 86_400,
            (a as int / 3_600) % 24,
            (a as int / 60) % 60,
            a as int % 60,
            (b as int / 3_600) % 24,
            (b as int / 60) % 60,
            b as int % 60,
        );
    }
    lemma_fields_decide(timestamp_text(a), timestamp_text(b));
}

/// Up to the year 9999 timestamps sort as texts in the order of time.
pub proof fn lemma_timestamps_sort_by_time(a: nat, b: nat)
    requires
        civil_date(a / 86_400).year <= 9999,
        civil_date(b / 86_400).year <= 9999,
    ensures
        is_text_before(timestamp_text(a), timestamp_text(b)) <==> a < b,
{
    lemma_text_order_one_way(timestamp_text(a), timestamp_text(b));
    if a < b {
        lemma_earlier_timestamp(a, b);
    } else if b < a {
        lemma_earlier_timestamp(b, a);
    }
}

} // verus!
