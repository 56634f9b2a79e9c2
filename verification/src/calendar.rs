use vstd::prelude::*;
use vstd::string::StringSliceAdditionalSpecFns;

verus! {

/// Whether every byte is an ASCII digit.
pub open spec fn all_digits(s: Seq<u8>) -> bool {
    forall|i: int| 0 <= i < s.len() ==> 48 <= #[trigger] s[i] <= 57
}

/// The number that the ASCII digits `s` spell in decimal.
pub open spec fn decimal_value(s: Seq<u8>) -> int
    decreases s.len(),
{
    if s.len() == 0 {
        0
    } else {
        decimal_value(s.drop_last()) * 10 + (s.last() - 48)
    }
}

/// Every all-digit prefix of `s` spells a number that fits in a `u32`.
pub open spec fn digit_prefixes_fit(s: Seq<u8>) -> bool {
    forall|n: int|
        0 <= n <= s.len() && all_digits(#[trigger] s.take(n)) ==> decimal_value(s.take(n))
            <= u32::MAX
}

/// The decimal number spelled by `bytes`, or `None` when a byte is not an
/// ASCII digit. The empty slice spells 0.
pub fn parse_u32(bytes: &[u8]) -> (value: Option<u32>)
    requires
        digit_prefixes_fit(bytes@),
    ensures
        value == if all_digits(bytes@) {
            Some(decimal_value(bytes@) as u32)
        } else {
            None::<u32>
        },
{
    let mut value: u32 = 0;
    let mut i: usize = 0;
    while i < bytes.len()
        invariant
            i <= bytes@.len(),
            digit_prefixes_fit(bytes@),
            all_digits(bytes@.take(i as int)),
            value == decimal_value(bytes@.take(i as int)),
        decreases bytes@.len() - i,
    {
        let byte = bytes[i];
        // ASCII '0' is 48 and '9' is 57.
        if !(48u8 <= byte && byte <= 57u8) {
            proof {
                assert(!all_digits(bytes@)) by {
                    assert(!(48 <= bytes@[i as int] <= 57));
                }
            }
            return None;
        }
        proof {
            let next = bytes@.take(i + 1);
            assert(next.drop_last() =~= bytes@.take(i as int));
            assert(all_digits(next)) by {
                assert forall|k: int| 0 <= k < next.len() implies 48 <= #[trigger] next[k] <= 57 by {
                    if k < i {
                        assert(next[k] == bytes@.take(i as int)[k]);
                    }
                }
            }
            assert(decimal_value(next) <= u32::MAX);
        }
        value = value * 10 + (byte - 48u8) as u32;
        i += 1;
    }
    proof {
        assert(bytes@.take(i as int) =~= bytes@);
    }
    Some(value)
}

pub open spec fn fits_i32(x: int) -> bool {
    i32::MIN <= x <= i32::MAX
}

/// `a / b` rounded toward zero, as Rust's integer division does.
pub open spec fn trunc_div(a: int, b: int) -> int {
    if a >= 0 {
        a / b
    } else {
        -((-a) / b)
    }
}

/// The year counted from March, so that a leap day ends it.
pub open spec fn march_year(year: int, month: int) -> int {
    if month <= 2 {
        year - 1
    } else {
        year
    }
}

/// The month counted from March (March is 0).
pub open spec fn march_month(month: int) -> int {
    if month > 2 {
        month - 3
    } else {
        month + 9
    }
}

/// Days from the start of the March-based year to the given day.
pub open spec fn day_of_march_year(month: int, day: int) -> int {
    trunc_div(153 * march_month(month) + 2, 5) + day - 1
}

/// Days from the start of the 400-year era to the given day.
pub open spec fn day_of_era(year: int, month: int, day: int) -> int {
    let yoe = march_year(year, month) % 400;
    yoe * 365 + yoe / 4 - yoe / 100 + day_of_march_year(month, day)
}

/// The day count that `days_from_civil` computes for any arguments.
pub open spec fn civil_formula(year: int, month: int, day: int) -> int {
    march_year(year, month) / 400 * 146097 + day_of_era(year, month, day) - 719468
}

/// Every intermediate value of `days_from_civil` fits in an `i32`.
pub open spec fn civil_fits(year: int, month: int, day: int) -> bool {
    let y = march_year(year, month);
    let mp = march_month(month);
    let q = trunc_div(153 * mp + 2, 5);
    let era = y / 400;
    &&& fits_i32(y)
    &&& fits_i32(era * 400)
    &&& fits_i32(153 * mp)
    &&& fits_i32(153 * mp + 2)
    &&& fits_i32(q + day)
    &&& fits_i32(q + day - 1)
    &&& fits_i32(day_of_era(year, month, day))
    &&& fits_i32(era * 146097)
    &&& fits_i32(era * 146097 + day_of_era(year, month, day))
    &&& fits_i32(civil_formula(year, month, day))
}

/// Whether `year` is a leap year of the proleptic Gregorian calendar.
pub open spec fn is_leap(year: int) -> bool {
    year % 4 == 0 && (year % 100 != 0 || year % 400 == 0)
}

/// Leap years among `1..=year`, counted relative to year 0 for any `year`.
pub open spec fn leaps_through(year: int) -> int {
    year / 4 - year / 100 + year / 400
}

/// Days from 1970-01-01 to January 1 of `year`.
pub open spec fn days_before_year(year: int) -> int {
    365 * (year - 1970) + leaps_through(year - 1) - leaps_through(1969)
}

/// Days from January 1 to the first day of `month` (1 to 12).
pub open spec fn days_before_month(year: int, month: int) -> int {
    let plain: int = if month == 1 {
        0
    } else if month == 2 {
        31
    } else if month == 3 {
        59
    } else if month == 4 {
        90
    } else if month == 5 {
        120
    } else if month == 6 {
        151
    } else if month == 7 {
        181
    } else if month == 8 {
        212
    } else if month == 9 {
        243
    } else if month == 10 {
        273
    } else if month == 11 {
        304
    } else {
        334
    };
    plain + if month > 2 && is_leap(year) {
        1int
    } else {
        0
    }
}

/// Days from 1970-01-01 to the given date of the proleptic Gregorian
/// calendar; the day of the month counts on past the month's end.
pub open spec fn calendar_days(year: int, month: int, day: int) -> int {
    days_before_year(year) + days_before_month(year, month) + day - 1
}

/// Stepping `y` down by one lowers `y / d` exactly when `d` divides `y`.
proof fn lemma_div_step(y: int, d: int)
    requires
        d > 0,
    ensures
        y / d - (y - 1) / d == if y % d == 0 {
            1int
        } else {
            0
        },
{
    vstd::arithmetic::div_mod::lemma_fundamental_div_mod(y, d);
    let q = y / d;
    let r = y % d;
    assert(0 <= r < d);
    if r == 0 {
        assert(y - 1 == (q - 1) * d + (d - 1)) by (nonlinear_arith)
            requires
                y == d * q + r,
                r == 0,
        ;
        vstd::arithmetic::div_mod::lemma_fundamental_div_mod_converse(y - 1, d, q - 1, d - 1);
    } else {
        assert(y - 1 == q * d + (r - 1)) by (nonlinear_arith)
            requires
                y == d * q + r,
        ;
        vstd::arithmetic::div_mod::lemma_fundamental_div_mod_converse(y - 1, d, q, r - 1);
    }
}

/// Multiples of 400 are multiples of 100, and those of 4.
proof fn lemma_divides_down(y: int)
    ensures
        y % 400 == 0 ==> y % 100 == 0,
        y % 100 == 0 ==> y % 4 == 0,
{
    if y % 400 == 0 {
        vstd::arithmetic::div_mod::lemma_fundamental_div_mod(y, 400);
        vstd::arithmetic::div_mod::lemma_fundamental_div_mod_converse(y, 100, (y / 400) * 4, 0);
    }
    if y % 100 == 0 {
        vstd::arithmetic::div_mod::lemma_fundamental_div_mod(y, 100);
        vstd::arithmetic::div_mod::lemma_fundamental_div_mod_converse(y, 4, (y / 100) * 25, 0);
    }
}

/// Each year adds one leap year to the count exactly when it is a leap year.
pub proof fn lemma_leaps_step(year: int)
    ensures
        leaps_through(year) == leaps_through(year - 1) + if is_leap(year) {
            1int
        } else {
            0
        },
{
    lemma_div_step(year, 4);
    lemma_div_step(year, 100);
    lemma_div_step(year, 400);
    lemma_divides_down(year);
}

/// Days before a year grow by the length of the year before it: 366 for a
/// leap year, 365 otherwise; and 1970 starts at day 0.
pub proof fn lemma_year_length(year: int)
    ensures
        days_before_year(1970) == 0,
        days_before_year(year + 1) == days_before_year(year) + 365 + if is_leap(year) {
            1int
        } else {
            0
        },
{
    lemma_leaps_step(year);
}

/// `365 * y` plus the leap years through `y`, in terms of the 400-year era
/// and the year within it.
proof fn lemma_era_split(y: int)
    ensures
        365 * y + leaps_through(y) == y / 400 * 146097 + (y % 400) * 365 + (y % 400) / 4 - (y
            % 400) / 100,
{
    let era = y / 400;
    let yoe = y % 400;
    vstd::arithmetic::div_mod::lemma_fundamental_div_mod(y, 400);
    vstd::arithmetic::div_mod::lemma_fundamental_div_mod(yoe, 4);
    vstd::arithmetic::div_mod::lemma_fundamental_div_mod(yoe, 100);
    vstd::arithmetic::div_mod::lemma_fundamental_div_mod_converse(y, 4, era * 100 + yoe / 4, yoe % 4);
    vstd::arithmetic::div_mod::lemma_fundamental_div_mod_converse(
        y,
        100,
        era * 4 + yoe / 100,
        yoe % 100,
    );
}

/// For a month from 1 to 12 the computed day count is the calendar's.
pub proof fn lemma_civil_formula_is_calendar(year: int, month: int, day: int)
    requires
        1 <= month <= 12,
    ensures
        civil_formula(year, month, day) == calendar_days(year, month, day),
{
    let y = march_year(year, month);
    lemma_era_split(y);
    lemma_leaps_step(year);
    assert(leaps_through(1969) == 477);
    let q = trunc_div(153 * march_month(month) + 2, 5);
    if month == 1 {
        assert(q == 306);
    } else if month == 2 {
        assert(q == 337);
    } else if month == 3 {
        assert(q == 0);
    } else if month == 4 {
        assert(q == 31);
    } else if month == 5 {
        assert(q == 61);
    } else if month == 6 {
        assert(q == 92);
    } else if month == 7 {
        assert(q == 122);
    } else if month == 8 {
        assert(q == 153);
    } else if month == 9 {
        assert(q == 184);
    } else if month == 10 {
        assert(q == 214);
    } else if month == 11 {
        assert(q == 245);
    } else {
        assert(q == 275);
    }
}

/// Days since 1970-01-01 of the civil date `year-month-day`.
pub fn days_from_civil(year: i32, month: i32, day: i32) -> (days: i64)
    requires
        civil_fits(year as int, month as int, day as int),
    ensures
        days == civil_formula(year as int, month as int, day as int),
        1 <= month <= 12 ==> days == calendar_days(year as int, month as int, day as int),
{
    proof {
        if 1 <= month <= 12 {
            lemma_civil_formula_is_calendar(year as int, month as int, day as int);
        }
    }
    let year = year - if month <= 2 {
        1
    } else {
        0
    };
    let era = match year.checked_div_euclid(400) {
        Some(era) => era,
        None => 0,
    };
    assert(era == year / 400);
    proof {
        vstd::arithmetic::div_mod::lemma_fundamental_div_mod(year as int, 400);
    }
    let yoe = year - era * 400;
    assert(yoe == year % 400);
    let month = month + if month > 2 {
        -3
    } else {
        9
    };
    let doy = (153 * month + 2) / 5 + day - 1;
    let doe = yoe * 365 + yoe / 4 - yoe / 100 + doy;
    (era * 146097 + doe - 719468) as i64
}

/// Minutes since 1970-01-01T00:00, hour of the day, and day of the week
/// (Monday is 0) of a timestamp.
pub struct Timestamp {
    pub minutes: i64,
    pub hour: u32,
    pub weekday: u32,
}

/// `YYYY-MM-DDTHH:MM:SSZ` separators in place (ASCII `-`, `T`, `:`, `Z`).
pub open spec fn timestamp_shaped(b: Seq<u8>) -> bool {
    &&& b.len() >= 20
    &&& b[4] == 45
    &&& b[7] == 45
    &&& b[10] == 84
    &&& b[13] == 58
    &&& b[16] == 58
    &&& b[19] == 90
}

/// The year, month, day, hour and minute fields are all digits.
pub open spec fn timestamp_fields_digits(b: Seq<u8>) -> bool {
    &&& all_digits(b.subrange(0, 4))
    &&& all_digits(b.subrange(5, 7))
    &&& all_digits(b.subrange(8, 10))
    &&& all_digits(b.subrange(11, 13))
    &&& all_digits(b.subrange(14, 16))
}

/// Days since 1970-01-01 of the date fields of a shaped timestamp.
pub open spec fn timestamp_days(b: Seq<u8>) -> int {
    civil_formula(
        decimal_value(b.subrange(0, 4)),
        decimal_value(b.subrange(5, 7)),
        decimal_value(b.subrange(8, 10)),
    )
}

/// Whether `parse_timestamp` reads the timestamp rather than falling back.
pub open spec fn timestamp_readable(b: Seq<u8>) -> bool {
    timestamp_shaped(b) && timestamp_fields_digits(b)
}

/// Minutes since the epoch of a readable timestamp, 0 otherwise.
pub open spec fn timestamp_minutes(b: Seq<u8>) -> int {
    if timestamp_readable(b) {
        timestamp_days(b) * 1440 + decimal_value(b.subrange(11, 13)) * 60 + decimal_value(
            b.subrange(14, 16),
        )
    } else {
        0
    }
}

/// Hour of a readable timestamp, 0 otherwise.
pub open spec fn timestamp_hour(b: Seq<u8>) -> int {
    if timestamp_readable(b) {
        decimal_value(b.subrange(11, 13))
    } else {
        0
    }
}

/// Day of the week (Monday 0) of a readable timestamp; 1970-01-01 was a
/// Thursday. Thursday (3) otherwise.
pub open spec fn timestamp_weekday(b: Seq<u8>) -> int {
    if timestamp_readable(b) {
        (timestamp_days(b) + 3) % 7
    } else {
        3
    }
}

/// The weekday (Monday 0) of a timestamp is that of the day its minutes
/// fall on, 1970-01-01 being a Thursday: whenever the hour is below 24 and
/// the minute below 60, `weekday == (minutes / 1440 + 3) mod 7`, and the
/// hour is that of the minute of the day. Days one apart thus have
/// consecutive weekdays, and every weekday lies in `0..7`.
pub proof fn lemma_weekday_of_minutes(b: Seq<u8>)
    requires
        timestamp_hour(b) < 24,
        timestamp_readable(b) ==> decimal_value(b.subrange(14, 16)) < 60,
    ensures
        0 <= timestamp_weekday(b) < 7,
        timestamp_weekday(b) == (timestamp_minutes(b) / 1440 + 3) % 7,
        timestamp_hour(b) == timestamp_minutes(b) % 1440 / 60,
{
    if timestamp_readable(b) {
        lemma_decimal_bound(b.subrange(11, 13));
        lemma_decimal_bound(b.subrange(14, 16));
        let days = timestamp_days(b);
        let rest = timestamp_hour(b) * 60 + decimal_value(b.subrange(14, 16));
        assert(0 <= rest < 1440);
        assert(timestamp_minutes(b) == days * 1440 + rest);
        vstd::arithmetic::div_mod::lemma_fundamental_div_mod_converse(
            timestamp_minutes(b),
            1440,
            days,
            rest,
        );
        vstd::arithmetic::div_mod::lemma_fundamental_div_mod_converse(
            rest,
            60,
            timestamp_hour(b),
            decimal_value(b.subrange(14, 16)),
        );
    }
}

/// Up to four, two or one digits spell at most 9999, 99 or 9.
proof fn lemma_decimal_bound(s: Seq<u8>)
    requires
        all_digits(s),
    ensures
        0 <= decimal_value(s),
        s.len() <= 4 ==> decimal_value(s) <= 9999,
        s.len() <= 3 ==> decimal_value(s) <= 999,
        s.len() <= 2 ==> decimal_value(s) <= 99,
        s.len() <= 1 ==> decimal_value(s) <= 9,
    decreases s.len(),
{
    if s.len() > 0 {
        let init = s.drop_last();
        assert(all_digits(init)) by {
            assert forall|i: int| 0 <= i < init.len() implies 48 <= #[trigger] init[i] <= 57 by {
                assert(init[i] == s[i]);
            }
        }
        lemma_decimal_bound(init);
        assert(48 <= s[s.len() - 1] <= 57);
    }
}

/// A slice of at most four bytes never overflows `parse_u32`.
proof fn lemma_short_prefixes_fit(s: Seq<u8>)
    requires
        s.len() <= 4,
    ensures
        digit_prefixes_fit(s),
{
    assert forall|n: int|
        0 <= n <= s.len() && all_digits(#[trigger] s.take(n)) implies decimal_value(s.take(n))
        <= u32::MAX by {
        lemma_decimal_bound(s.take(n));
    }
}

/// Four-digit years and two-digit months and days never overflow
/// `days_from_civil`.
proof fn lemma_civil_fits_small(year: int, month: int, day: int)
    requires
        0 <= year <= 9999,
        0 <= month <= 99,
        0 <= day <= 99,
    ensures
        civil_fits(year, month, day),
        -719468 - 146097 <= civil_formula(year, month, day) <= 25 * 146097,
{
    let y = march_year(year, month);
    let era = y / 400;
    let yoe = y % 400;
    assert(-1 <= era <= 24) by {
        vstd::arithmetic::div_mod::lemma_fundamental_div_mod(y, 400);
    }
    assert(0 <= yoe < 400);
    assert(0 <= yoe / 4 <= 99);
    assert(0 <= yoe / 100 <= 3);
    let mp = march_month(month);
    assert(0 <= trunc_div(153 * mp + 2, 5) <= 153 * 96 / 5 + 1);
    assert(-146097 <= era * 146097 <= 24 * 146097) by (nonlinear_arith)
        requires
            -1 <= era <= 24,
    ;
    assert(-400 <= era * 400 <= 9600) by (nonlinear_arith)
        requires
            -1 <= era <= 24,
    ;
}

/// Reads a `YYYY-MM-DDTHH:MM:SSZ` timestamp (seconds are not read). A value
/// of another shape, or with a non-digit in a field read, gives minute 0,
/// hour 0 and weekday 3.
pub fn parse_timestamp(value: &str) -> (timestamp: Timestamp)
    ensures
        timestamp.minutes == timestamp_minutes(value.spec_bytes()),
        timestamp.hour == timestamp_hour(value.spec_bytes()),
        timestamp.weekday == timestamp_weekday(value.spec_bytes()),
{
    let bytes = value.as_bytes();
    let ghost b = bytes@;
    if bytes.len() >= 20 && bytes[4] == 45u8 && bytes[7] == 45u8 && bytes[10] == 84u8 && bytes[13]
        == 58u8 && bytes[16] == 58u8 && bytes[19] == 90u8 {
        proof {
            lemma_short_prefixes_fit(b.subrange(0, 4));
            lemma_short_prefixes_fit(b.subrange(5, 7));
            lemma_short_prefixes_fit(b.subrange(8, 10));
            lemma_short_prefixes_fit(b.subrange(11, 13));
            lemma_short_prefixes_fit(b.subrange(14, 16));
        }
        let year = parse_u32(&bytes[0..4]);
        let month = parse_u32(&bytes[5..7]);
        let day = parse_u32(&bytes[8..10]);
        let hour = parse_u32(&bytes[11..13]);
        let minute = parse_u32(&bytes[14..16]);

        if let (Some(year), Some(month), Some(day), Some(hour), Some(minute)) = (
            year,
            month,
            day,
            hour,
            minute,
        ) {
            proof {
                lemma_decimal_bound(b.subrange(0, 4));
                lemma_decimal_bound(b.subrange(5, 7));
                lemma_decimal_bound(b.subrange(8, 10));
                lemma_decimal_bound(b.subrange(11, 13));
                lemma_decimal_bound(b.subrange(14, 16));
                lemma_civil_fits_small(year as int, month as int, day as int);
            }
            let days = days_from_civil(year as i32, month as i32, day as i32);
            let weekday = match (days + 3).checked_rem_euclid(7) {
                Some(weekday) => weekday,
                None => 0,
            };
            return Timestamp {
                minutes: days * 1440 + hour as i64 * 60 + minute as i64,
                hour,
                weekday: weekday as u32,
            };
        }
    }
    Timestamp { minutes: 0, hour: 0, weekday: 3 }
}

} // verus!
