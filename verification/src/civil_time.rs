//! Reading an earthquake's origin time ("2026-07-07 09:30:00" in the
//! source's local zone) as Unix epoch seconds, on the proleptic Gregorian
//! calendar.
use vstd::prelude::*;
use crate::text::{
    char_views, chars_of, parse_i64, parse_i64_chars, split_chars, split_on, split_once,
    split_once_chars, trim, trim_chars,
};

verus! {

// ------------------------------------------------------------------
// The calendar
// ------------------------------------------------------------------

/// Gregorian leap year.
pub open spec fn leap_year(y: int) -> bool {
    (y % 4 == 0 && y % 100 != 0) || y % 400 == 0
}

/// Days in month `m` of year `y`, 0 for a month outside 1..=12.
pub open spec fn month_length(y: int, m: int) -> int {
    if m == 1 || m == 3 || m == 5 || m == 7 || m == 8 || m == 10 || m == 12 {
        31
    } else if m == 4 || m == 6 || m == 9 || m == 11 {
        30
    } else if m == 2 {
        if leap_year(y) {
            29
        } else {
            28
        }
    } else {
        0
    }
}

/// Number of leap years among the years 1..=n (counted the same way below 1).
pub open spec fn leap_years_through(n: int) -> int {
    n / 4 - n / 100 + n / 400
}

/// Days from 1970-01-01 to January 1st of year `y`.
pub open spec fn days_before_year(y: int) -> int {
    365 * (y - 1970) + leap_years_through(y - 1) - leap_years_through(1969)
}

/// Days of year `y` before the first of month `m` (1..=12).
pub open spec fn days_before_month(y: int, m: int) -> int {
    let common: int = if m == 1 {
        0
    } else if m == 2 {
        31
    } else if m == 3 {
        59
    } else if m == 4 {
        90
    } else if m == 5 {
        120
    } else if m == 6 {
        151
    } else if m == 7 {
        181
    } else if m == 8 {
        212
    } else if m == 9 {
        243
    } else if m == 10 {
        273
    } else if m == 11 {
        304
    } else {
        334
    };
    if m > 2 && leap_year(y) {
        common + 1
    } else {
        common
    }
}

/// Day number of `y`-`m`-`d`, counted from 1970-01-01 (day 0).
pub open spec fn epoch_day(y: int, m: int, d: int) -> int {
    days_before_year(y) + days_before_month(y, m) + d - 1
}

/// Date and time fields as read from text: year, month, day, hour, minute,
/// second.
pub type CivilFields = (int, int, int, int, int, int);

/// The fields name a real date and a time of day (a leap second allowed).
pub open spec fn valid_civil(f: CivilFields) -> bool {
    &&& 1 <= f.1 <= 12
    &&& 1 <= f.2 <= month_length(f.0, f.1)
    &&& 0 <= f.3 <= 23
    &&& 0 <= f.4 <= 59
    &&& 0 <= f.5 <= 60
}

/// The text with `T` read as a space and `/` as a dash, after trimming.
pub open spec fn normalize_datetime(s: Seq<char>) -> Seq<char> {
    let t = trim(s);
    Seq::new(
        t.len(),
        |i: int|
            if t[i] == 'T' {
                ' '
            } else if t[i] == '/' {
                '-'
            } else {
                t[i]
            },
    )
}

/// The fields of `"Y-M-D h:m[:s]"`: the date and the time split at the
/// first space, the date in exactly three dash-separated numbers, the time
/// in two or three colon-separated numbers (seconds 0 when absent); `None`
/// when the text does not have that shape, a number does not read as an
/// `i64`, or the fields do not name a real date and time of day.
pub open spec fn civil_fields(value: Seq<char>) -> Option<CivilFields> {
    match split_once(normalize_datetime(value), ' ') {
        None => None,
        Some((date, time)) => {
            let dp = split_on(date, '-');
            let tp = split_on(time, ':');
            if dp.len() != 3 || tp.len() < 2 || tp.len() > 3 {
                None
            } else {
                let second = if tp.len() == 3 {
                    parse_i64(tp[2])
                } else {
                    Some(0)
                };
                match (
                    parse_i64(dp[0]),
                    parse_i64(dp[1]),
                    parse_i64(dp[2]),
                    parse_i64(tp[0]),
                    parse_i64(tp[1]),
                    second,
                ) {
                    (Some(y), Some(mo), Some(d), Some(h), Some(mi), Some(s)) => {
                        let f = (y, mo, d, h, mi, s);
                        if valid_civil(f) {
                            Some(f)
                        } else {
                            None
                        }
                    },
                    _ => None,
                }
            }
        },
    }
}

/// Epoch seconds of the fields, read in a zone `offset` seconds ahead of UTC.
pub open spec fn civil_epoch_seconds(f: CivilFields, offset: int) -> int {
    epoch_day(f.0, f.1, f.2) * 86400 + f.3 * 3600 + f.4 * 60 + f.5 - offset
}

/// Epoch seconds of a date-time text read in a zone `offset` seconds ahead of UTC.
pub open spec fn datetime_epoch_seconds(value: Seq<char>, offset: int) -> Option<int> {
    match civil_fields(value) {
        Some(f) => Some(civil_epoch_seconds(f, offset)),
        None => None,
    }
}

/// Within the range of `i64`.
pub open spec fn fits_i64(v: int) -> bool {
    i64::MIN <= v <= i64::MAX
}

/// Every step of the epoch-seconds sum stays within `i64`: the running sums
/// of the day's seconds, hours, minutes and seconds, less the offset. (The
/// year bound follows from the first of these; it is stated so that the day
/// count itself is computed without overflow.)
pub open spec fn epoch_terms_fit(f: CivilFields, offset: int) -> bool {
    let a = epoch_day(f.0, f.1, f.2) * 86400;
    let b = a + f.3 * 3600;
    let c = b + f.4 * 60;
    let d = c + f.5;
    &&& -10_000_000_000_000_000 <= f.0 <= 10_000_000_000_000_000
    &&& fits_i64(a)
    &&& fits_i64(b)
    &&& fits_i64(c)
    &&& fits_i64(d)
    &&& fits_i64(d - offset)
}

/// The text reads without overflow: when it names a date-time, its epoch
/// seconds are computed within `i64`.
pub open spec fn datetime_fits(value: Seq<char>, offset: int) -> bool {
    civil_fields(value) matches Some(f) ==> epoch_terms_fit(f, offset)
}

// ------------------------------------------------------------------
// Lemmas
// ------------------------------------------------------------------

proof fn lemma_leap_years_step(y: int)
    ensures
        leap_years_through(y) == leap_years_through(y - 1) + if leap_year(y) {
            1int
        } else {
            0int
        },
{
    assert(y / 4 == (y - 1) / 4 + if y % 4 == 0 {
        1int
    } else {
        0int
    });
    assert(y / 100 == (y - 1) / 100 + if y % 100 == 0 {
        1int
    } else {
        0int
    });
    assert(y / 400 == (y - 1) / 400 + if y % 400 == 0 {
        1int
    } else {
        0int
    });
    if y % 400 == 0 {
        assert(y % 4 == 0 && y % 100 == 0);
    } else if y % 100 == 0 {
        assert(y % 4 == 0);
    }
}

/// Days of the March-based year before month index `mp` (March is 0).
proof fn lemma_march_month_days(mp: int)
    requires
        0 <= mp <= 11,
    ensures
        (153 * mp + 2) / 5 == (if mp == 0 {
            0int
        } else if mp == 1 {
            31int
        } else if mp == 2 {
            61int
        } else if mp == 3 {
            92int
        } else if mp == 4 {
            122int
        } else if mp == 5 {
            153int
        } else if mp == 6 {
            184int
        } else if mp == 7 {
            214int
        } else if mp == 8 {
            245int
        } else if mp == 9 {
            275int
        } else if mp == 10 {
            306int
        } else {
            337int
        }),
{
}

/// The day count of a March-based year `yy` (0..399 years into a 400-year
/// era) and the usual day count agree.
proof fn lemma_civil_days(year: int, month: int, day: int, yy: int, era: int, yoe: int, mp: int)
    requires
        1 <= month <= 12,
        yy == year - if month <= 2 {
            1int
        } else {
            0int
        },
        era == yy / 400,
        yoe == yy - era * 400,
        mp == month + if month > 2 {
            -3int
        } else {
            9int
        },
    ensures
        0 <= yoe <= 399,
        0 <= mp <= 11,
        era * 146_097 + (yoe * 365 + yoe / 4 - yoe / 100 + ((153 * mp + 2) / 5 + day - 1))
            - 719_468 == epoch_day(year, month, day),
{
    assert(0 <= yoe <= 399);
    assert(yy / 4 == era * 100 + yoe / 4);
    assert(yy / 100 == era * 4 + yoe / 100);
    assert(yy / 400 == era);
    lemma_march_month_days(mp);
    lemma_leap_years_step(year);
    assert(leap_years_through(1969) == 477);
    assert(era * 146_097 + yoe * 365 + yoe / 4 - yoe / 100 == 365 * yy + leap_years_through(yy))
        by (nonlinear_arith)
        requires
            yy == era * 400 + yoe,
            yy / 4 == era * 100 + yoe / 4,
            yy / 100 == era * 4 + yoe / 100,
            yy / 400 == era,
    ;
}

/// The month lengths fit the count of days before each month: a month is
/// as long as the gap to the first of the next month, December closes a
/// year of 365 days (366 in a leap year), and the last day of every month
/// is followed by the first of the next (of January next year after
/// December).
pub proof fn lemma_month_lengths_fill_the_year(y: int, m: int)
    requires
        1 <= m <= 12,
    ensures
        m <= 11 ==> month_length(y, m) == days_before_month(y, m + 1) - days_before_month(y, m),
        m == 12 ==> month_length(y, 12) == (if leap_year(y) {
            366int
        } else {
            365int
        }) - days_before_month(y, 12),
        days_before_year(y + 1) - days_before_year(y) == (if leap_year(y) {
            366int
        } else {
            365int
        }),
        m <= 11 ==> epoch_day(y, m, month_length(y, m)) + 1 == epoch_day(y, m + 1, 1),
        m == 12 ==> epoch_day(y, 12, month_length(y, 12)) + 1 == epoch_day(y + 1, 1, 1),
        28 <= month_length(y, m) <= 31,
{
    assert(leap_years_through(y) - leap_years_through(y - 1) == (if leap_year(y) {
        1int
    } else {
        0int
    })) by {
        lemma_leap_count_step(y);
    }
}

proof fn lemma_div4_step(y: int)
    ensures
        y / 4 - (y - 1) / 4 == (if y % 4 == 0 { 1int } else { 0int }),
{
}

proof fn lemma_div100_step(y: int)
    ensures
        y / 100 - (y - 1) / 100 == (if y % 100 == 0 { 1int } else { 0int }),
{
}

proof fn lemma_div400_step(y: int)
    ensures
        y / 400 - (y - 1) / 400 == (if y % 400 == 0 { 1int } else { 0int }),
{
}

proof fn lemma_leap_count_step(y: int)
    ensures
        leap_years_through(y) - leap_years_through(y - 1) == (if leap_year(y) {
            1int
        } else {
            0int
        }),
{
    lemma_div4_step(y);
    lemma_div100_step(y);
    lemma_div400_step(y);
    assert(y % 100 == 0 ==> y % 4 == 0);
    assert(y % 400 == 0 ==> y % 100 == 0);
}

// ------------------------------------------------------------------
// Executable parts
// ------------------------------------------------------------------

/// Whether `year` is a Gregorian leap year.
pub fn is_leap_year(year: i64) -> (b: bool)
    ensures
        b == leap_year(year as int),
{
    (year % 4 == 0 && year % 100 != 0) || year % 400 == 0
}

/// Days in `month` of `year`; 0 for a month outside 1..=12.
pub fn days_in_month(year: i64, month: i64) -> (r: i64)
    ensures
        r == month_length(year as int, month as int),
{
    if month == 1 || month == 3 || month == 5 || month == 7 || month == 8 || month == 10 || month
        == 12 {
        31
    } else if month == 4 || month == 6 || month == 9 || month == 11 {
        30
    } else if month == 2 {
        if is_leap_year(year) {
            29
        } else {
            28
        }
    } else {
        0
    }
}

/// Day number of `year`-`month`-`day` counted from 1970-01-01.
pub fn days_from_civil(year: i64, month: i64, day: i64) -> (r: i64)
    requires
        1 <= month <= 12,
        -10_000_000_000_000_000 <= year <= 10_000_000_000_000_000,
        -1_000_000_000_000 <= day <= 1_000_000_000_000,
    ensures
        r == epoch_day(year as int, month as int, day as int),
{
    let year = year - if month <= 2 {
        1
    } else {
        0
    };
    let era = if year >= 0 {
        year
    } else {
        year - 399
    } / 400;
    assert(era == year / 400);
    let yoe = year - era * 400;
    let month_prime = month + if month > 2 {
        -3
    } else {
        9
    };
    proof {
        lemma_civil_days(
            (year + if month <= 2 {
                1int
            } else {
                0int
            }),
            month as int,
            day as int,
            year as int,
            era as int,
            yoe as int,
            month_prime as int,
        );
    }
    let doy = (153 * month_prime + 2) / 5 + day - 1;
    let doe = yoe * 365 + yoe / 4 - yoe / 100 + doy;
    era * 146_097 + doe - 719_468
}

/// A date-time as read from text (see `civil_fields`).
#[derive(Debug, Clone, Copy, PartialEq, Eq)]
pub struct CivilDateTime {
    pub year: i64,
    pub month: i64,
    pub day: i64,
    pub hour: i64,
    pub minute: i64,
    pub second: i64,
}

impl View for CivilDateTime {
    type V = CivilFields;

    open spec fn view(&self) -> CivilFields {
        (
            self.year as int,
            self.month as int,
            self.day as int,
            self.hour as int,
            self.minute as int,
            self.second as int,
        )
    }
}

fn normalize_datetime_chars(value: &str) -> (r: Vec<char>)
    ensures
        r@ == normalize_datetime(value@),
{
    let chars = chars_of(value);
    let t = trim_chars(&chars);
    let mut r: Vec<char> = Vec::new();
    let mut i: usize = 0;
    while i < t.len()
        invariant
            i <= t@.len(),
            t@ == trim(value@),
            r@ =~= normalize_datetime(value@).take(i as int),
        decreases t@.len() - i,
    {
        let c = t[i];
        let m = if c == 'T' {
            ' '
        } else if c == '/' {
            '-'
        } else {
            c
        };
        r.push(m);
        i = i + 1;
    }
    assert(normalize_datetime(value@).take(t@.len() as int) =~= normalize_datetime(value@));
    r
}

/// The date and time fields of a text such as `"2026-07-07 09:30:00"`,
/// `"2026/07/07 09:30"` or `"2026-07-07T09:30:00"`; `None` when it does
/// not read as one (see `civil_fields`).
pub fn parse_civil_datetime(value: &str) -> (r: Option<CivilDateTime>)
    ensures
        match r {
            Some(f) => civil_fields(value@) == Some(f@),
            None => civil_fields(value@) is None,
        },
{
    let normalized = normalize_datetime_chars(value);
    let (date, time) = match split_once_chars(&normalized, ' ') {
        Some(pair) => pair,
        None => return None,
    };
    let date_parts = split_chars(&date, '-');
    let time_parts = split_chars(&time, ':');
    assert(char_views(date_parts@).len() == date_parts@.len());
    assert(char_views(time_parts@).len() == time_parts@.len());
    if date_parts.len() != 3 {
        return None;
    }
    if time_parts.len() < 2 || time_parts.len() > 3 {
        return None;
    }
    assert(char_views(date_parts@)[0] == date_parts@[0]@);
    assert(char_views(date_parts@)[1] == date_parts@[1]@);
    assert(char_views(date_parts@)[2] == date_parts@[2]@);
    assert(char_views(time_parts@)[0] == time_parts@[0]@);
    assert(char_views(time_parts@)[1] == time_parts@[1]@);
    let year = match parse_i64_chars(&date_parts[0]) {
        Some(v) => v,
        None => return None,
    };
    let month = match parse_i64_chars(&date_parts[1]) {
        Some(v) => v,
        None => return None,
    };
    let day = match parse_i64_chars(&date_parts[2]) {
        Some(v) => v,
        None => return None,
    };
    let hour = match parse_i64_chars(&time_parts[0]) {
        Some(v) => v,
        None => return None,
    };
    let minute = match parse_i64_chars(&time_parts[1]) {
        Some(v) => v,
        None => return None,
    };
    let second = if time_parts.len() == 3 {
        assert(char_views(time_parts@)[2] == time_parts@[2]@);
        match parse_i64_chars(&time_parts[2]) {
            Some(v) => v,
            None => return None,
        }
    } else {
        0
    };
    if !(1 <= month && month <= 12) || !(1 <= day && day <= days_in_month(year, month)) || !(0
        <= hour && hour <= 23) || !(0 <= minute && minute <= 59) || !(0 <= second && second
        <= 60) {
        return None;
    }
    Some(CivilDateTime { year, month, day, hour, minute, second })
}

/// Whether reading `value` in a zone `offset_seconds` ahead of UTC stays
/// within `i64` (see `datetime_fits`).
pub fn datetime_in_range(value: &str, offset_seconds: i64) -> (b: bool)
    ensures
        b == datetime_fits(value@, offset_seconds as int),
{
    match parse_civil_datetime(value) {
        None => true,
        Some(f) => {
            if f.year < -10_000_000_000_000_000 || f.year > 10_000_000_000_000_000 {
                return false;
            }
            let days = days_from_civil(f.year, f.month, f.day) as i128;
            let lo: i128 = i64::MIN as i128;
            let hi: i128 = i64::MAX as i128;
            let a = days * 86_400;
            let b = a + f.hour as i128 * 3_600;
            let c = b + f.minute as i128 * 60;
            let d = c + f.second as i128;
            let e = d - offset_seconds as i128;
            lo <= a && a <= hi && lo <= b && b <= hi && lo <= c && c <= hi && lo <= d && d <= hi
                && lo <= e && e <= hi
        },
    }
}

/// Epoch seconds of a date-time text read in a zone `offset_seconds` ahead
/// of UTC; `None` when the text does not read as a date-time.
pub fn parse_datetime_epoch_seconds(value: &str, offset_seconds: i64) -> (r: Option<i64>)
    requires
        datetime_fits(value@, offset_seconds as int),
    ensures
        match r {
            Some(v) => datetime_epoch_seconds(value@, offset_seconds as int) == Some(v as int),
            None => datetime_epoch_seconds(value@, offset_seconds as int) is None,
        },
{
    let f = match parse_civil_datetime(value) {
        Some(f) => f,
        None => return None,
    };
    let days = days_from_civil(f.year, f.month, f.day);
    Some(days * 86_400 + f.hour * 3_600 + f.minute * 60 + f.second - offset_seconds)
}

} // verus!
