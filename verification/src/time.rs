//! Calendar timestamps with microsecond precision: validation, arithmetic,
//! and the text layouts used by COMTRADE files.

use vstd::prelude::*;

use crate::error::{Error, TimeError};
use crate::text::{
    occurs_at, occurs_at_chars, parse_uint, parse_uint_chars,
    dec_padded, push_dec_padded, all_digits, chars_to_string, digits_value, is_digit, digit_val, str_chars, trim, trim_bounds,
    contains, contains_chars, digit_prefix_len, digit_run, last_index_of, lemma_last_index_of,
    repeat_char, replace, replace_chars, rfind_char, slice_chars,
};

verus! {

/// Local wall-clock time (no time zone), precise to the microsecond.
#[derive(Debug, Clone, Copy, PartialEq, Eq, Structural, PartialOrd, Ord)]
pub struct Timestamp {
    /// Year.
    pub year: u16,
    /// Month (1-12).
    pub month: u8,
    /// Day of the month (1-31).
    pub day: u8,
    /// Hour (0-23).
    pub hour: u8,
    /// Minute (0-59).
    pub minute: u8,
    /// Second (0-59).
    pub second: u8,
    /// Microsecond (0-999999).
    pub micro: u32,
}

/// Gregorian leap year.
pub open spec fn leap(y: int) -> bool {
    (y % 4 == 0 && y % 100 != 0) || y % 400 == 0
}

/// Number of days in year `y`.
pub open spec fn year_days(y: int) -> int {
    if leap(y) {
        366
    } else {
        365
    }
}

/// Number of days in month `m` of year `y` (0 for a month outside 1..=12).
pub open spec fn month_days(y: int, m: int) -> int {
    if m == 1 || m == 3 || m == 5 || m == 7 || m == 8 || m == 10 || m == 12 {
        31
    } else if m == 4 || m == 6 || m == 9 || m == 11 {
        30
    } else if m == 2 {
        if leap(y) {
            29
        } else {
            28
        }
    } else {
        0
    }
}

/// Days from 1 January of year 1 to 1 January of year `y` (0 for `y <= 1`).
pub open spec fn days_before_year(y: int) -> int {
    if y <= 1 {
        0
    } else {
        let n = y - 1;
        365 * n + n / 4 - n / 100 + n / 400
    }
}

/// Days from 1 January to the first day of month `m` of year `y`.
pub open spec fn days_before_month(y: int, m: int) -> int
    decreases m,
{
    if m <= 1 {
        0
    } else {
        days_before_month(y, m - 1) + month_days(y, m - 1)
    }
}

/// A timestamp whose fields name a real instant of the calendar.
pub open spec fn valid(t: Timestamp) -> bool {
    &&& 1 <= t.month <= 12
    &&& 1 <= t.day <= month_days(t.year as int, t.month as int)
    &&& t.hour <= 23
    &&& t.minute <= 59
    &&& t.second <= 59
    &&& t.micro <= 999_999
}

/// Microseconds per day.
pub open spec fn day_micros() -> int {
    86_400_000_000
}

/// Days since 1 January of year 1 to the day of `t` (year 0 is counted as year 1).
pub open spec fn day_number(t: Timestamp) -> int {
    days_before_year(t.year as int) + days_before_month(t.year as int, t.month as int) + t.day - 1
}

/// Microseconds since the start of the day of `t`.
pub open spec fn time_of_day(t: Timestamp) -> int {
    t.hour * 3_600_000_000 + t.minute * 60_000_000 + t.second * 1_000_000 + t.micro
}

/// Microseconds since 0001-01-01 00:00:00 of `t`.
pub open spec fn micros_of(t: Timestamp) -> int {
    day_number(t) * day_micros() + time_of_day(t)
}

/// First microsecond count whose year no longer fits in `u16`.
pub open spec fn micros_limit() -> int {
    days_before_year(65536) * day_micros()
}

/// What `Timestamp::new` gives for the given fields.
pub open spec fn timestamp_new(
    year: u16,
    month: u8,
    day: u8,
    hour: u8,
    minute: u8,
    second: u8,
    micro: u32,
) -> Result<Timestamp, Error> {
    if month == 0 || month > 12 {
        Err(Error::Time(TimeError::InvalidMonth(month)))
    } else if day == 0 || day > 31 {
        Err(Error::Time(TimeError::InvalidDay(day)))
    } else if hour > 23 || minute > 59 || second > 59 {
        Err(Error::Time(TimeError::InvalidTime))
    } else if micro > 999_999 {
        Err(Error::Time(TimeError::InvalidMicro(micro)))
    } else if day > month_days(year as int, month as int) {
        if month == 2 && day == 29 {
            Ok(Timestamp { year, month, day: 28, hour, minute, second, micro })
        } else {
            Err(Error::Time(TimeError::InvalidDate { year, month, day }))
        }
    } else {
        Ok(Timestamp { year, month, day, hour, minute, second, micro })
    }
}

/// One more year adds that year's days.
#[verifier::spinoff_prover]
#[verifier::rlimit(30)]
pub proof fn lemma_year_step(y: int)
    requires
        y >= 1,
    ensures
        days_before_year(y + 1) == days_before_year(y) + year_days(y),
{
    let n = y - 1;
    assert(days_before_year(y) == 365 * n + n / 4 - n / 100 + n / 400);
    assert(days_before_year(y + 1) == 365 * (n + 1) + (n + 1) / 4 - (n + 1) / 100 + (n + 1) / 400);
}

pub proof fn lemma_year_mono(a: int, b: int)
    requires
        1 <= a < b,
    ensures
        days_before_year(a) + year_days(a) <= days_before_year(b),
    decreases b - a,
{
    lemma_year_step(a);
    if a + 1 < b {
        lemma_year_mono(a + 1, b);
    }
}

pub proof fn lemma_month_full(y: int)
    ensures
        days_before_month(y, 13) == year_days(y),
{
    reveal_with_fuel(days_before_month, 13);
}

pub proof fn lemma_month_mono(y: int, a: int, b: int)
    requires
        1 <= a < b <= 13,
    ensures
        days_before_month(y, a) + month_days(y, a) <= days_before_month(y, b),
    decreases b - a,
{
    if a + 1 < b {
        lemma_month_mono(y, a + 1, b);
    }
}

proof fn lemma_month_days_bound(y: int, m: int)
    ensures
        0 <= month_days(y, m) <= 31,
        1 <= m <= 12 ==> month_days(y, m) >= 28,
{
}

pub proof fn lemma_month_prefix_bound(y: int, m: int)
    requires
        1 <= m <= 13,
    ensures
        0 <= days_before_month(y, m),
        days_before_month(y, m) <= year_days(y),
{
    lemma_month_full(y);
    if m < 13 {
        lemma_month_mono(y, m, 13);
    }
    lemma_month_nonneg(y, m);
}

proof fn lemma_month_nonneg(y: int, m: int)
    ensures
        0 <= days_before_month(y, m),
    decreases m,
{
    if m > 1 {
        lemma_month_nonneg(y, m - 1);
    }
}

/// Shifting a timestamp by `d` microseconds (`add_micros`) and back by `-d` gives the
/// timestamp again; a shift by 0 changes nothing; and the shifted time lies later exactly
/// when `d > 0`.
pub proof fn lemma_shift_round_trip(ts: Timestamp, r: Timestamp, back: Timestamp, d: int)
    requires
        valid(ts),
        ts.year >= 1,
        valid(r),
        r.year >= 1,
        micros_of(r) == micros_of(ts) + d,
        valid(back),
        back.year >= 1,
        micros_of(back) == micros_of(r) - d,
    ensures
        back == ts,
        d == 0 ==> r == ts,
        (micros_of(r) > micros_of(ts)) == (d > 0),
{
    lemma_micros_injective(back, ts);
    if d == 0 {
        lemma_micros_injective(r, ts);
    }
}

/// Two valid timestamps of year 1 or later that denote the same microsecond are equal.
#[verifier::spinoff_prover]
pub proof fn lemma_micros_injective(t1: Timestamp, t2: Timestamp)
    requires
        valid(t1),
        valid(t2),
        t1.year >= 1,
        t2.year >= 1,
        micros_of(t1) == micros_of(t2),
    ensures
        t1 == t2,
{
    let d1 = day_number(t1);
    let d2 = day_number(t2);
    let r1 = time_of_day(t1);
    let r2 = time_of_day(t2);
    assert(0 <= r1 < day_micros());
    assert(0 <= r2 < day_micros());
    if d1 < d2 {
        assert(d1 * day_micros() + r1 < d2 * day_micros() + r2) by (nonlinear_arith)
            requires d1 < d2, 0 <= r1 < day_micros(), 0 <= r2, day_micros() == 86_400_000_000;
    }
    if d2 < d1 {
        assert(d2 * day_micros() + r2 < d1 * day_micros() + r1) by (nonlinear_arith)
            requires d2 < d1, 0 <= r2 < day_micros(), 0 <= r1, day_micros() == 86_400_000_000;
    }
    assert(d1 == d2);
    assert(r1 == r2);
    lemma_tod_injective(t1, t2);
    let y1 = t1.year as int;
    let y2 = t2.year as int;
    lemma_month_prefix_bound(y1, t1.month as int);
    lemma_month_prefix_bound(y2, t2.month as int);
    lemma_month_mono(y1, t1.month as int, 13);
    lemma_month_mono(y2, t2.month as int, 13);
    lemma_month_full(y1);
    lemma_month_full(y2);
    if y1 < y2 {
        lemma_year_mono(y1, y2);
    }
    if y2 < y1 {
        lemma_year_mono(y2, y1);
    }
    assert(y1 == y2);
    let m1 = t1.month as int;
    let m2 = t2.month as int;
    if m1 < m2 {
        lemma_month_mono(y1, m1, m2);
    }
    if m2 < m1 {
        lemma_month_mono(y1, m2, m1);
    }
    assert(m1 == m2);
}

#[verifier::spinoff_prover]
proof fn lemma_tod_injective(t1: Timestamp, t2: Timestamp)
    requires
        valid(t1),
        valid(t2),
        time_of_day(t1) == time_of_day(t2),
    ensures
        t1.hour == t2.hour,
        t1.minute == t2.minute,
        t1.second == t2.second,
        t1.micro == t2.micro,
{
    let h1 = t1.hour as int;
    let h2 = t2.hour as int;
    let m1 = t1.minute as int;
    let m2 = t2.minute as int;
    let s1 = t1.second as int;
    let s2 = t2.second as int;
    let u1 = t1.micro as int;
    let u2 = t2.micro as int;
    let a1 = m1 * 60_000_000 + s1 * 1_000_000 + u1;
    let a2 = m2 * 60_000_000 + s2 * 1_000_000 + u2;
    assert(0 <= a1 < 3_600_000_000);
    assert(0 <= a2 < 3_600_000_000);
    if h1 < h2 {
        assert(h1 * 3_600_000_000 + a1 < h2 * 3_600_000_000 + a2);
    }
    if h2 < h1 {
        assert(h2 * 3_600_000_000 + a2 < h1 * 3_600_000_000 + a1);
    }
    assert(h1 == h2);
    if m1 < m2 {
        assert(m1 * 60_000_000 + s1 * 1_000_000 + u1 < m2 * 60_000_000 + s2 * 1_000_000 + u2);
    }
    if m2 < m1 {
        assert(m2 * 60_000_000 + s2 * 1_000_000 + u2 < m1 * 60_000_000 + s1 * 1_000_000 + u1);
    }
    assert(m1 == m2);
    if s1 < s2 {
        assert(s1 * 1_000_000 + u1 < s2 * 1_000_000 + u2);
    }
    if s2 < s1 {
        assert(s2 * 1_000_000 + u2 < s1 * 1_000_000 + u1);
    }
}


fn days_in_year(year: u16) -> (r: u16)
    ensures
        r == year_days(year as int),
{
    if is_leap(year) {
        366
    } else {
        365
    }
}

fn is_leap(year: u16) -> (r: bool)
    ensures
        r == leap(year as int),
{
    (year % 4 == 0 && year % 100 != 0) || (year % 400 == 0)
}

fn days_in_month(year: u16, month: u8) -> (r: u8)
    ensures
        r == month_days(year as int, month as int),
{
    match month {
        1 | 3 | 5 | 7 | 8 | 10 | 12 => 31,
        4 | 6 | 9 | 11 => 30,
        2 => {
            if is_leap(year) {
                29
            } else {
                28
            }
        },
        _ => 0,
    }
}

impl Timestamp {
    /// Builds a timestamp, checking every field; a 29 February outside a leap
    /// year is turned into 28 February.
    pub fn new(
        year: u16,
        month: u8,
        day: u8,
        hour: u8,
        minute: u8,
        second: u8,
        micro: u32,
    ) -> (r: Result<Timestamp, Error>)
        ensures
            r == timestamp_new(year, month, day, hour, minute, second, micro),
            r matches Ok(t) ==> valid(t),
    {
        if month == 0 || month > 12 {
            return Err(Error::Time(TimeError::InvalidMonth(month)));
        }
        if day == 0 || day > 31 {
            return Err(Error::Time(TimeError::InvalidDay(day)));
        }
        if hour > 23 || minute > 59 || second > 59 {
            return Err(Error::Time(TimeError::InvalidTime));
        }
        if micro > 999_999 {
            return Err(Error::Time(TimeError::InvalidMicro(micro)));
        }
        let max_day = days_in_month(year, month);
        if day > max_day {
            if month == 2 && day == 29 {
                return Ok(Timestamp { year, month, day: 28, hour, minute, second, micro });
            }
            return Err(Error::Time(TimeError::InvalidDate { year, month, day }));
        }
        Ok(Timestamp { year, month, day, hour, minute, second, micro })
    }

    /// Microseconds since 0001-01-01 00:00:00.
    fn to_micros_since_epoch(self) -> (r: i64)
        requires
            self.day >= 1,
        ensures
            r == micros_of(self),
    {
        let mut days: i64 = 0;
        let mut y: u16 = 1;
        while y < self.year
            invariant
                1 <= y,
                y <= self.year || self.year == 0,
                self.year == 0 ==> y == 1,
                days == days_before_year(y as int),
                0 <= days <= 366 * (y - 1),
            decreases self.year - y,
        {
            proof {
                lemma_year_step(y as int);
            }
            days = days + days_in_year(y) as i64;
            y = y + 1;
        }
        assert(days == days_before_year(self.year as int));
        let mut m: u8 = 1;
        let mut md: i64 = 0;
        while m < self.month
            invariant
                1 <= m,
                m <= self.month || self.month == 0,
                self.month == 0 ==> m == 1,
                md == days_before_month(self.year as int, m as int),
                0 <= md <= 31 * (m - 1),
            decreases self.month - m,
        {
            proof {
                lemma_month_days_bound(self.year as int, m as int);
            }
            md = md + days_in_month(self.year, m) as i64;
            m = m + 1;
        }
        assert(md == days_before_month(self.year as int, self.month as int)) by {
            if self.month == 0 {
                assert(days_before_month(self.year as int, 0) == 0);
            }
        }
        days = days + md + (self.day - 1) as i64;
        days * 24 * 3600 * 1_000_000 + self.hour as i64 * 3600 * 1_000_000 + self.minute as i64
            * 60 * 1_000_000 + self.second as i64 * 1_000_000 + self.micro as i64
    }

    /// The valid timestamp `total` microseconds after 0001-01-01 00:00:00, or `None`
    /// for a negative count.
    pub(crate) fn from_micros_since_epoch(total: i64) -> (r: Option<Self>)
        requires
            total < micros_limit(),
        ensures
            r is None <==> total < 0,
            r matches Some(t) ==> valid(t) && t.year >= 1 && micros_of(t) == total,
    {
        if total < 0 {
            return None;
        }
        let ghost orig = total as int;
        let mut total = total;
        let micro = (total % 1_000_000) as u32;
        total = total / 1_000_000;
        let second = (total % 60) as u8;
        total = total / 60;
        let minute = (total % 60) as u8;
        total = total / 60;
        let hour = (total % 24) as u8;
        total = total / 24;
        let ghost days = total as int;
        assert(orig == days * day_micros() + hour * 3_600_000_000 + minute * 60_000_000 + second
            * 1_000_000 + micro) by (nonlinear_arith)
            requires
                micro == orig % 1_000_000,
                second == (orig / 1_000_000) % 60,
                minute == ((orig / 1_000_000) / 60) % 60,
                hour == (((orig / 1_000_000) / 60) / 60) % 24,
                days == (((orig / 1_000_000) / 60) / 60) / 24,
                orig >= 0,
                day_micros() == 86_400_000_000,
        ;
        assert(days < days_before_year(65536)) by (nonlinear_arith)
            requires
                orig == days * day_micros() + hour * 3_600_000_000 + minute * 60_000_000 + second
                    * 1_000_000 + micro,
                0 <= hour, 0 <= minute, 0 <= second, 0 <= micro,
                orig < days_before_year(65536) * day_micros(),
                day_micros() == 86_400_000_000,
        ;
        let mut year: u16 = 1;
        loop
            invariant
                1 <= year <= 65535,
                0 <= total,
                total == days - days_before_year(year as int),
                days < days_before_year(65536),
            ensures
                1 <= year <= 65535,
                0 <= total < year_days(year as int),
                total == days - days_before_year(year as int),
            decreases 65536 - year,
        {
            let dy = days_in_year(year) as i64;
            if total < dy {
                break;
            }
            proof {
                lemma_year_step(year as int);
                if year == 65535 {
                    assert(days >= days_before_year(65536));
                }
            }
            total = total - dy;
            year = year + 1;
        }
        let mut month: u8 = 1;
        proof {
            lemma_month_full(year as int);
        }
        loop
            invariant
                1 <= month <= 12,
                0 <= total,
                total + days_before_month(year as int, month as int) < year_days(year as int),
                total + days_before_month(year as int, month as int) == days - days_before_year(
                    year as int,
                ),
                days_before_month(year as int, 13) == year_days(year as int),
            ensures
                1 <= month <= 12,
                0 <= total < month_days(year as int, month as int),
                total + days_before_month(year as int, month as int) == days - days_before_year(
                    year as int,
                ),
            decreases 13 - month,
        {
            let dm = days_in_month(year, month) as i64;
            if total < dm {
                break;
            }
            proof {
                if month == 12 {
                    assert(days_before_month(year as int, 13) == days_before_month(year as int, 12)
                        + month_days(year as int, 12));
                }
            }
            total = total - dm;
            month = month + 1;
        }
        proof {
            lemma_month_days_bound(year as int, month as int);
        }
        let day = (total + 1) as u8;
        let t = Timestamp { year, month, day, hour, minute, second, micro };
        assert(day_number(t) == days);
        Some(t)
    }

    /// The timestamp `us` microseconds later (earlier for a negative `us`), or `None`
    /// when that falls before year 1.
    pub fn add_micros(&self, us: i64) -> (r: Option<Self>)
        requires
            self.day >= 1,
            i64::MIN <= micros_of(*self) + us < micros_limit(),
        ensures
            r is None <==> micros_of(*self) + us < 0,
            r matches Some(t) ==> valid(t) && t.year >= 1 && micros_of(t) == micros_of(*self) + us,
    {
        let total = (*self).to_micros_since_epoch() + us;
        Self::from_micros_since_epoch(total)
    }

    /// Whether `add_micros(us)` can be computed on this timestamp: its day is not 0 and
    /// the shifted time stays below year 65536 and within `i64`.
    pub fn can_add_micros(&self, us: i64) -> (r: bool)
        ensures
            r == (self.day >= 1 && i64::MIN <= micros_of(*self) + us < micros_limit()),
    {
        if self.day == 0 {
            return false;
        }
        let m = (*self).to_micros_since_epoch();
        let total: i128 = m as i128 + us as i128;
        assert(days_before_year(65536) == 23936166);
        assert(micros_limit() == 2_068_084_742_400_000_000) by {
            assert(day_micros() == 86_400_000_000);
        }
        -9_223_372_036_854_775_808i128 <= total && total < 2_068_084_742_400_000_000i128
    }
}


/// The state of `collapse_colon_spaces` after reading `s`: the text so far and
/// whether spaces are being skipped after a colon.
pub open spec fn collapse_state(s: Seq<char>) -> (Seq<char>, bool)
    decreases s.len(),
{
    if s.len() == 0 {
        (Seq::<char>::empty(), false)
    } else {
        let (r, skipping) = collapse_state(s.drop_last());
        let c = s.last();
        if c == ':' {
            (strip_trailing_spaces(r).push(':'), true)
        } else if skipping && c == ' ' {
            (r, true)
        } else {
            (r.push(c), false)
        }
    }
}

/// `s` without its trailing spaces (U+0020 only).
pub open spec fn strip_trailing_spaces(s: Seq<char>) -> Seq<char>
    decreases s.len(),
{
    if s.len() > 0 && s.last() == ' ' {
        strip_trailing_spaces(s.drop_last())
    } else {
        s
    }
}

/// `s` with the spaces on both sides of every colon removed.
pub open spec fn collapse_colons(s: Seq<char>) -> Seq<char> {
    collapse_state(s).0
}

fn collapse_colon_spaces(s: &[char]) -> (r: Vec<char>)
    ensures
        r@ == collapse_colons(s@),
{
    let mut result: Vec<char> = Vec::new();
    let mut i: usize = 0;
    let ghost mut skipping = false;
    while i < s.len()
        invariant
            i <= s@.len(),
            collapse_state(s@.take(i as int)) == (result@, skipping),
            skipping ==> i == s@.len() || s@[i as int] != ' ',
        decreases s.len() - i,
    {
        assert(s@.take(i + 1).drop_last() =~= s@.take(i as int));
        if s[i] == ':' {
            while result.len() > 0 && result[result.len() - 1] == ' '
                invariant
                    strip_trailing_spaces(result@) == strip_trailing_spaces(
                        collapse_state(s@.take(i as int)).0,
                    ),
                decreases result.len(),
            {
                let ghost before = result@;
                result.pop();
                assert(before.drop_last() =~= result@);
            }
            result.push(':');
            i = i + 1;
            proof {
                skipping = true;
            }
            let ghost i0 = i;
            while i < s.len() && s[i] == ' '
                invariant
                    i0 <= i <= s@.len(),
                    collapse_state(s@.take(i as int)) == (result@, true),
                decreases s.len() - i,
            {
                assert(s@.take(i + 1).drop_last() =~= s@.take(i as int));
                i = i + 1;
            }
        } else {
            result.push(s[i]);
            i = i + 1;
            proof {
                skipping = false;
            }
        }
    }
    assert(s@.take(s@.len() as int) =~= s@);
    result
}

/// `s` with the fractional seconds after its last `.` brought to exactly six
/// digits: shorter runs are padded with zeros (what follows them is kept),
/// longer ones are cut (and what follows them is dropped).
pub open spec fn normalize_micro(s: Seq<char>) -> Seq<char> {
    match last_index_of(s, '.') {
        None => s,
        Some(d) => {
            let after = s.skip(d + 1);
            let k = digit_prefix_len(after);
            if k < 6 {
                s.take(d) + seq!['.'] + after.take(k as int) + repeat_char('0', (6 - k) as nat)
                    + after.skip(k as int)
            } else {
                s.take(d) + seq!['.'] + after.take(6)
            }
        },
    }
}

fn normalize_microsecond(s: &[char]) -> (r: Vec<char>)
    ensures
        r@ == normalize_micro(s@),
{
    proof {
        lemma_last_index_of(s@, '.');
    }
    match rfind_char(s, '.') {
        None => slice_chars(s, 0, s.len()),
        Some(dot_pos) => {
            let n = s.len();
            assert(dot_pos < n);
            let k = digit_run(s, dot_pos + 1);
            let ghost after = s@.skip(dot_pos + 1);
            let mut out = slice_chars(s, 0, dot_pos);
            out.push('.');
            let ghost base = out@;
            let take = if k < 6 { k } else { 6 };
            let mut j: usize = 0;
            while j < take
                invariant
                    j <= take,
                    take <= k,
                    dot_pos + 1 + k <= s@.len(),
                    n == s@.len(),
                    after == s@.skip(dot_pos + 1),
                    out@ == base + after.take(j as int),
                decreases take - j,
            {
                assert(dot_pos + 1 + j < n);
                out.push(s[dot_pos + 1 + j]);
                j = j + 1;
                assert(out@ =~= base + after.take(j as int));
            }
            if k < 6 {
                let ghost b2 = out@;
                let mut z: usize = k;
                while z < 6
                    invariant
                        k <= z <= 6,
                        out@ == b2 + repeat_char('0', (z - k) as nat),
                    decreases 6 - z,
                {
                    out.push('0');
                    z = z + 1;
                    assert(out@ =~= b2 + repeat_char('0', (z - k) as nat));
                }
                let ghost b3 = out@;
                assert(dot_pos + 1 + k <= n);
                let mut t: usize = dot_pos + 1 + k;
                while t < s.len()
                    invariant
                        dot_pos + 1 + k <= t <= s@.len(),
                        out@ == b3 + s@.subrange(dot_pos + 1 + k, t as int),
                    decreases s.len() - t,
                {
                    out.push(s[t]);
                    t = t + 1;
                    assert(out@ =~= b3 + s@.subrange(dot_pos + 1 + k, t as int));
                }
                assert(s@.subrange(dot_pos + 1 + k, s@.len() as int) =~= after.skip(k as int));
            }
            assert(out@ =~= normalize_micro(s@));
            out
        },
    }
}

/// The year that the digits `d` written after a `/29/` stand for: four digits as they
/// are, two as `%y` reads them (00-68 → 2000-2068, 69-99 → 1969-1999); none for other
/// lengths.
pub open spec fn year_digits(d: Seq<char>) -> Option<int> {
    if d.len() == 4 || d.len() == 2 {
        match parse_uint(d, 9999) {
            Some(v) => Some(
                if d.len() == 4 {
                    v as int
                } else if v <= 68 {
                    2000 + v as int
                } else {
                    1900 + v as int
                },
            ),
            None => None,
        }
    } else {
        None
    }
}

/// The year written from position `k` of `s` on (its run of digits), if any.
pub open spec fn year_from(s: Seq<char>, k: int) -> Option<int> {
    year_digits(s.skip(k).take(digit_prefix_len(s.skip(k)) as int))
}

/// A `/29/` stands at position `i` of `s` and is followed by the digits of a leap year.
pub open spec fn leap_29_at(s: Seq<char>, i: int) -> bool {
    &&& occurs_at(s, seq!['/', '2', '9', '/'], i)
    &&& year_from(s, i + 4) matches Some(y)
    &&& leap(y)
}

/// `s` with `/29/` turned into `/28/` when it mentions both `29` and `02/` and no `/29/`
/// in it is followed by a leap year (a 29 February that does not exist is moved back a
/// day; one of a leap year stays).
pub open spec fn fix_feb29_text(s: Seq<char>) -> Seq<char> {
    if contains(s, seq!['2', '9']) && (contains(s, seq!['0', '2', '/']) || contains(
        s,
        seq!['/', '0', '2', '/'],
    )) && !(exists|i: int| leap_29_at(s, i)) {
        replace(s, seq!['/', '2', '9', '/'], seq!['/', '2', '8', '/'])
    } else {
        s
    }
}

/// Whether some `/29/` of `s` is followed by the digits of a leap year.
fn has_leap_29(s: &[char]) -> (r: bool)
    ensures
        r == exists|i: int| leap_29_at(s@, i),
{
    let p = vec!['/', '2', '9', '/'];
    assert(p@ =~= seq!['/', '2', '9', '/']);
    let mut i: usize = 0;
    while i < s.len()
        invariant
            i <= s@.len(),
            p@ == seq!['/', '2', '9', '/'],
            forall|j: int| 0 <= j < i ==> !leap_29_at(s@, j),
        decreases s.len() - i,
    {
        if occurs_at_chars(s, &p, i) {
            let k = i + 4;
            let n = digit_run(s, k);
            let d = slice_chars(s, k, k + n);
            assert(d@ =~= s@.skip(k as int).take(n as int));
            if n == 2 || n == 4 {
                if let Some(v) = parse_uint_chars(d.as_slice(), 9999) {
                    let y: u16 = if n == 4 {
                        v as u16
                    } else if v <= 68 {
                        2000 + v as u16
                    } else {
                        1900 + v as u16
                    };
                    if is_leap(y) {
                        assert(leap_29_at(s@, i as int));
                        return true;
                    }
                }
            }
            assert(!leap_29_at(s@, i as int));
        }
        i = i + 1;
    }
    assert forall|j: int| !leap_29_at(s@, j) by {
        if 0 <= j < i {
        }
    }
    false
}

fn fix_feb29(s: &[char]) -> (r: Vec<char>)
    ensures
        r@ == fix_feb29_text(s@),
{
    let p29 = vec!['2', '9'];
    let p02 = vec!['0', '2', '/'];
    let ps02 = vec!['/', '0', '2', '/'];
    assert(p29@ =~= seq!['2', '9']);
    assert(p02@ =~= seq!['0', '2', '/']);
    assert(ps02@ =~= seq!['/', '0', '2', '/']);
    if contains_chars(s, &p29) && (contains_chars(s, &p02) || contains_chars(s, &ps02))
        && !has_leap_29(s) {
        let from = vec!['/', '2', '9', '/'];
        let to = vec!['/', '2', '8', '/'];
        assert(from@ =~= seq!['/', '2', '9', '/']);
        assert(to@ =~= seq!['/', '2', '8', '/']);
        replace_chars(s, &from, &to)
    } else {
        slice_chars(s, 0, s.len())
    }
}


/// One element of a time layout: a numeric field or a literal character.
#[derive(Debug, Clone, Copy, PartialEq, Eq, Structural)]
pub enum FmtPart {
    /// `%d` day, two digits.
    D,
    /// `%m` month, two digits.
    M,
    /// `%Y` four-digit year.
    Y,
    /// `%y` two-digit year (00-68 → 2000-2068, 69-99 → 1969-1999).
    Y2,
    /// `%H` hour, two digits.
    H,
    /// `%M` minute, two digits.
    Min,
    /// `%S` second, two digits.
    S,
    /// `%f` microsecond, six digits.
    F,
    /// A character that must appear as it is.
    Lit(char),
}

/// The element that `%c` stands for.
pub open spec fn directive(c: char) -> FmtPart {
    if c == 'd' {
        FmtPart::D
    } else if c == 'm' {
        FmtPart::M
    } else if c == 'Y' {
        FmtPart::Y
    } else if c == 'y' {
        FmtPart::Y2
    } else if c == 'H' {
        FmtPart::H
    } else if c == 'M' {
        FmtPart::Min
    } else if c == 'S' {
        FmtPart::S
    } else if c == 'f' {
        FmtPart::F
    } else {
        FmtPart::Lit(c)
    }
}

/// The elements of a layout written with `%` directives.
pub open spec fn format_parts(f: Seq<char>) -> Seq<FmtPart>
    decreases f.len(),
{
    if f.len() == 0 {
        Seq::<FmtPart>::empty()
    } else if f[0] == '%' && f.len() >= 2 {
        seq![directive(f[1])] + format_parts(f.skip(2))
    } else {
        seq![lit(f[0])] + format_parts(f.skip(1))
    }
}

/// The element that stands for the literal character `c`.
pub open spec fn lit(c: char) -> FmtPart {
    FmtPart::Lit(c)
}

proof fn lemma_format_parts_lit(f: Seq<char>)
    requires
        f.len() > 0,
        !(f[0] == '%' && f.len() >= 2),
    ensures
        format_parts(f) == seq![lit(f[0])] + format_parts(f.skip(1)),
{
}

fn parse_format_parts(fmt: &str) -> (parts: Vec<FmtPart>)
    ensures
        parts@ == format_parts(fmt@),
{
    let chars = str_chars(fmt);
    let mut parts: Vec<FmtPart> = Vec::new();
    let mut i: usize = 0;
    assert(chars@.skip(0) =~= chars@);
    while i < chars.len()
        invariant
            i <= chars@.len(),
            format_parts(chars@) == parts@ + format_parts(chars@.skip(i as int)),
        decreases chars.len() - i,
    {
        let ghost rest = chars@.skip(i as int);
        let ghost before = parts@;
        assert(rest[0] == chars@[i as int]);
        assert(rest.len() == chars@.len() - i);
        let is_directive = chars[i] == '%' && i + 1 < chars.len();
        if is_directive {
            let part = match chars[i + 1] {
                'd' => FmtPart::D,
                'm' => FmtPart::M,
                'Y' => FmtPart::Y,
                'y' => FmtPart::Y2,
                'H' => FmtPart::H,
                'M' => FmtPart::Min,
                'S' => FmtPart::S,
                'f' => FmtPart::F,
                c => FmtPart::Lit(c),
            };
            assert(rest[1] == chars@[i + 1]);
            assert(part == directive(rest[1]));
            assert(rest.skip(2) =~= chars@.skip(i + 2));
            assert(format_parts(rest) == seq![part] + format_parts(chars@.skip(i + 2)));
            parts.push(part);
            assert(parts@ =~= before + seq![part]);
            i = i + 2;
        } else {
            let ch = chars[i];
            let part = FmtPart::Lit(ch);
            proof {
                lemma_format_parts_lit(rest);
                assert(rest.skip(1) =~= chars@.skip(i + 1));
            }
            parts.push(part);
            assert(parts@ =~= before + seq![part]);
            i = i + 1;
        }
        assert(parts@ + format_parts(chars@.skip(i as int)) =~= format_parts(chars@));
    }
    assert(chars@.skip(i as int) =~= Seq::<char>::empty());
    assert(parts@ + Seq::<FmtPart>::empty() =~= parts@);
    parts
}

/// Number of digits that a field reads.
pub open spec fn part_width(p: FmtPart) -> nat {
    match p {
        FmtPart::Y => 4,
        FmtPart::F => 6,
        _ => 2,
    }
}

/// `acc` with the field of `p` set from the number `v`.
pub open spec fn set_field(acc: Timestamp, p: FmtPart, v: nat) -> Timestamp {
    match p {
        FmtPart::D => Timestamp { day: v as u8, ..acc },
        FmtPart::M => Timestamp { month: v as u8, ..acc },
        FmtPart::Y => Timestamp { year: v as u16, ..acc },
        FmtPart::Y2 => Timestamp {
            year: if v <= 68 {
                (2000 + v) as u16
            } else {
                (1900 + v) as u16
            },
            ..acc
        },
        FmtPart::H => Timestamp { hour: v as u8, ..acc },
        FmtPart::Min => Timestamp { minute: v as u8, ..acc },
        FmtPart::S => Timestamp { second: v as u8, ..acc },
        FmtPart::F => Timestamp { micro: v as u32, ..acc },
        FmtPart::Lit(_) => acc,
    }
}

/// The number written with exactly `n` digits at `pos`.
pub open spec fn read_num(s: Seq<char>, pos: int, n: nat) -> Option<nat> {
    if 0 <= pos && pos + n <= s.len() && all_digits(s.subrange(pos, pos + n)) {
        Some(digits_value(s.subrange(pos, pos + n)))
    } else {
        None
    }
}

/// Reads `s` from `pos` against `parts`, filling the fields of `acc`; the whole of
/// `s` must be consumed.
pub open spec fn match_parts(s: Seq<char>, pos: int, parts: Seq<FmtPart>, acc: Timestamp) -> Option<
    Timestamp,
>
    decreases parts.len(),
{
    if parts.len() == 0 {
        if pos == s.len() {
            Some(acc)
        } else {
            None
        }
    } else {
        match parts[0] {
            FmtPart::Lit(c) => {
                if 0 <= pos < s.len() && s[pos] == c {
                    match_parts(s, pos + 1, parts.drop_first(), acc)
                } else {
                    None
                }
            },
            p => match read_num(s, pos, part_width(p)) {
                Some(v) => match_parts(s, pos + part_width(p), parts.drop_first(), set_field(acc, p, v)),
                None => None,
            },
        }
    }
}

/// All fields zero.
pub open spec fn zero_fields() -> Timestamp {
    Timestamp { year: 0, month: 0, day: 0, hour: 0, minute: 0, second: 0, micro: 0 }
}

/// The timestamp that `s` denotes under layout `parts`, if it matches and is valid.
pub open spec fn parse_fields(s: Seq<char>, parts: Seq<FmtPart>) -> Option<Timestamp> {
    match match_parts(s, 0, parts, zero_fields()) {
        Some(f) => match timestamp_new(f.year, f.month, f.day, f.hour, f.minute, f.second, f.micro) {
            Ok(t) => Some(t),
            Err(_) => None,
        },
        None => None,
    }
}

/// `10^n`.
pub open spec fn pow10(n: nat) -> nat
    decreases n,
{
    if n == 0 {
        1
    } else {
        10 * pow10((n - 1) as nat)
    }
}

pub proof fn lemma_pow10_small(n: nat)
    requires
        n <= 6,
    ensures
        pow10(n) <= 1000000,
        n <= 5 ==> pow10(n) <= 100000,
        pow10(2) == 100,
        pow10(4) == 10000,
        pow10(6) == 1000000,
{
    reveal_with_fuel(pow10, 7);
}

fn read_number(chars: &[char], start: usize, digits: usize) -> (r: Option<(u32, usize)>)
    requires
        digits <= 6,
    ensures
        r matches Some((v, p)) ==> read_num(chars@, start as int, digits as nat) == Some(v as nat)
            && p == start + digits && (v as nat) < pow10(digits as nat),
        r is None ==> read_num(chars@, start as int, digits as nat) is None,
{
    if start > chars.len() {
        return None;
    }
    let mut val: u32 = 0;
    let mut pos = start;
    let mut i: usize = 0;
    assert(chars@.subrange(start as int, start as int) =~= Seq::<char>::empty());
    while i < digits
        invariant
            i <= digits <= 6,
            pos == start + i,
            start + i <= chars@.len(),
            all_digits(chars@.subrange(start as int, pos as int)),
            val as nat == digits_value(chars@.subrange(start as int, pos as int)),
            (val as nat) < pow10(i as nat),
            pow10(i as nat) <= 1000000,
        decreases digits - i,
    {
        proof {
            lemma_pow10_small(i as nat);
        }
        if pos >= chars.len() || !('0' <= chars[pos] && chars[pos] <= '9') {
            proof {
                if start + digits <= chars@.len() {
                    let sub = chars@.subrange(start as int, start + digits);
                    assert(sub[i as int] == chars@[pos as int]);
                }
            }
            return None;
        }
        let d = chars[pos] as u32 - '0' as u32;
        proof {
            let sub = chars@.subrange(start as int, pos + 1);
            assert(sub.drop_last() =~= chars@.subrange(start as int, pos as int));
            assert(pow10((i + 1) as nat) == 10 * pow10(i as nat));
            assert(val * 10 + d < 10 * pow10(i as nat)) by (nonlinear_arith)
                requires (val as nat) < pow10(i as nat), d <= 9;
            lemma_pow10_small((i + 1) as nat);
        }
        val = val * 10 + d;
        pos = pos + 1;
        i = i + 1;
    }
    Some((val, pos))
}


/// The layouts that `parse` tries, in order (month-first four-digit year first,
/// the layout that `format_cfg` writes).
pub open spec fn time_format_text(i: int) -> Seq<char> {
    if i == 0 {
        seq!['%', 'm', '/', '%', 'd', '/', '%', 'Y', ',', '%', 'H', ':', '%', 'M', ':', '%', 'S', '.', '%', 'f']
    } else if i == 1 {
        seq!['%', 'd', '/', '%', 'm', '/', '%', 'Y', ',', '%', 'H', ':', '%', 'M', ':', '%', 'S', '.', '%', 'f']
    } else if i == 2 {
        seq!['%', 'm', '/', '%', 'd', '/', '%', 'y', ',', '%', 'H', ':', '%', 'M', ':', '%', 'S', '.', '%', 'f']
    } else if i == 3 {
        seq!['%', 'd', '/', '%', 'm', '/', '%', 'y', ',', '%', 'H', ':', '%', 'M', ':', '%', 'S', '.', '%', 'f']
    } else if i == 4 {
        seq!['%', 'm', '/', '%', 'd', '/', '%', 'Y', ',', ' ', '%', 'H', ':', '%', 'M', ':', '%', 'S', '.', '%', 'f']
    } else if i == 5 {
        seq!['%', 'Y', '-', '%', 'm', '-', '%', 'd', ' ', '%', 'H', ':', '%', 'M', ':', '%', 'S']
    } else if i == 6 {
        seq!['%', 'Y', '-', '%', 'm', '-', '%', 'd', ' ', '%', 'H', ':', '%', 'M', ':', '%', 'S', '.', '%', 'f']
    } else if i == 7 {
        seq!['%', 'Y', '-', '%', 'm', '-', '%', 'd', 'T', '%', 'H', ':', '%', 'M', ':', '%', 'S', '.', '%', 'f']
    } else if i == 8 {
        seq!['%', 'Y', '-', '%', 'm', '-', '%', 'd', ',', '%', 'H', ':', '%', 'M', ':', '%', 'S', '.', '%', 'f']
    } else if i == 9 {
        seq!['%', 'Y', '/', '%', 'm', '/', '%', 'd', ' ', '%', 'H', ':', '%', 'M', ':', '%', 'S']
    } else if i == 10 {
        seq!['%', 'Y', '/', '%', 'm', '/', '%', 'd', ' ', '%', 'H', ':', '%', 'M', ':', '%', 'S', '.', '%', 'f']
    } else if i == 11 {
        seq!['%', 'd', '/', '%', 'm', '/', '%', 'Y', ' ', '%', 'H', ':', '%', 'M', ':', '%', 'S']
    } else if i == 12 {
        seq!['%', 'd', '/', '%', 'm', '/', '%', 'Y', ' ', '%', 'H', ':', '%', 'M', ':', '%', 'S', '.', '%', 'f']
    } else if i == 13 {
        seq!['%', 'm', '/', '%', 'd', '/', '%', 'Y', ' ', '%', 'H', ':', '%', 'M', ':', '%', 'S']
    } else {
        seq!['%', 'm', '/', '%', 'd', '/', '%', 'Y', ' ', '%', 'H', ':', '%', 'M', ':', '%', 'S', '.', '%', 'f']
    }
}

/// Number of layouts that `parse` tries.
pub const TIME_FORMAT_COUNT: usize = 15;

/// The `i`-th layout that `parse` tries.
fn time_format(i: usize) -> (r: &'static str)
    requires
        i < 15,
    ensures
        r@ == time_format_text(i as int),
{
    match i {
        0 => {
            proof {
                reveal_strlit("%m/%d/%Y,%H:%M:%S.%f");
            }
            "%m/%d/%Y,%H:%M:%S.%f"
        },
        1 => {
            proof {
                reveal_strlit("%d/%m/%Y,%H:%M:%S.%f");
            }
            "%d/%m/%Y,%H:%M:%S.%f"
        },
        2 => {
            proof {
                reveal_strlit("%m/%d/%y,%H:%M:%S.%f");
            }
            "%m/%d/%y,%H:%M:%S.%f"
        },
        3 => {
            proof {
                reveal_strlit("%d/%m/%y,%H:%M:%S.%f");
            }
            "%d/%m/%y,%H:%M:%S.%f"
        },
        4 => {
            proof {
                reveal_strlit("%m/%d/%Y, %H:%M:%S.%f");
            }
            "%m/%d/%Y, %H:%M:%S.%f"
        },
        5 => {
            proof {
                reveal_strlit("%Y-%m-%d %H:%M:%S");
            }
            "%Y-%m-%d %H:%M:%S"
        },
        6 => {
            proof {
                reveal_strlit("%Y-%m-%d %H:%M:%S.%f");
            }
            "%Y-%m-%d %H:%M:%S.%f"
        },
        7 => {
            proof {
                reveal_strlit("%Y-%m-%dT%H:%M:%S.%f");
            }
            "%Y-%m-%dT%H:%M:%S.%f"
        },
        8 => {
            proof {
                reveal_strlit("%Y-%m-%d,%H:%M:%S.%f");
            }
            "%Y-%m-%d,%H:%M:%S.%f"
        },
        9 => {
            proof {
                reveal_strlit("%Y/%m/%d %H:%M:%S");
            }
            "%Y/%m/%d %H:%M:%S"
        },
        10 => {
            proof {
                reveal_strlit("%Y/%m/%d %H:%M:%S.%f");
            }
            "%Y/%m/%d %H:%M:%S.%f"
        },
        11 => {
            proof {
                reveal_strlit("%d/%m/%Y %H:%M:%S");
            }
            "%d/%m/%Y %H:%M:%S"
        },
        12 => {
            proof {
                reveal_strlit("%d/%m/%Y %H:%M:%S.%f");
            }
            "%d/%m/%Y %H:%M:%S.%f"
        },
        13 => {
            proof {
                reveal_strlit("%m/%d/%Y %H:%M:%S");
            }
            "%m/%d/%Y %H:%M:%S"
        },
        _ => {
            proof {
                reveal_strlit("%m/%d/%Y %H:%M:%S.%f");
            }
            "%m/%d/%Y %H:%M:%S.%f"
        },
    }
}

fn parse_with_parts(s: &[char], parts: &[FmtPart]) -> (r: Option<Timestamp>)
    ensures
        r == parse_fields(s@, parts@),
{
    let mut pos: usize = 0;
    let mut acc = Timestamp { year: 0, month: 0, day: 0, hour: 0, minute: 0, second: 0, micro: 0 };
    let mut k: usize = 0;
    assert(parts@.skip(0) =~= parts@);
    while k < parts.len()
        invariant
            k <= parts@.len(),
            match_parts(s@, 0, parts@, zero_fields()) == match_parts(
                s@,
                pos as int,
                parts@.skip(k as int),
                acc,
            ),
        decreases parts.len() - k,
    {
        let ghost rest = parts@.skip(k as int);
        assert(rest[0] == parts@[k as int]);
        assert(rest.drop_first() =~= parts@.skip(k + 1));
        let part = parts[k];
        match part {
            FmtPart::Lit(c) => {
                if pos >= s.len() || s[pos] != c {
                    return None;
                }
                pos = pos + 1;
            },
            _ => {
                let width: usize = match part {
                    FmtPart::Y => 4,
                    FmtPart::F => 6,
                    _ => 2,
                };
                assert(width == part_width(part));
                match read_number(s, pos, width) {
                    None => {
                        return None;
                    },
                    Some((val, new_pos)) => {
                        proof {
                            lemma_pow10_small(width as nat);
                        }
                        let ghost before = acc;
                        match part {
                            FmtPart::D => {
                                acc.day = val as u8;
                            },
                            FmtPart::M => {
                                acc.month = val as u8;
                            },
                            FmtPart::Y => {
                                acc.year = val as u16;
                            },
                            FmtPart::Y2 => {
                                acc.year = if val <= 68 {
                                    2000 + val as u16
                                } else {
                                    1900 + val as u16
                                };
                            },
                            FmtPart::H => {
                                acc.hour = val as u8;
                            },
                            FmtPart::Min => {
                                acc.minute = val as u8;
                            },
                            FmtPart::S => {
                                acc.second = val as u8;
                            },
                            FmtPart::F => {
                                acc.micro = val;
                            },
                            FmtPart::Lit(_) => {},
                        }
                        assert(acc == set_field(before, part, val as nat));
                        pos = new_pos;
                    },
                }
            },
        }
        k = k + 1;
    }
    if pos != s.len() {
        return None;
    }
    match Timestamp::new(acc.year, acc.month, acc.day, acc.hour, acc.minute, acc.second, acc.micro) {
        Ok(t) => Some(t),
        Err(_) => None,
    }
}

fn try_format(s: &[char], fmt: &str) -> (r: Option<Result<Timestamp, Error>>)
    ensures
        r == (match parse_fields(s@, format_parts(fmt@)) {
            Some(t) => Some(Ok::<Timestamp, Error>(t)),
            None => None,
        }),
{
    let parts = parse_format_parts(fmt);
    match parse_with_parts(s, &parts) {
        Some(t) => Some(Ok(t)),
        None => None,
    }
}

/// The first layout from the `i`-th on that `s` matches, read as a timestamp.
pub open spec fn try_formats(s: Seq<char>, i: int) -> Option<Timestamp>
    decreases 15 - i,
{
    if i < 0 || i >= 15 {
        None
    } else {
        match parse_fields(s, format_parts(time_format_text(i))) {
            Some(t) => Some(t),
            None => try_formats(s, i + 1),
        }
    }
}

/// The text that `parse` matches against its layouts: trimmed, spaces around
/// colons removed, six fractional digits, and a 29 February outside a leap year moved to
/// the 28th (see `fix_feb29_text`).
pub open spec fn prepared_time_text(s: Seq<char>) -> Seq<char> {
    fix_feb29_text(normalize_micro(collapse_colons(trim(s))))
}

/// What `parse` gives for the text `s`.
pub open spec fn parse_outcome(s: Seq<char>, r: Result<Timestamp, Error>) -> bool {
    match try_formats(prepared_time_text(s), 0) {
        Some(t) => r == Ok::<Timestamp, Error>(t),
        None => r matches Err(Error::Time(TimeError::Unparsable(x))) && x@ == prepared_time_text(s),
    }
}

/// Parses a timestamp written in one of the layouts COMTRADE files use.
pub fn parse(s: &str) -> (r: Result<Timestamp, Error>)
    ensures
        parse_outcome(s@, r),
        r matches Ok(t) ==> valid(t),
{
    let chars = str_chars(s);
    let (a, b) = trim_bounds(&chars);
    let trimmed = slice_chars(&chars, a, b);
    let collapsed = collapse_colon_spaces(&trimmed);
    let normalized = normalize_microsecond(&collapsed);
    let text = fix_feb29(&normalized);
    let ghost p = prepared_time_text(s@);
    assert(text@ == p);
    let mut i: usize = 0;
    while i < 15
        invariant
            i <= 15,
            text@ == p,
            p == prepared_time_text(s@),
            try_formats(p, 0) == try_formats(p, i as int),
        decreases 15 - i,
    {
        let fmt = time_format(i);
        if let Some(ts) = try_format(&text, fmt) {
            proof {
                lemma_parse_fields_valid(text@, format_parts(fmt@));
                assert(try_formats(p, i as int) == parse_fields(p, format_parts(fmt@)));
                let t0 = parse_fields(p, format_parts(fmt@)).unwrap();
                assert(ts == Ok::<Timestamp, Error>(t0));
            }
            return ts;
        }
        i = i + 1;
    }
    Err(Error::Time(TimeError::Unparsable(chars_to_string(&text))))
}

proof fn lemma_parse_fields_valid(s: Seq<char>, parts: Seq<FmtPart>)
    ensures
        parse_fields(s, parts) matches Some(t) ==> valid(t),
{
    if let Some(f) = match_parts(s, 0, parts, zero_fields()) {
        let r = timestamp_new(f.year, f.month, f.day, f.hour, f.minute, f.second, f.micro);
        if r is Ok {
            lemma_timestamp_new_valid(f.year, f.month, f.day, f.hour, f.minute, f.second, f.micro);
        }
    }
}

proof fn lemma_timestamp_new_valid(
    year: u16,
    month: u8,
    day: u8,
    hour: u8,
    minute: u8,
    second: u8,
    micro: u32,
)
    ensures
        timestamp_new(year, month, day, hour, minute, second, micro) matches Ok(t) ==> valid(t),
{
}

/// The CFG layout of `t`: `MM/DD/YYYY,HH:MM:SS.ffffff`.
pub open spec fn cfg_text(t: Timestamp) -> Seq<char> {
    dec_padded(t.month as nat, 2) + seq!['/'] + dec_padded(t.day as nat, 2) + seq!['/']
        + dec_padded(t.year as nat, 4) + seq![','] + dec_padded(t.hour as nat, 2) + seq![':']
        + dec_padded(t.minute as nat, 2) + seq![':'] + dec_padded(t.second as nat, 2) + seq!['.']
        + dec_padded(t.micro as nat, 6)
}

/// Writes `ts` in the CFG layout `MM/DD/YYYY,HH:MM:SS.ffffff`.
pub fn format_cfg(ts: &Timestamp) -> (r: String)
    ensures
        r@ == cfg_text(*ts),
{
    let mut out: Vec<char> = Vec::new();
    push_dec_padded(&mut out, ts.month as u64, 2);
    out.push('/');
    push_dec_padded(&mut out, ts.day as u64, 2);
    out.push('/');
    push_dec_padded(&mut out, ts.year as u64, 4);
    out.push(',');
    push_dec_padded(&mut out, ts.hour as u64, 2);
    out.push(':');
    push_dec_padded(&mut out, ts.minute as u64, 2);
    out.push(':');
    push_dec_padded(&mut out, ts.second as u64, 2);
    out.push('.');
    push_dec_padded(&mut out, ts.micro as u64, 6);
    assert(out@ =~= cfg_text(*ts));
    chars_to_string(&out)
}


} // verus!

verus! {

/// The layout `MM/DD/YYYY,HH:MM:SS.ffffff` as elements.
pub open spec fn cfg_layout() -> Seq<FmtPart> {
    seq![
        FmtPart::M,
        lit('/'),
        FmtPart::D,
        lit('/'),
        FmtPart::Y,
        lit(','),
        FmtPart::H,
        lit(':'),
        FmtPart::Min,
        lit(':'),
        FmtPart::S,
        lit('.'),
        FmtPart::F,
    ]
}

#[verifier::spinoff_prover]
proof fn lemma_cfg_layout()
    ensures
        format_parts(time_format_text(0)) == cfg_layout(),
{
    let f0 = seq!['%', 'm', '/', '%', 'd', '/', '%', 'Y', ',', '%', 'H', ':', '%', 'M', ':', '%', 'S', '.', '%', 'f'];
    let f1 = seq!['/', '%', 'd', '/', '%', 'Y', ',', '%', 'H', ':', '%', 'M', ':', '%', 'S', '.', '%', 'f'];
    let f2 = seq!['%', 'd', '/', '%', 'Y', ',', '%', 'H', ':', '%', 'M', ':', '%', 'S', '.', '%', 'f'];
    let f3 = seq!['/', '%', 'Y', ',', '%', 'H', ':', '%', 'M', ':', '%', 'S', '.', '%', 'f'];
    let f4 = seq!['%', 'Y', ',', '%', 'H', ':', '%', 'M', ':', '%', 'S', '.', '%', 'f'];
    let f5 = seq![',', '%', 'H', ':', '%', 'M', ':', '%', 'S', '.', '%', 'f'];
    let f6 = seq!['%', 'H', ':', '%', 'M', ':', '%', 'S', '.', '%', 'f'];
    let f7 = seq![':', '%', 'M', ':', '%', 'S', '.', '%', 'f'];
    let f8 = seq!['%', 'M', ':', '%', 'S', '.', '%', 'f'];
    let f9 = seq![':', '%', 'S', '.', '%', 'f'];
    let f10 = seq!['%', 'S', '.', '%', 'f'];
    let f11 = seq!['.', '%', 'f'];
    let f12 = seq!['%', 'f'];
    let f13 = Seq::<char>::empty();
    assert(time_format_text(0) == f0);
    assert(f0.skip(2) =~= f1);
    assert(format_parts(f0) == seq![directive(f0[1])] + format_parts(f1));
    assert(f1.skip(1) =~= f2);
    lemma_format_parts_lit(f1);
    assert(f2.skip(2) =~= f3);
    assert(format_parts(f2) == seq![directive(f2[1])] + format_parts(f3));
    assert(f3.skip(1) =~= f4);
    lemma_format_parts_lit(f3);
    assert(f4.skip(2) =~= f5);
    assert(format_parts(f4) == seq![directive(f4[1])] + format_parts(f5));
    assert(f5.skip(1) =~= f6);
    lemma_format_parts_lit(f5);
    assert(f6.skip(2) =~= f7);
    assert(format_parts(f6) == seq![directive(f6[1])] + format_parts(f7));
    assert(f7.skip(1) =~= f8);
    lemma_format_parts_lit(f7);
    assert(f8.skip(2) =~= f9);
    assert(format_parts(f8) == seq![directive(f8[1])] + format_parts(f9));
    assert(f9.skip(1) =~= f10);
    lemma_format_parts_lit(f9);
    assert(f10.skip(2) =~= f11);
    assert(format_parts(f10) == seq![directive(f10[1])] + format_parts(f11));
    assert(f11.skip(1) =~= f12);
    lemma_format_parts_lit(f11);
    assert(f12.skip(2) =~= f13);
    assert(format_parts(f12) == seq![directive(f12[1])] + format_parts(f13));
    assert(format_parts(f13) =~= Seq::<FmtPart>::empty());
    assert(format_parts(f0) =~= cfg_layout());
}

} // verus!

verus! {

/// Where the fields stand in the CFG layout of a timestamp.
#[verifier::spinoff_prover]
proof fn lemma_cfg_text_shape(t: Timestamp)
    requires
        valid(t),
        t.year <= 9999,
    ensures
        ({
            let x = cfg_text(t);
            &&& x.len() == 26
            &&& x[2] == '/' && x[5] == '/' && x[10] == ',' && x[13] == ':' && x[16] == ':' && x[19]
                == '.'
            &&& forall|k: int|
                0 <= k < 26 && k != 2 && k != 5 && k != 10 && k != 13 && k != 16 && k != 19
                    ==> is_digit(#[trigger] x[k])
            &&& x.subrange(0, 2) == dec_padded(t.month as nat, 2)
            &&& x.subrange(3, 5) == dec_padded(t.day as nat, 2)
            &&& x.subrange(6, 10) == dec_padded(t.year as nat, 4)
            &&& x.subrange(11, 13) == dec_padded(t.hour as nat, 2)
            &&& x.subrange(14, 16) == dec_padded(t.minute as nat, 2)
            &&& x.subrange(17, 19) == dec_padded(t.second as nat, 2)
            &&& x.subrange(20, 26) == dec_padded(t.micro as nat, 6)
        }),
{
    let mo = dec_padded(t.month as nat, 2);
    let d = dec_padded(t.day as nat, 2);
    let y = dec_padded(t.year as nat, 4);
    let h = dec_padded(t.hour as nat, 2);
    let mi = dec_padded(t.minute as nat, 2);
    let s = dec_padded(t.second as nat, 2);
    let f = dec_padded(t.micro as nat, 6);
    crate::text::lemma_dec_padded(t.month as nat, 2);
    crate::text::lemma_dec_padded(t.day as nat, 2);
    crate::text::lemma_dec_padded(t.year as nat, 4);
    crate::text::lemma_dec_padded(t.hour as nat, 2);
    crate::text::lemma_dec_padded(t.minute as nat, 2);
    crate::text::lemma_dec_padded(t.second as nat, 2);
    crate::text::lemma_dec_padded(t.micro as nat, 6);
    assert(t.day <= 31) by {
        assert(month_days(t.year as int, t.month as int) <= 31);
    }
    let x = cfg_text(t);
    assert(x.len() == 26);
    assert(x.subrange(0, 2) =~= mo);
    assert(x.subrange(3, 5) =~= d);
    assert(x.subrange(6, 10) =~= y);
    assert(x.subrange(11, 13) =~= h);
    assert(x.subrange(14, 16) =~= mi);
    assert(x.subrange(17, 19) =~= s);
    assert(x.subrange(20, 26) =~= f);
    assert forall|k: int|
        0 <= k < 26 && k != 2 && k != 5 && k != 10 && k != 13 && k != 16 && k != 19 implies is_digit(
        #[trigger] x[k],
    ) by {
        if k < 2 {
            assert(x[k] == mo[k]);
        } else if k < 5 {
            assert(x[k] == d[k - 3]);
        } else if k < 10 {
            assert(x[k] == y[k - 6]);
        } else if k < 13 {
            assert(x[k] == h[k - 11]);
        } else if k < 16 {
            assert(x[k] == mi[k - 14]);
        } else if k < 19 {
            assert(x[k] == s[k - 17]);
        } else {
            assert(x[k] == f[k - 20]);
        }
    }
}

/// Text without spaces comes through `collapse_colons` unchanged.
#[verifier::spinoff_prover]
proof fn lemma_collapse_no_space(s: Seq<char>)
    requires
        !s.contains(' '),
    ensures
        collapse_state(s) == (s, s.len() > 0 && s.last() == ':'),
    decreases s.len(),
{
    if s.len() > 0 {
        let dl = s.drop_last();
        assert(!dl.contains(' ')) by {
            if dl.contains(' ') {
                let i = choose|i: int| 0 <= i < dl.len() && dl[i] == ' ';
                assert(s[i] == ' ');
            }
        }
        lemma_collapse_no_space(dl);
        assert(s.last() != ' ') by {
            assert(s[s.len() - 1] == s.last());
        }
        if dl.len() > 0 {
            assert(dl.last() != ' ') by {
                assert(dl[dl.len() - 1] == s[s.len() - 2]);
            }
        }
        assert(strip_trailing_spaces(dl) == dl);
        assert(dl.push(s.last()) =~= s);
    }
}

/// Reading back the CFG layout of a timestamp gives the timestamp, unless its year has
/// more than four digits.
#[verifier::spinoff_prover]
pub proof fn lemma_cfg_round_trip(t: Timestamp)
    requires
        valid(t),
        t.year <= 9999,
    ensures
        try_formats(prepared_time_text(cfg_text(t)), 0) == Some(t),
{
    let x = cfg_text(t);
    lemma_cfg_text_shape(t);
    // No white space or spaces at all: trimming and collapsing change nothing.
    assert(!x.contains(' ')) by {
        if x.contains(' ') {
            let k = choose|k: int| 0 <= k < x.len() && x[k] == ' ';
            if k != 2 && k != 5 && k != 10 && k != 13 && k != 16 && k != 19 {
                assert(is_digit(x[k]));
            }
        }
    }
    assert(is_digit(x[0]) && is_digit(x[25]));
    crate::text::lemma_trim_noop(x);
    lemma_collapse_no_space(x);
    // The fraction already has six digits.
    lemma_last_index_of(x, '.');
    assert(last_index_of(x, '.') == Some(19int)) by {
        match last_index_of(x, '.') {
            Some(i) => {
                if i < 19 {
                    assert(x[19] == '.');
                }
                if i > 19 && i != 2 && i != 5 && i != 10 && i != 13 && i != 16 {
                    assert(is_digit(x[i]));
                }
            },
            None => {
                assert(x[19] == '.');
            },
        }
    }
    let after = x.skip(20);
    assert(after.len() == 6);
    assert forall|k: int| 0 <= k < 6 implies is_digit(#[trigger] after[k]) by {
        assert(after[k] == x[k + 20]);
    }
    lemma_digit_prefix_run(after);
    assert(x.take(19) + seq!['.'] + after.take(6) =~= x);
    assert(normalize_micro(x) == x);
    // No 29 February to move.
    lemma_fix_feb29_noop(t);
    assert(prepared_time_text(x) == x);
    // The first layout matches.
    lemma_cfg_layout();
    lemma_match_cfg_layout(t);
    assert(parse_fields(x, format_parts(time_format_text(0))) == Some(t));
}

#[verifier::spinoff_prover]
proof fn lemma_digit_prefix_run(s: Seq<char>)
    requires
        all_digits(s),
    ensures
        digit_prefix_len(s) == s.len(),
    decreases s.len(),
{
    if s.len() > 0 {
        assert(is_digit(s[0]));
        assert forall|k: int| 0 <= k < s.drop_first().len() implies is_digit(
            #[trigger] s.drop_first()[k],
        ) by {
            assert(s.drop_first()[k] == s[k + 1]);
        }
        lemma_digit_prefix_run(s.drop_first());
    }
}

#[verifier::spinoff_prover]
proof fn lemma_digit_prefix_run4(s: Seq<char>)
    requires
        s.len() >= 5,
        is_digit(s[0]) && is_digit(s[1]) && is_digit(s[2]) && is_digit(s[3]),
        !is_digit(s[4]),
    ensures
        digit_prefix_len(s) == 4,
{
    let s1 = s.drop_first();
    let s2 = s1.drop_first();
    let s3 = s2.drop_first();
    let s4 = s3.drop_first();
    assert(s4[0] == s[4]);
    assert(digit_prefix_len(s4) == 0);
    assert(s3[0] == s[3]);
    assert(digit_prefix_len(s3) == 1);
    assert(s2[0] == s[2]);
    assert(digit_prefix_len(s2) == 2);
    assert(s1[0] == s[1]);
    assert(digit_prefix_len(s1) == 3);
}

proof fn lemma_fix_feb29_noop(t: Timestamp)
    requires
        valid(t),
        t.year <= 9999,
    ensures
        fix_feb29_text(cfg_text(t)) == cfg_text(t),
{
    let x = cfg_text(t);
    lemma_cfg_text_shape(t);
    let p = seq!['/', '2', '9', '/'];
    if t.month == 2 && t.day == 29 {
        // A valid 29 February lies in a leap year, written right after the `/29/`.
        assert(month_days(t.year as int, 2) == 29);
        assert(leap(t.year as int));
        let y = x.subrange(6, 10);
        crate::text::lemma_dec_padded(t.year as nat, 4);
        lemma_two_digits(t.day as nat, x.subrange(3, 5));
        assert(x.subrange(3, 5)[0] == x[3] && x.subrange(3, 5)[1] == x[4]);
        assert(x.subrange(2, 6) =~= seq!['/', '2', '9', '/']);
        let rest = x.skip(6);
        crate::text::lemma_digit_prefix_len(rest);
        assert(rest[4] == ',');
        assert(forall|k: int| 0 <= k < 4 ==> is_digit(#[trigger] rest[k]) && rest[k] == x[6 + k]);
        lemma_digit_prefix_run4(rest);
        assert(rest.take(4) =~= y);
        assert(y.len() > 0 && y[0] != '+');
        assert(leap_29_at(x, 2));
    } else if t.day != 29 {
        assert(!contains(x, p)) by {
            if contains(x, p) {
                let i = choose|i: int| occurs_at(x, p, i);
                assert(x.subrange(i, i + 4) == p);
                assert(x[i] == '/' && x[i + 3] == '/' && x[i + 1] == '2' && x[i + 2] == '9');
                if i != 2 && i != 5 && i != 10 && i != 13 && i != 16 && i != 19 {
                    assert(is_digit(x[i]));
                }
                if i == 2 {
                    lemma_two_digits(t.day as nat, x.subrange(3, 5));
                    assert(x.subrange(3, 5)[0] == x[3] && x.subrange(3, 5)[1] == x[4]);
                } else {
                    let j = i + 3;
                    if j != 2 && j != 5 && j != 10 && j != 13 && j != 16 && j != 19 {
                        assert(is_digit(x[j]));
                    }
                }
            }
        }
        crate::text::lemma_replace_absent(x, p, seq!['/', '2', '8', '/']);
    } else {
        // The day is 29 but the month is not February: neither `02/` nor `/02/` occurs.
        let q = seq!['0', '2', '/'];
        let r = seq!['/', '0', '2', '/'];
        lemma_two_digits(t.month as nat, x.subrange(0, 2));
        lemma_two_digits(t.day as nat, x.subrange(3, 5));
        assert(x.subrange(0, 2)[0] == x[0] && x.subrange(0, 2)[1] == x[1]);
        assert(x.subrange(3, 5)[0] == x[3] && x.subrange(3, 5)[1] == x[4]);
        assert(!contains(x, q)) by {
            if contains(x, q) {
                let i = choose|i: int| occurs_at(x, q, i);
                assert(x.subrange(i, i + 3) == q);
                assert(x[i] == '0' && x[i + 1] == '2' && x[i + 2] == '/');
                let j = i + 2;
                if j != 2 && j != 5 && j != 10 && j != 13 && j != 16 && j != 19 {
                    assert(is_digit(x[j]));
                }
            }
        }
        assert(!contains(x, r)) by {
            if contains(x, r) {
                let i = choose|i: int| occurs_at(x, r, i);
                assert(x.subrange(i, i + 4) == r);
                assert(x[i] == '/' && x[i + 1] == '0' && x[i + 2] == '2' && x[i + 3] == '/');
                if i != 2 && i != 5 && i != 10 && i != 13 && i != 16 && i != 19 {
                    assert(is_digit(x[i]));
                }
                let j = i + 3;
                if j != 2 && j != 5 && j != 10 && j != 13 && j != 16 && j != 19 {
                    assert(is_digit(x[j]));
                }
            }
        }
    }
}

/// The two digits of a number below 100 written with two digits.
#[verifier::spinoff_prover]
proof fn lemma_two_digits(v: nat, s: Seq<char>)
    requires
        v < 100,
        s == dec_padded(v, 2),
    ensures
        s.len() == 2,
        digit_val(s[0]) == v / 10,
        digit_val(s[1]) == v % 10,
{
    crate::text::lemma_dec_padded(v, 2);
    assert(s.drop_last().drop_last() =~= Seq::<char>::empty());
    assert(digits_value(s) == digits_value(s.drop_last()) * 10 + digit_val(s[1]));
    assert(digits_value(s.drop_last()) == digit_val(s[0]));
    assert(is_digit(s[0]) && is_digit(s[1]));
}

} // verus!

verus! {

/// The CFG layout of a valid timestamp reads back as its fields.
#[verifier::spinoff_prover]
#[verifier::rlimit(40)]
proof fn lemma_match_cfg_layout(t: Timestamp)
    requires
        valid(t),
        t.year <= 9999,
    ensures
        match_parts(cfg_text(t), 0, cfg_layout(), zero_fields()) == Some(t),
        parse_fields(cfg_text(t), cfg_layout()) == Some(t),
{
    let x = cfg_text(t);
    lemma_cfg_text_shape(t);
    let l = cfg_layout();
    crate::text::lemma_dec_padded(t.month as nat, 2);
    crate::text::lemma_dec_padded(t.day as nat, 2);
    crate::text::lemma_dec_padded(t.year as nat, 4);
    crate::text::lemma_dec_padded(t.hour as nat, 2);
    crate::text::lemma_dec_padded(t.minute as nat, 2);
    crate::text::lemma_dec_padded(t.second as nat, 2);
    crate::text::lemma_dec_padded(t.micro as nat, 6);
    let a0 = zero_fields();
    let a1 = Timestamp { month: t.month, ..a0 };
    let a2 = Timestamp { day: t.day, ..a1 };
    let a3 = Timestamp { year: t.year, ..a2 };
    let a4 = Timestamp { hour: t.hour, ..a3 };
    let a5 = Timestamp { minute: t.minute, ..a4 };
    let a6 = Timestamp { second: t.second, ..a5 };
    let a7 = Timestamp { micro: t.micro, ..a6 };
    assert(a7 == t);
    assert(l.skip(0)[0] == l[0]);
    assert(l.skip(0).drop_first() =~= l.skip(1));
    assert(read_num(x, 0, 2) == Some(t.month as nat));
    assert(set_field(a0, FmtPart::M, t.month as nat) == a1);
    assert(match_parts(x, 0, l.skip(0), a0) == match_parts(x, 2, l.skip(1), a1));
    assert(l.skip(1)[0] == l[1]);
    assert(l.skip(1).drop_first() =~= l.skip(2));
    assert(match_parts(x, 2, l.skip(1), a1) == match_parts(x, 3, l.skip(2), a1));
    assert(l.skip(2)[0] == l[2]);
    assert(l.skip(2).drop_first() =~= l.skip(3));
    assert(read_num(x, 3, 2) == Some(t.day as nat));
    assert(set_field(a1, FmtPart::D, t.day as nat) == a2);
    assert(match_parts(x, 3, l.skip(2), a1) == match_parts(x, 5, l.skip(3), a2));
    assert(l.skip(3)[0] == l[3]);
    assert(l.skip(3).drop_first() =~= l.skip(4));
    assert(match_parts(x, 5, l.skip(3), a2) == match_parts(x, 6, l.skip(4), a2));
    assert(l.skip(4)[0] == l[4]);
    assert(l.skip(4).drop_first() =~= l.skip(5));
    assert(read_num(x, 6, 4) == Some(t.year as nat));
    assert(set_field(a2, FmtPart::Y, t.year as nat) == a3);
    assert(match_parts(x, 6, l.skip(4), a2) == match_parts(x, 10, l.skip(5), a3));
    assert(l.skip(5)[0] == l[5]);
    assert(l.skip(5).drop_first() =~= l.skip(6));
    assert(match_parts(x, 10, l.skip(5), a3) == match_parts(x, 11, l.skip(6), a3));
    assert(l.skip(6)[0] == l[6]);
    assert(l.skip(6).drop_first() =~= l.skip(7));
    assert(read_num(x, 11, 2) == Some(t.hour as nat));
    assert(set_field(a3, FmtPart::H, t.hour as nat) == a4);
    assert(match_parts(x, 11, l.skip(6), a3) == match_parts(x, 13, l.skip(7), a4));
    assert(l.skip(7)[0] == l[7]);
    assert(l.skip(7).drop_first() =~= l.skip(8));
    assert(match_parts(x, 13, l.skip(7), a4) == match_parts(x, 14, l.skip(8), a4));
    assert(l.skip(8)[0] == l[8]);
    assert(l.skip(8).drop_first() =~= l.skip(9));
    assert(read_num(x, 14, 2) == Some(t.minute as nat));
    assert(set_field(a4, FmtPart::Min, t.minute as nat) == a5);
    assert(match_parts(x, 14, l.skip(8), a4) == match_parts(x, 16, l.skip(9), a5));
    assert(l.skip(9)[0] == l[9]);
    assert(l.skip(9).drop_first() =~= l.skip(10));
    assert(match_parts(x, 16, l.skip(9), a5) == match_parts(x, 17, l.skip(10), a5));
    assert(l.skip(10)[0] == l[10]);
    assert(l.skip(10).drop_first() =~= l.skip(11));
    assert(read_num(x, 17, 2) == Some(t.second as nat));
    assert(set_field(a5, FmtPart::S, t.second as nat) == a6);
    assert(match_parts(x, 17, l.skip(10), a5) == match_parts(x, 19, l.skip(11), a6));
    assert(l.skip(11)[0] == l[11]);
    assert(l.skip(11).drop_first() =~= l.skip(12));
    assert(match_parts(x, 19, l.skip(11), a6) == match_parts(x, 20, l.skip(12), a6));
    assert(l.skip(12)[0] == l[12]);
    assert(l.skip(12).drop_first() =~= l.skip(13));
    assert(read_num(x, 20, 6) == Some(t.micro as nat));
    assert(set_field(a6, FmtPart::F, t.micro as nat) == a7);
    assert(match_parts(x, 20, l.skip(12), a6) == match_parts(x, 26, l.skip(13), a7));
    assert(l.skip(13) =~= Seq::<FmtPart>::empty());
    assert(match_parts(x, 26, l.skip(13), a7) == Some(a7));
    assert(l.skip(0) =~= l);
    assert(t.day <= 31) by {
        assert(month_days(t.year as int, t.month as int) <= 31);
    }
    assert(timestamp_new(t.year, t.month, t.day, t.hour, t.minute, t.second, t.micro) == Ok::<
        Timestamp,
        Error,
    >(t));
}

} // verus!

verus! {

/// The ISO layout `YYYY-MM-DD HH:MM:SS` of `t`, without fraction.
pub open spec fn iso_text(t: Timestamp) -> Seq<char> {
    dec_padded(t.year as nat, 4) + seq!['-'] + dec_padded(t.month as nat, 2) + seq!['-']
        + dec_padded(t.day as nat, 2) + seq![' '] + dec_padded(t.hour as nat, 2) + seq![':']
        + dec_padded(t.minute as nat, 2) + seq![':'] + dec_padded(t.second as nat, 2)
}

proof fn lemma_iso_text_shape(t: Timestamp)
    requires
        valid(t),
        t.year <= 9999,
    ensures
        ({
            let x = iso_text(t);
            &&& x.len() == 19
            &&& x[4] == '-' && x[7] == '-' && x[10] == ' ' && x[13] == ':' && x[16] == ':'
            &&& forall|k: int|
                0 <= k < 19 && k != 4 && k != 7 && k != 10 && k != 13 && k != 16 ==> is_digit(
                    #[trigger] x[k],
                )
            &&& x.subrange(0, 4) == dec_padded(t.year as nat, 4)
            &&& x.subrange(5, 7) == dec_padded(t.month as nat, 2)
            &&& x.subrange(8, 10) == dec_padded(t.day as nat, 2)
            &&& x.subrange(11, 13) == dec_padded(t.hour as nat, 2)
            &&& x.subrange(14, 16) == dec_padded(t.minute as nat, 2)
            &&& x.subrange(17, 19) == dec_padded(t.second as nat, 2)
        }),
{
    let y = dec_padded(t.year as nat, 4);
    let mo = dec_padded(t.month as nat, 2);
    let d = dec_padded(t.day as nat, 2);
    let h = dec_padded(t.hour as nat, 2);
    let mi = dec_padded(t.minute as nat, 2);
    let s = dec_padded(t.second as nat, 2);
    crate::text::lemma_dec_padded(t.year as nat, 4);
    crate::text::lemma_dec_padded(t.month as nat, 2);
    crate::text::lemma_dec_padded(t.day as nat, 2);
    crate::text::lemma_dec_padded(t.hour as nat, 2);
    crate::text::lemma_dec_padded(t.minute as nat, 2);
    crate::text::lemma_dec_padded(t.second as nat, 2);
    assert(t.day <= 31) by {
        assert(month_days(t.year as int, t.month as int) <= 31);
    }
    let x = iso_text(t);
    assert(x.len() == 19);
    assert(x.subrange(0, 4) =~= y);
    assert(x.subrange(5, 7) =~= mo);
    assert(x.subrange(8, 10) =~= d);
    assert(x.subrange(11, 13) =~= h);
    assert(x.subrange(14, 16) =~= mi);
    assert(x.subrange(17, 19) =~= s);
    assert forall|k: int|
        0 <= k < 19 && k != 4 && k != 7 && k != 10 && k != 13 && k != 16 implies is_digit(
        #[trigger] x[k],
    ) by {
        if k < 4 {
            assert(x[k] == y[k]);
        } else if k < 7 {
            assert(x[k] == mo[k - 5]);
        } else if k < 10 {
            assert(x[k] == d[k - 8]);
        } else if k < 13 {
            assert(x[k] == h[k - 11]);
        } else if k < 16 {
            assert(x[k] == mi[k - 14]);
        } else {
            assert(x[k] == s[k - 17]);
        }
    }
}

/// Text whose spaces follow neither a colon nor a space, and whose colons follow no
/// space, is left as it is by collapsing the spaces around colons.
proof fn lemma_collapse_plain(s: Seq<char>)
    requires
        forall|i: int| 0 <= i < s.len() && #[trigger] s[i] == ' ' ==> i > 0 && s[i - 1] != ':' && s[i - 1] != ' ',
        forall|i: int| 0 < i < s.len() && #[trigger] s[i] == ':' ==> s[i - 1] != ' ',
    ensures
        collapse_state(s) == (s, s.len() > 0 && s.last() == ':'),
    decreases s.len(),
{
    if s.len() > 0 {
        let dl = s.drop_last();
        let k = s.len() - 1;
        assert forall|i: int| 0 <= i < dl.len() && #[trigger] dl[i] == ' ' implies i > 0 && dl[i - 1]
            != ':' && dl[i - 1] != ' ' by {
            assert(s[i] == ' ');
            assert(dl[i - 1] == s[i - 1]);
        }
        assert forall|i: int| 0 < i < dl.len() && #[trigger] dl[i] == ':' implies dl[i - 1] != ' ' by {
            assert(s[i] == ':');
            assert(dl[i - 1] == s[i - 1]);
        }
        lemma_collapse_plain(dl);
        let c = s.last();
        assert(c == s[k]);
        if dl.len() > 0 {
            assert(dl.last() == s[k - 1]);
        }
        if c == ':' {
            if dl.len() > 0 {
                assert(s[k - 1] != ' ');
            }
            assert(strip_trailing_spaces(dl) == dl);
        } else if c == ' ' {
            assert(k > 0 && s[k - 1] != ':');
        }
        assert(dl.push(c) =~= s);
    }
}

/// The layout `YYYY-MM-DD HH:MM:SS` as elements.
spec fn iso_layout() -> Seq<FmtPart> {
    seq![
        FmtPart::Y,
        lit('-'),
        FmtPart::M,
        lit('-'),
        FmtPart::D,
        lit(' '),
        FmtPart::H,
        lit(':'),
        FmtPart::Min,
        lit(':'),
        FmtPart::S,
    ]
}

#[verifier::spinoff_prover]
proof fn lemma_iso_layout()
    ensures
        format_parts(time_format_text(5)) == iso_layout(),
{
    let f0 = seq!['%', 'Y', '-', '%', 'm', '-', '%', 'd', ' ', '%', 'H', ':', '%', 'M', ':', '%', 'S'];
    let f1 = seq!['-', '%', 'm', '-', '%', 'd', ' ', '%', 'H', ':', '%', 'M', ':', '%', 'S'];
    let f2 = seq!['%', 'm', '-', '%', 'd', ' ', '%', 'H', ':', '%', 'M', ':', '%', 'S'];
    let f3 = seq!['-', '%', 'd', ' ', '%', 'H', ':', '%', 'M', ':', '%', 'S'];
    let f4 = seq!['%', 'd', ' ', '%', 'H', ':', '%', 'M', ':', '%', 'S'];
    let f5 = seq![' ', '%', 'H', ':', '%', 'M', ':', '%', 'S'];
    let f6 = seq!['%', 'H', ':', '%', 'M', ':', '%', 'S'];
    let f7 = seq![':', '%', 'M', ':', '%', 'S'];
    let f8 = seq!['%', 'M', ':', '%', 'S'];
    let f9 = seq![':', '%', 'S'];
    let f10 = seq!['%', 'S'];
    let f11 = Seq::<char>::empty();
    assert(time_format_text(5) == f0);
    assert(f0.skip(2) =~= f1);
    assert(format_parts(f0) == seq![directive(f0[1])] + format_parts(f1));
    assert(f1.skip(1) =~= f2);
    lemma_format_parts_lit(f1);
    assert(f2.skip(2) =~= f3);
    assert(format_parts(f2) == seq![directive(f2[1])] + format_parts(f3));
    assert(f3.skip(1) =~= f4);
    lemma_format_parts_lit(f3);
    assert(f4.skip(2) =~= f5);
    assert(format_parts(f4) == seq![directive(f4[1])] + format_parts(f5));
    assert(f5.skip(1) =~= f6);
    lemma_format_parts_lit(f5);
    assert(f6.skip(2) =~= f7);
    assert(format_parts(f6) == seq![directive(f6[1])] + format_parts(f7));
    assert(f7.skip(1) =~= f8);
    lemma_format_parts_lit(f7);
    assert(f8.skip(2) =~= f9);
    assert(format_parts(f8) == seq![directive(f8[1])] + format_parts(f9));
    assert(f9.skip(1) =~= f10);
    lemma_format_parts_lit(f9);
    assert(f10.skip(2) =~= f11);
    assert(format_parts(f10) == seq![directive(f10[1])] + format_parts(f11));
    assert(format_parts(f11) =~= Seq::<FmtPart>::empty());
    assert(format_parts(f0) =~= iso_layout());
}

/// A layout that starts with a two-digit month or day followed by `/` does not match a
/// text whose third character is not `/`.
proof fn lemma_slash_layout_fails(x: Seq<char>, i: int)
    requires
        0 <= i <= 4,
        x.len() >= 3,
        x[2] != '/',
    ensures
        parse_fields(x, format_parts(time_format_text(i))) is None,
{
    let f = time_format_text(i);
    assert(f[0] == '%' && (f[1] == 'm' || f[1] == 'd') && f[2] == '/' && f.len() >= 3);
    let g = f.skip(2);
    assert(g[0] == '/' && g.len() > 0);
    lemma_format_parts_lit(g);
    let p = format_parts(f);
    assert(p == seq![directive(f[1])] + format_parts(g));
    assert(format_parts(g) == seq![lit('/')] + format_parts(g.skip(1)));
    assert(p[0] == directive(f[1]));
    assert(p.drop_first()[0] == lit('/'));
    assert(part_width(p[0]) == 2);
    match read_num(x, 0, 2) {
        Some(v) => {
            let a = set_field(zero_fields(), p[0], v);
            assert(match_parts(x, 0, p, zero_fields()) == match_parts(x, 2, p.drop_first(), a));
            assert(match_parts(x, 2, p.drop_first(), a) is None);
        },
        None => {},
    }
}

#[verifier::spinoff_prover]
#[verifier::rlimit(40)]
proof fn lemma_match_iso_layout(t: Timestamp)
    requires
        valid(t),
        t.year <= 9999,
    ensures
        parse_fields(iso_text(t), iso_layout()) == Some(Timestamp { micro: 0, ..t }),
{
    let x = iso_text(t);
    lemma_iso_text_shape(t);
    let l = iso_layout();
    crate::text::lemma_dec_padded(t.month as nat, 2);
    crate::text::lemma_dec_padded(t.day as nat, 2);
    crate::text::lemma_dec_padded(t.year as nat, 4);
    crate::text::lemma_dec_padded(t.hour as nat, 2);
    crate::text::lemma_dec_padded(t.minute as nat, 2);
    crate::text::lemma_dec_padded(t.second as nat, 2);
    let a0 = zero_fields();
    let a1 = Timestamp { year: t.year, ..a0 };
    let a2 = Timestamp { month: t.month, ..a1 };
    let a3 = Timestamp { day: t.day, ..a2 };
    let a4 = Timestamp { hour: t.hour, ..a3 };
    let a5 = Timestamp { minute: t.minute, ..a4 };
    let a6 = Timestamp { second: t.second, ..a5 };
    assert(a6 == Timestamp { micro: 0, ..t });
    assert(l.skip(0)[0] == l[0]);
    assert(l.skip(0).drop_first() =~= l.skip(1));
    assert(read_num(x, 0, 4) == Some(t.year as nat));
    assert(set_field(a0, FmtPart::Y, t.year as nat) == a1);
    assert(match_parts(x, 0, l.skip(0), a0) == match_parts(x, 4, l.skip(1), a1));
    assert(l.skip(1)[0] == l[1]);
    assert(l.skip(1).drop_first() =~= l.skip(2));
    assert(match_parts(x, 4, l.skip(1), a1) == match_parts(x, 5, l.skip(2), a1));
    assert(l.skip(2)[0] == l[2]);
    assert(l.skip(2).drop_first() =~= l.skip(3));
    assert(read_num(x, 5, 2) == Some(t.month as nat));
    assert(set_field(a1, FmtPart::M, t.month as nat) == a2);
    assert(match_parts(x, 5, l.skip(2), a1) == match_parts(x, 7, l.skip(3), a2));
    assert(l.skip(3)[0] == l[3]);
    assert(l.skip(3).drop_first() =~= l.skip(4));
    assert(match_parts(x, 7, l.skip(3), a2) == match_parts(x, 8, l.skip(4), a2));
    assert(l.skip(4)[0] == l[4]);
    assert(l.skip(4).drop_first() =~= l.skip(5));
    assert(read_num(x, 8, 2) == Some(t.day as nat));
    assert(set_field(a2, FmtPart::D, t.day as nat) == a3);
    assert(match_parts(x, 8, l.skip(4), a2) == match_parts(x, 10, l.skip(5), a3));
    assert(l.skip(5)[0] == l[5]);
    assert(l.skip(5).drop_first() =~= l.skip(6));
    assert(match_parts(x, 10, l.skip(5), a3) == match_parts(x, 11, l.skip(6), a3));
    assert(l.skip(6)[0] == l[6]);
    assert(l.skip(6).drop_first() =~= l.skip(7));
    assert(read_num(x, 11, 2) == Some(t.hour as nat));
    assert(set_field(a3, FmtPart::H, t.hour as nat) == a4);
    assert(match_parts(x, 11, l.skip(6), a3) == match_parts(x, 13, l.skip(7), a4));
    assert(l.skip(7)[0] == l[7]);
    assert(l.skip(7).drop_first() =~= l.skip(8));
    assert(match_parts(x, 13, l.skip(7), a4) == match_parts(x, 14, l.skip(8), a4));
    assert(l.skip(8)[0] == l[8]);
    assert(l.skip(8).drop_first() =~= l.skip(9));
    assert(read_num(x, 14, 2) == Some(t.minute as nat));
    assert(set_field(a4, FmtPart::Min, t.minute as nat) == a5);
    assert(match_parts(x, 14, l.skip(8), a4) == match_parts(x, 16, l.skip(9), a5));
    assert(l.skip(9)[0] == l[9]);
    assert(l.skip(9).drop_first() =~= l.skip(10));
    assert(match_parts(x, 16, l.skip(9), a5) == match_parts(x, 17, l.skip(10), a5));
    assert(l.skip(10)[0] == l[10]);
    assert(l.skip(10).drop_first() =~= l.skip(11));
    assert(read_num(x, 17, 2) == Some(t.second as nat));
    assert(set_field(a5, FmtPart::S, t.second as nat) == a6);
    assert(match_parts(x, 17, l.skip(10), a5) == match_parts(x, 19, l.skip(11), a6));
    assert(l.skip(11) =~= Seq::<FmtPart>::empty());
    assert(match_parts(x, 19, l.skip(11), a6) == Some(a6));
    assert(l.skip(0) =~= l);
    assert(t.day <= 31) by {
        assert(month_days(t.year as int, t.month as int) <= 31);
    }
    assert(timestamp_new(t.year, t.month, t.day, t.hour, t.minute, t.second, 0) == Ok::<
        Timestamp,
        Error,
    >(a6));
}

/// Parsing the ISO text `YYYY-MM-DD HH:MM:SS` of a valid timestamp whose year has at most
/// four digits gives that timestamp with no microseconds: the field after the first `-`
/// is the month, the one after the second `-` the day.
#[verifier::spinoff_prover]
pub proof fn lemma_iso_round_trip(t: Timestamp)
    requires
        valid(t),
        t.year <= 9999,
    ensures
        try_formats(prepared_time_text(iso_text(t)), 0) == Some(Timestamp { micro: 0, ..t }),
        parse_outcome(iso_text(t), Ok(Timestamp { micro: 0, ..t })),
{
    let x = iso_text(t);
    lemma_iso_text_shape(t);
    // Trimming, collapsing, the fraction and the 29 February fix leave the text alone.
    crate::text::lemma_trim_noop(x);
    assert forall|i: int| 0 <= i < x.len() && #[trigger] x[i] == ' ' implies i > 0 && x[i - 1]
        != ':' && x[i - 1] != ' ' by {
        if i != 4 && i != 7 && i != 10 && i != 13 && i != 16 {
            assert(is_digit(x[i]));
        }
        assert(is_digit(x[9]));
    }
    assert forall|i: int| 0 < i < x.len() && #[trigger] x[i] == ':' implies x[i - 1] != ' ' by {
        if i != 4 && i != 7 && i != 10 && i != 13 && i != 16 {
            assert(is_digit(x[i]));
        }
        assert(is_digit(x[12]) && is_digit(x[15]));
    }
    lemma_collapse_plain(x);
    assert(collapse_colons(x) == x);
    lemma_last_index_of(x, '.');
    assert(last_index_of(x, '.') is None) by {
        if let Some(i) = last_index_of(x, '.') {
            if i != 4 && i != 7 && i != 10 && i != 13 && i != 16 {
                assert(is_digit(x[i]));
            }
        }
    }
    assert(normalize_micro(x) == x);
    assert(!contains(x, seq!['0', '2', '/'])) by {
        if contains(x, seq!['0', '2', '/']) {
            let i = choose|i: int| occurs_at(x, seq!['0', '2', '/'], i);
            assert(x.subrange(i, i + 3)[2] == x[i + 2]);
            let j = i + 2;
            if j != 4 && j != 7 && j != 10 && j != 13 && j != 16 {
                assert(is_digit(x[j]));
            }
        }
    }
    assert(!contains(x, seq!['/', '0', '2', '/'])) by {
        if contains(x, seq!['/', '0', '2', '/']) {
            let i = choose|i: int| occurs_at(x, seq!['/', '0', '2', '/'], i);
            assert(x.subrange(i, i + 4)[0] == x[i]);
            if i != 4 && i != 7 && i != 10 && i != 13 && i != 16 {
                assert(is_digit(x[i]));
            }
        }
    }
    assert(fix_feb29_text(x) == x);
    assert(prepared_time_text(x) == x);
    // The slash layouts fail at the third character; the ISO layout matches.
    assert(is_digit(x[2]));
    lemma_slash_layout_fails(x, 0);
    lemma_slash_layout_fails(x, 1);
    lemma_slash_layout_fails(x, 2);
    lemma_slash_layout_fails(x, 3);
    lemma_slash_layout_fails(x, 4);
    lemma_iso_layout();
    lemma_match_iso_layout(t);
    assert(try_formats(x, 5) == Some(Timestamp { micro: 0, ..t }));
    assert(try_formats(x, 4) == try_formats(x, 5));
    assert(try_formats(x, 3) == try_formats(x, 4));
    assert(try_formats(x, 2) == try_formats(x, 3));
    assert(try_formats(x, 1) == try_formats(x, 2));
    assert(try_formats(x, 0) == try_formats(x, 1));
}

} // verus!

verus! {

/// The layout `YYYY/MM/DD HH:MM:SS` of `t`, without fraction.
pub open spec fn ymd_slash_text(t: Timestamp) -> Seq<char> {
    dec_padded(t.year as nat, 4) + seq!['/'] + dec_padded(t.month as nat, 2) + seq!['/']
        + dec_padded(t.day as nat, 2) + seq![' '] + dec_padded(t.hour as nat, 2) + seq![':']
        + dec_padded(t.minute as nat, 2) + seq![':'] + dec_padded(t.second as nat, 2)
}

proof fn lemma_ymd_slash_is_iso(t: Timestamp)
    requires
        valid(t),
        t.year <= 9999,
    ensures
        ymd_slash_text(t) == iso_text(t).update(4, '/').update(7, '/'),
        iso_text(t).len() == ymd_slash_text(t).len(),
{
    lemma_iso_text_shape(t);
    crate::text::lemma_dec_padded(t.year as nat, 4);
    crate::text::lemma_dec_padded(t.month as nat, 2);
    crate::text::lemma_dec_padded(t.day as nat, 2);
    crate::text::lemma_dec_padded(t.hour as nat, 2);
    crate::text::lemma_dec_padded(t.minute as nat, 2);
    crate::text::lemma_dec_padded(t.second as nat, 2);
    assert(ymd_slash_text(t) =~= iso_text(t).update(4, '/').update(7, '/'));
}

/// A layout that starts with a four-digit year followed by `-` does not match a text
/// whose fifth character is not `-`.
proof fn lemma_dash_layout_fails(x: Seq<char>, i: int)
    requires
        5 <= i <= 8,
        x.len() >= 5,
        x[4] != '-',
    ensures
        parse_fields(x, format_parts(time_format_text(i))) is None,
{
    let f = time_format_text(i);
    assert(f[0] == '%' && f[1] == 'Y' && f[2] == '-' && f.len() >= 3);
    let g = f.skip(2);
    assert(g[0] == '-' && g.len() > 0);
    lemma_format_parts_lit(g);
    let p = format_parts(f);
    assert(p == seq![directive(f[1])] + format_parts(g));
    assert(format_parts(g) == seq![lit('-')] + format_parts(g.skip(1)));
    assert(p[0] == FmtPart::Y);
    assert(p.drop_first()[0] == lit('-'));
    match read_num(x, 0, 4) {
        Some(v) => {
            let a = set_field(zero_fields(), p[0], v);
            assert(match_parts(x, 0, p, zero_fields()) == match_parts(x, 4, p.drop_first(), a));
            assert(match_parts(x, 4, p.drop_first(), a) is None);
        },
        None => {},
    }
}

/// The layout `YYYY/MM/DD HH:MM:SS` as elements.
spec fn ymd_slash_layout() -> Seq<FmtPart> {
    seq![
        FmtPart::Y,
        lit('/'),
        FmtPart::M,
        lit('/'),
        FmtPart::D,
        lit(' '),
        FmtPart::H,
        lit(':'),
        FmtPart::Min,
        lit(':'),
        FmtPart::S,
    ]
}

#[verifier::spinoff_prover]
proof fn lemma_ymd_slash_layout()
    ensures
        format_parts(time_format_text(9)) == ymd_slash_layout(),
{
    let f0 = seq!['%', 'Y', '/', '%', 'm', '/', '%', 'd', ' ', '%', 'H', ':', '%', 'M', ':', '%', 'S'];
    let f1 = seq!['/', '%', 'm', '/', '%', 'd', ' ', '%', 'H', ':', '%', 'M', ':', '%', 'S'];
    let f2 = seq!['%', 'm', '/', '%', 'd', ' ', '%', 'H', ':', '%', 'M', ':', '%', 'S'];
    let f3 = seq!['/', '%', 'd', ' ', '%', 'H', ':', '%', 'M', ':', '%', 'S'];
    let f4 = seq!['%', 'd', ' ', '%', 'H', ':', '%', 'M', ':', '%', 'S'];
    let f5 = seq![' ', '%', 'H', ':', '%', 'M', ':', '%', 'S'];
    let f6 = seq!['%', 'H', ':', '%', 'M', ':', '%', 'S'];
    let f7 = seq![':', '%', 'M', ':', '%', 'S'];
    let f8 = seq!['%', 'M', ':', '%', 'S'];
    let f9 = seq![':', '%', 'S'];
    let f10 = seq!['%', 'S'];
    let f11 = Seq::<char>::empty();
    assert(time_format_text(9) == f0);
    assert(f0.skip(2) =~= f1);
    assert(format_parts(f0) == seq![directive(f0[1])] + format_parts(f1));
    assert(f1.skip(1) =~= f2);
    lemma_format_parts_lit(f1);
    assert(f2.skip(2) =~= f3);
    assert(format_parts(f2) == seq![directive(f2[1])] + format_parts(f3));
    assert(f3.skip(1) =~= f4);
    lemma_format_parts_lit(f3);
    assert(f4.skip(2) =~= f5);
    assert(format_parts(f4) == seq![directive(f4[1])] + format_parts(f5));
    assert(f5.skip(1) =~= f6);
    lemma_format_parts_lit(f5);
    assert(f6.skip(2) =~= f7);
    assert(format_parts(f6) == seq![directive(f6[1])] + format_parts(f7));
    assert(f7.skip(1) =~= f8);
    lemma_format_parts_lit(f7);
    assert(f8.skip(2) =~= f9);
    assert(format_parts(f8) == seq![directive(f8[1])] + format_parts(f9));
    assert(f9.skip(1) =~= f10);
    lemma_format_parts_lit(f9);
    assert(f10.skip(2) =~= f11);
    assert(format_parts(f10) == seq![directive(f10[1])] + format_parts(f11));
    assert(format_parts(f11) =~= Seq::<FmtPart>::empty());
    assert(format_parts(f0) =~= ymd_slash_layout());
}

#[verifier::spinoff_prover]
#[verifier::rlimit(40)]
proof fn lemma_match_ymd_slash_layout(t: Timestamp)
    requires
        valid(t),
        t.year <= 9999,
    ensures
        parse_fields(ymd_slash_text(t), ymd_slash_layout()) == Some(Timestamp { micro: 0, ..t }),
{
    let x = ymd_slash_text(t);
    lemma_iso_text_shape(t);
    lemma_ymd_slash_is_iso(t);
    let y = iso_text(t);
    assert(x.subrange(0, 4) =~= y.subrange(0, 4));
    assert(x.subrange(5, 7) =~= y.subrange(5, 7));
    assert(x.subrange(8, 10) =~= y.subrange(8, 10));
    assert(x.subrange(11, 13) =~= y.subrange(11, 13));
    assert(x.subrange(14, 16) =~= y.subrange(14, 16));
    assert(x.subrange(17, 19) =~= y.subrange(17, 19));
    let l = ymd_slash_layout();
    crate::text::lemma_dec_padded(t.month as nat, 2);
    crate::text::lemma_dec_padded(t.day as nat, 2);
    crate::text::lemma_dec_padded(t.year as nat, 4);
    crate::text::lemma_dec_padded(t.hour as nat, 2);
    crate::text::lemma_dec_padded(t.minute as nat, 2);
    crate::text::lemma_dec_padded(t.second as nat, 2);
    let a0 = zero_fields();
    let a1 = Timestamp { year: t.year, ..a0 };
    let a2 = Timestamp { month: t.month, ..a1 };
    let a3 = Timestamp { day: t.day, ..a2 };
    let a4 = Timestamp { hour: t.hour, ..a3 };
    let a5 = Timestamp { minute: t.minute, ..a4 };
    let a6 = Timestamp { second: t.second, ..a5 };
    assert(a6 == Timestamp { micro: 0, ..t });
    assert(l.skip(0)[0] == l[0]);
    assert(l.skip(0).drop_first() =~= l.skip(1));
    assert(read_num(x, 0, 4) == Some(t.year as nat));
    assert(set_field(a0, FmtPart::Y, t.year as nat) == a1);
    assert(match_parts(x, 0, l.skip(0), a0) == match_parts(x, 4, l.skip(1), a1));
    assert(l.skip(1)[0] == l[1]);
    assert(l.skip(1).drop_first() =~= l.skip(2));
    assert(match_parts(x, 4, l.skip(1), a1) == match_parts(x, 5, l.skip(2), a1));
    assert(l.skip(2)[0] == l[2]);
    assert(l.skip(2).drop_first() =~= l.skip(3));
    assert(read_num(x, 5, 2) == Some(t.month as nat));
    assert(set_field(a1, FmtPart::M, t.month as nat) == a2);
    assert(match_parts(x, 5, l.skip(2), a1) == match_parts(x, 7, l.skip(3), a2));
    assert(l.skip(3)[0] == l[3]);
    assert(l.skip(3).drop_first() =~= l.skip(4));
    assert(match_parts(x, 7, l.skip(3), a2) == match_parts(x, 8, l.skip(4), a2));
    assert(l.skip(4)[0] == l[4]);
    assert(l.skip(4).drop_first() =~= l.skip(5));
    assert(read_num(x, 8, 2) == Some(t.day as nat));
    assert(set_field(a2, FmtPart::D, t.day as nat) == a3);
    assert(match_parts(x, 8, l.skip(4), a2) == match_parts(x, 10, l.skip(5), a3));
    assert(l.skip(5)[0] == l[5]);
    assert(l.skip(5).drop_first() =~= l.skip(6));
    assert(match_parts(x, 10, l.skip(5), a3) == match_parts(x, 11, l.skip(6), a3));
    assert(l.skip(6)[0] == l[6]);
    assert(l.skip(6).drop_first() =~= l.skip(7));
    assert(read_num(x, 11, 2) == Some(t.hour as nat));
    assert(set_field(a3, FmtPart::H, t.hour as nat) == a4);
    assert(match_parts(x, 11, l.skip(6), a3) == match_parts(x, 13, l.skip(7), a4));
    assert(l.skip(7)[0] == l[7]);
    assert(l.skip(7).drop_first() =~= l.skip(8));
    assert(match_parts(x, 13, l.skip(7), a4) == match_parts(x, 14, l.skip(8), a4));
    assert(l.skip(8)[0] == l[8]);
    assert(l.skip(8).drop_first() =~= l.skip(9));
    assert(read_num(x, 14, 2) == Some(t.minute as nat));
    assert(set_field(a4, FmtPart::Min, t.minute as nat) == a5);
    assert(match_parts(x, 14, l.skip(8), a4) == match_parts(x, 16, l.skip(9), a5));
    assert(l.skip(9)[0] == l[9]);
    assert(l.skip(9).drop_first() =~= l.skip(10));
    assert(match_parts(x, 16, l.skip(9), a5) == match_parts(x, 17, l.skip(10), a5));
    assert(l.skip(10)[0] == l[10]);
    assert(l.skip(10).drop_first() =~= l.skip(11));
    assert(read_num(x, 17, 2) == Some(t.second as nat));
    assert(set_field(a5, FmtPart::S, t.second as nat) == a6);
    assert(match_parts(x, 17, l.skip(10), a5) == match_parts(x, 19, l.skip(11), a6));
    assert(l.skip(11) =~= Seq::<FmtPart>::empty());
    assert(match_parts(x, 19, l.skip(11), a6) == Some(a6));
    assert(l.skip(0) =~= l);
    assert(t.day <= 31) by {
        assert(month_days(t.year as int, t.month as int) <= 31);
    }
    assert(timestamp_new(t.year, t.month, t.day, t.hour, t.minute, t.second, 0) == Ok::<
        Timestamp,
        Error,
    >(a6));
}


/// Parsing the text `YYYY/MM/DD HH:MM:SS` of a valid timestamp whose year has at most
/// four digits gives that timestamp with no microseconds: the field after the first `/`
/// is the month, the one after the second `/` the day.
#[verifier::spinoff_prover]
#[verifier::rlimit(40)]
pub proof fn lemma_ymd_slash_round_trip(t: Timestamp)
    requires
        valid(t),
        t.year <= 9999,
    ensures
        try_formats(prepared_time_text(ymd_slash_text(t)), 0) == Some(Timestamp { micro: 0, ..t }),
        parse_outcome(ymd_slash_text(t), Ok(Timestamp { micro: 0, ..t })),
{
    let x = ymd_slash_text(t);
    lemma_iso_text_shape(t);
    lemma_ymd_slash_is_iso(t);
    let y = iso_text(t);
    assert(x.len() == 19 && x[4] == '/' && x[7] == '/' && x[10] == ' ' && x[13] == ':' && x[16] == ':');
    assert forall|k: int|
        0 <= k < 19 && k != 4 && k != 7 && k != 10 && k != 13 && k != 16 implies is_digit(
        #[trigger] x[k],
    ) by {
        assert(x[k] == y[k]);
    }
    crate::text::lemma_trim_noop(x);
    assert forall|i: int| 0 <= i < x.len() && #[trigger] x[i] == ' ' implies i > 0 && x[i - 1]
        != ':' && x[i - 1] != ' ' by {
        if i != 4 && i != 7 && i != 10 && i != 13 && i != 16 {
            assert(is_digit(x[i]));
        }
        assert(is_digit(x[9]));
    }
    assert forall|i: int| 0 < i < x.len() && #[trigger] x[i] == ':' implies x[i - 1] != ' ' by {
        if i != 4 && i != 7 && i != 10 && i != 13 && i != 16 {
            assert(is_digit(x[i]));
        }
        assert(is_digit(x[12]) && is_digit(x[15]));
    }
    lemma_collapse_plain(x);
    assert(collapse_colons(x) == x);
    lemma_last_index_of(x, '.');
    assert(last_index_of(x, '.') is None) by {
        if let Some(i) = last_index_of(x, '.') {
            if i != 4 && i != 7 && i != 10 && i != 13 && i != 16 {
                assert(is_digit(x[i]));
            }
        }
    }
    assert(normalize_micro(x) == x);
    // A `/29/` would put 29 in the month.
    assert(!contains(x, seq!['/', '2', '9', '/'])) by {
        if contains(x, seq!['/', '2', '9', '/']) {
            let i = choose|i: int| occurs_at(x, seq!['/', '2', '9', '/'], i);
            let w = x.subrange(i, i + 4);
            assert(w[0] == x[i] && w[1] == x[i + 1] && w[2] == x[i + 2] && w[3] == x[i + 3]);
            if i != 4 && i != 7 && i != 10 && i != 13 && i != 16 {
                assert(is_digit(x[i]));
            }
            let j = i + 3;
            if j != 4 && j != 7 && j != 10 && j != 13 && j != 16 {
                assert(is_digit(x[j]));
            }
            assert(i == 4);
            assert(x.subrange(5, 7) =~= y.subrange(5, 7));
            lemma_two_digits(t.month as nat, x.subrange(5, 7));
            assert(x.subrange(5, 7)[0] == x[5] && x.subrange(5, 7)[1] == x[6]);
        }
    }
    crate::text::lemma_replace_absent(x, seq!['/', '2', '9', '/'], seq!['/', '2', '8', '/']);
    assert(fix_feb29_text(x) == x);
    assert(prepared_time_text(x) == x);
    assert(is_digit(x[2]));
    lemma_slash_layout_fails(x, 0);
    lemma_slash_layout_fails(x, 1);
    lemma_slash_layout_fails(x, 2);
    lemma_slash_layout_fails(x, 3);
    lemma_slash_layout_fails(x, 4);
    lemma_dash_layout_fails(x, 5);
    lemma_dash_layout_fails(x, 6);
    lemma_dash_layout_fails(x, 7);
    lemma_dash_layout_fails(x, 8);
    lemma_ymd_slash_layout();
    lemma_match_ymd_slash_layout(t);
    assert(try_formats(x, 9) == Some(Timestamp { micro: 0, ..t }));
    assert(try_formats(x, 8) == try_formats(x, 9));
    assert(try_formats(x, 7) == try_formats(x, 8));
    assert(try_formats(x, 6) == try_formats(x, 7));
    assert(try_formats(x, 5) == try_formats(x, 6));
    assert(try_formats(x, 4) == try_formats(x, 5));
    assert(try_formats(x, 3) == try_formats(x, 4));
    assert(try_formats(x, 2) == try_formats(x, 3));
    assert(try_formats(x, 1) == try_formats(x, 2));
    assert(try_formats(x, 0) == try_formats(x, 1));
}

} // verus!

verus! {

/// The layout `DD/MM/YYYY HH:MM:SS` of `t`, without fraction.
pub open spec fn dmy_slash_text(t: Timestamp) -> Seq<char> {
    dec_padded(t.day as nat, 2) + seq!['/'] + dec_padded(t.month as nat, 2) + seq!['/']
        + dec_padded(t.year as nat, 4) + seq![' '] + dec_padded(t.hour as nat, 2) + seq![':']
        + dec_padded(t.minute as nat, 2) + seq![':'] + dec_padded(t.second as nat, 2)
}

proof fn lemma_dmy_text_shape(t: Timestamp)
    requires
        valid(t),
        t.year <= 9999,
    ensures
        ({
            let x = dmy_slash_text(t);
            &&& x.len() == 19
            &&& x[2] == '/' && x[5] == '/' && x[10] == ' ' && x[13] == ':' && x[16] == ':'
            &&& forall|k: int|
                0 <= k < 19 && k != 2 && k != 5 && k != 10 && k != 13 && k != 16 ==> is_digit(
                    #[trigger] x[k],
                )
            &&& x.subrange(0, 2) == dec_padded(t.day as nat, 2)
            &&& x.subrange(3, 5) == dec_padded(t.month as nat, 2)
            &&& x.subrange(6, 10) == dec_padded(t.year as nat, 4)
            &&& x.subrange(11, 13) == dec_padded(t.hour as nat, 2)
            &&& x.subrange(14, 16) == dec_padded(t.minute as nat, 2)
            &&& x.subrange(17, 19) == dec_padded(t.second as nat, 2)
        }),
{
    let d = dec_padded(t.day as nat, 2);
    let mo = dec_padded(t.month as nat, 2);
    let y = dec_padded(t.year as nat, 4);
    let h = dec_padded(t.hour as nat, 2);
    let mi = dec_padded(t.minute as nat, 2);
    let s = dec_padded(t.second as nat, 2);
    crate::text::lemma_dec_padded(t.year as nat, 4);
    crate::text::lemma_dec_padded(t.month as nat, 2);
    crate::text::lemma_dec_padded(t.day as nat, 2);
    crate::text::lemma_dec_padded(t.hour as nat, 2);
    crate::text::lemma_dec_padded(t.minute as nat, 2);
    crate::text::lemma_dec_padded(t.second as nat, 2);
    assert(t.day <= 31) by {
        assert(month_days(t.year as int, t.month as int) <= 31);
    }
    let x = dmy_slash_text(t);
    assert(x.len() == 19);
    assert(x.subrange(0, 2) =~= d);
    assert(x.subrange(3, 5) =~= mo);
    assert(x.subrange(6, 10) =~= y);
    assert(x.subrange(11, 13) =~= h);
    assert(x.subrange(14, 16) =~= mi);
    assert(x.subrange(17, 19) =~= s);
    assert forall|k: int|
        0 <= k < 19 && k != 2 && k != 5 && k != 10 && k != 13 && k != 16 implies is_digit(
        #[trigger] x[k],
    ) by {
        if k < 2 {
            assert(x[k] == d[k]);
        } else if k < 5 {
            assert(x[k] == mo[k - 3]);
        } else if k < 10 {
            assert(x[k] == y[k - 6]);
        } else if k < 13 {
            assert(x[k] == h[k - 11]);
        } else if k < 16 {
            assert(x[k] == mi[k - 14]);
        } else {
            assert(x[k] == s[k - 17]);
        }
    }
}

/// The first six elements of a layout `%a c1 %b c2 %e c3 …`.
proof fn lemma_parts_prefix(f: Seq<char>)
    requires
        f.len() >= 9,
        f[0] == '%' && f[3] == '%' && f[6] == '%',
        f[2] != '%' && f[5] != '%' && f[8] != '%',
    ensures
        format_parts(f).len() >= 6,
        format_parts(f)[0] == directive(f[1]),
        format_parts(f)[1] == lit(f[2]),
        format_parts(f)[2] == directive(f[4]),
        format_parts(f)[3] == lit(f[5]),
        format_parts(f)[4] == directive(f[7]),
        format_parts(f)[5] == lit(f[8]),
{
    let g2 = f.skip(2);
    let g3 = f.skip(3);
    let g5 = f.skip(5);
    let g6 = f.skip(6);
    let g8 = f.skip(8);
    let g9 = f.skip(9);
    assert(g2.skip(1) =~= g3);
    assert(g3.skip(2) =~= g5);
    assert(g5.skip(1) =~= g6);
    assert(g6.skip(2) =~= g8);
    assert(g8.skip(1) =~= g9);
    assert(format_parts(f) == seq![directive(f[1])] + format_parts(g2));
    lemma_format_parts_lit(g2);
    assert(format_parts(g3) == seq![directive(g3[1])] + format_parts(g5));
    lemma_format_parts_lit(g5);
    assert(format_parts(g6) == seq![directive(g6[1])] + format_parts(g8));
    lemma_format_parts_lit(g8);
    let p = format_parts(f);
    assert(p =~= seq![directive(f[1]), lit(f[2]), directive(f[4]), lit(f[5]), directive(f[7]),
        lit(f[8])] + format_parts(g9));
}

/// A layout `%a/%b/%c<sep>…` (first two fields of two digits, the third of `w`) does not
/// match a text with `/` at 2 and 5 whose character at `6 + w` is not `sep`.
proof fn lemma_third_field_fails(x: Seq<char>, f: Seq<char>)
    requires
        f.len() >= 9,
        f[0] == '%' && f[3] == '%' && f[6] == '%',
        f[2] == '/' && f[5] == '/' && f[8] != '%',
        (f[1] == 'm' || f[1] == 'd') && (f[4] == 'm' || f[4] == 'd'),
        f[7] == 'Y' || f[7] == 'y',
        x.len() >= 11,
        x[2] == '/' && x[5] == '/',
        x[6 + part_width(directive(f[7])) as int] != f[8],
    ensures
        parse_fields(x, format_parts(f)) is None,
{
    lemma_parts_prefix(f);
    let p = format_parts(f);
    let p1 = p.drop_first();
    let p2 = p1.drop_first();
    let p3 = p2.drop_first();
    let p4 = p3.drop_first();
    let p5 = p4.drop_first();
    assert(p1[0] == p[1] && p2[0] == p[2] && p3[0] == p[3] && p4[0] == p[4] && p5[0] == p[5]);
    let w = part_width(directive(f[7]));
    assert(w == 4 || w == 2);
    let a0 = zero_fields();
    match read_num(x, 0, 2) {
        None => {},
        Some(v0) => {
            let a1 = set_field(a0, p[0], v0);
            assert(match_parts(x, 0, p, a0) == match_parts(x, 2, p1, a1));
            assert(match_parts(x, 2, p1, a1) == match_parts(x, 3, p2, a1));
            match read_num(x, 3, 2) {
                None => {
                    assert(match_parts(x, 3, p2, a1) is None);
                },
                Some(v1) => {
                    let a2 = set_field(a1, p[2], v1);
                    assert(match_parts(x, 3, p2, a1) == match_parts(x, 5, p3, a2));
                    assert(match_parts(x, 5, p3, a2) == match_parts(x, 6, p4, a2));
                    match read_num(x, 6, w) {
                        None => {
                            assert(match_parts(x, 6, p4, a2) is None);
                        },
                        Some(v2) => {
                            let a3 = set_field(a2, p[4], v2);
                            assert(match_parts(x, 6, p4, a2) == match_parts(x, 6 + w as int, p5, a3));
                            assert(match_parts(x, 6 + w as int, p5, a3) is None);
                        },
                    }
                },
            }
        },
    }
}

/// A layout that starts with a four-digit year followed by `sep` does not match a text
/// whose fifth character is not `sep`.
proof fn lemma_year_first_fails(x: Seq<char>, f: Seq<char>)
    requires
        f.len() >= 3,
        f[0] == '%' && f[1] == 'Y' && f[2] != '%',
        x.len() >= 5,
        x[4] != f[2],
    ensures
        parse_fields(x, format_parts(f)) is None,
{
    let g = f.skip(2);
    lemma_format_parts_lit(g);
    let p = format_parts(f);
    assert(p == seq![directive(f[1])] + format_parts(g));
    assert(p[0] == FmtPart::Y);
    assert(p.drop_first()[0] == lit(f[2]));
    match read_num(x, 0, 4) {
        Some(v) => {
            let a = set_field(zero_fields(), p[0], v);
            assert(match_parts(x, 0, p, zero_fields()) == match_parts(x, 4, p.drop_first(), a));
            assert(match_parts(x, 4, p.drop_first(), a) is None);
        },
        None => {},
    }
}

/// The layout `DD/MM/YYYY HH:MM:SS` as elements.
spec fn dmy_slash_layout() -> Seq<FmtPart> {
    seq![
        FmtPart::D,
        lit('/'),
        FmtPart::M,
        lit('/'),
        FmtPart::Y,
        lit(' '),
        FmtPart::H,
        lit(':'),
        FmtPart::Min,
        lit(':'),
        FmtPart::S,
    ]
}

#[verifier::spinoff_prover]
proof fn lemma_dmy_slash_layout()
    ensures
        format_parts(time_format_text(11)) == dmy_slash_layout(),
{
    let f0 = seq!['%', 'd', '/', '%', 'm', '/', '%', 'Y', ' ', '%', 'H', ':', '%', 'M', ':', '%', 'S'];
    let f1 = seq!['/', '%', 'm', '/', '%', 'Y', ' ', '%', 'H', ':', '%', 'M', ':', '%', 'S'];
    let f2 = seq!['%', 'm', '/', '%', 'Y', ' ', '%', 'H', ':', '%', 'M', ':', '%', 'S'];
    let f3 = seq!['/', '%', 'Y', ' ', '%', 'H', ':', '%', 'M', ':', '%', 'S'];
    let f4 = seq!['%', 'Y', ' ', '%', 'H', ':', '%', 'M', ':', '%', 'S'];
    let f5 = seq![' ', '%', 'H', ':', '%', 'M', ':', '%', 'S'];
    let f6 = seq!['%', 'H', ':', '%', 'M', ':', '%', 'S'];
    let f7 = seq![':', '%', 'M', ':', '%', 'S'];
    let f8 = seq!['%', 'M', ':', '%', 'S'];
    let f9 = seq![':', '%', 'S'];
    let f10 = seq!['%', 'S'];
    let f11 = Seq::<char>::empty();
    assert(time_format_text(11) == f0);
    assert(f0.skip(2) =~= f1);
    assert(format_parts(f0) == seq![directive(f0[1])] + format_parts(f1));
    assert(f1.skip(1) =~= f2);
    lemma_format_parts_lit(f1);
    assert(f2.skip(2) =~= f3);
    assert(format_parts(f2) == seq![directive(f2[1])] + format_parts(f3));
    assert(f3.skip(1) =~= f4);
    lemma_format_parts_lit(f3);
    assert(f4.skip(2) =~= f5);
    assert(format_parts(f4) == seq![directive(f4[1])] + format_parts(f5));
    assert(f5.skip(1) =~= f6);
    lemma_format_parts_lit(f5);
    assert(f6.skip(2) =~= f7);
    assert(format_parts(f6) == seq![directive(f6[1])] + format_parts(f7));
    assert(f7.skip(1) =~= f8);
    lemma_format_parts_lit(f7);
    assert(f8.skip(2) =~= f9);
    assert(format_parts(f8) == seq![directive(f8[1])] + format_parts(f9));
    assert(f9.skip(1) =~= f10);
    lemma_format_parts_lit(f9);
    assert(f10.skip(2) =~= f11);
    assert(format_parts(f10) == seq![directive(f10[1])] + format_parts(f11));
    assert(format_parts(f11) =~= Seq::<FmtPart>::empty());
    assert(format_parts(f0) =~= dmy_slash_layout());
}

#[verifier::spinoff_prover]
#[verifier::rlimit(40)]
proof fn lemma_match_dmy_slash_layout(t: Timestamp)
    requires
        valid(t),
        t.year <= 9999,
    ensures
        parse_fields(dmy_slash_text(t), dmy_slash_layout()) == Some(Timestamp { micro: 0, ..t }),
{
    let x = dmy_slash_text(t);
    lemma_dmy_text_shape(t);
    let l = dmy_slash_layout();
    crate::text::lemma_dec_padded(t.month as nat, 2);
    crate::text::lemma_dec_padded(t.day as nat, 2);
    crate::text::lemma_dec_padded(t.year as nat, 4);
    crate::text::lemma_dec_padded(t.hour as nat, 2);
    crate::text::lemma_dec_padded(t.minute as nat, 2);
    crate::text::lemma_dec_padded(t.second as nat, 2);
    let a0 = zero_fields();
    let a1 = Timestamp { day: t.day, ..a0 };
    let a2 = Timestamp { month: t.month, ..a1 };
    let a3 = Timestamp { year: t.year, ..a2 };
    let a4 = Timestamp { hour: t.hour, ..a3 };
    let a5 = Timestamp { minute: t.minute, ..a4 };
    let a6 = Timestamp { second: t.second, ..a5 };
    assert(a6 == Timestamp { micro: 0, ..t });
    assert(l.skip(0)[0] == l[0]);
    assert(l.skip(0).drop_first() =~= l.skip(1));
    assert(read_num(x, 0, 2) == Some(t.day as nat));
    assert(set_field(a0, FmtPart::D, t.day as nat) == a1);
    assert(match_parts(x, 0, l.skip(0), a0) == match_parts(x, 2, l.skip(1), a1));
    assert(l.skip(1)[0] == l[1]);
    assert(l.skip(1).drop_first() =~= l.skip(2));
    assert(match_parts(x, 2, l.skip(1), a1) == match_parts(x, 3, l.skip(2), a1));
    assert(l.skip(2)[0] == l[2]);
    assert(l.skip(2).drop_first() =~= l.skip(3));
    assert(read_num(x, 3, 2) == Some(t.month as nat));
    assert(set_field(a1, FmtPart::M, t.month as nat) == a2);
    assert(match_parts(x, 3, l.skip(2), a1) == match_parts(x, 5, l.skip(3), a2));
    assert(l.skip(3)[0] == l[3]);
    assert(l.skip(3).drop_first() =~= l.skip(4));
    assert(match_parts(x, 5, l.skip(3), a2) == match_parts(x, 6, l.skip(4), a2));
    assert(l.skip(4)[0] == l[4]);
    assert(l.skip(4).drop_first() =~= l.skip(5));
    assert(read_num(x, 6, 4) == Some(t.year as nat));
    assert(set_field(a2, FmtPart::Y, t.year as nat) == a3);
    assert(match_parts(x, 6, l.skip(4), a2) == match_parts(x, 10, l.skip(5), a3));
    assert(l.skip(5)[0] == l[5]);
    assert(l.skip(5).drop_first() =~= l.skip(6));
    assert(match_parts(x, 10, l.skip(5), a3) == match_parts(x, 11, l.skip(6), a3));
    assert(l.skip(6)[0] == l[6]);
    assert(l.skip(6).drop_first() =~= l.skip(7));
    assert(read_num(x, 11, 2) == Some(t.hour as nat));
    assert(set_field(a3, FmtPart::H, t.hour as nat) == a4);
    assert(match_parts(x, 11, l.skip(6), a3) == match_parts(x, 13, l.skip(7), a4));
    assert(l.skip(7)[0] == l[7]);
    assert(l.skip(7).drop_first() =~= l.skip(8));
    assert(match_parts(x, 13, l.skip(7), a4) == match_parts(x, 14, l.skip(8), a4));
    assert(l.skip(8)[0] == l[8]);
    assert(l.skip(8).drop_first() =~= l.skip(9));
    assert(read_num(x, 14, 2) == Some(t.minute as nat));
    assert(set_field(a4, FmtPart::Min, t.minute as nat) == a5);
    assert(match_parts(x, 14, l.skip(8), a4) == match_parts(x, 16, l.skip(9), a5));
    assert(l.skip(9)[0] == l[9]);
    assert(l.skip(9).drop_first() =~= l.skip(10));
    assert(match_parts(x, 16, l.skip(9), a5) == match_parts(x, 17, l.skip(10), a5));
    assert(l.skip(10)[0] == l[10]);
    assert(l.skip(10).drop_first() =~= l.skip(11));
    assert(read_num(x, 17, 2) == Some(t.second as nat));
    assert(set_field(a5, FmtPart::S, t.second as nat) == a6);
    assert(match_parts(x, 17, l.skip(10), a5) == match_parts(x, 19, l.skip(11), a6));
    assert(l.skip(11) =~= Seq::<FmtPart>::empty());
    assert(match_parts(x, 19, l.skip(11), a6) == Some(a6));
    assert(l.skip(0) =~= l);
    assert(t.day <= 31) by {
        assert(month_days(t.year as int, t.month as int) <= 31);
    }
    assert(timestamp_new(t.year, t.month, t.day, t.hour, t.minute, t.second, 0) == Ok::<
        Timestamp,
        Error,
    >(a6));
}

/// Parsing the day-first text `DD/MM/YYYY HH:MM:SS` of a valid timestamp whose year has
/// at most four digits gives that timestamp with no microseconds: the first field is the
/// day and the second the month.
#[verifier::spinoff_prover]
#[verifier::rlimit(40)]
pub proof fn lemma_dmy_slash_round_trip(t: Timestamp)
    requires
        valid(t),
        t.year <= 9999,
    ensures
        try_formats(prepared_time_text(dmy_slash_text(t)), 0) == Some(Timestamp { micro: 0, ..t }),
        parse_outcome(dmy_slash_text(t), Ok(Timestamp { micro: 0, ..t })),
{
    let x = dmy_slash_text(t);
    lemma_dmy_text_shape(t);
    crate::text::lemma_trim_noop(x);
    assert forall|i: int| 0 <= i < x.len() && #[trigger] x[i] == ' ' implies i > 0 && x[i - 1]
        != ':' && x[i - 1] != ' ' by {
        if i != 2 && i != 5 && i != 10 && i != 13 && i != 16 {
            assert(is_digit(x[i]));
        }
        assert(is_digit(x[9]));
    }
    assert forall|i: int| 0 < i < x.len() && #[trigger] x[i] == ':' implies x[i - 1] != ' ' by {
        if i != 2 && i != 5 && i != 10 && i != 13 && i != 16 {
            assert(is_digit(x[i]));
        }
        assert(is_digit(x[12]) && is_digit(x[15]));
    }
    lemma_collapse_plain(x);
    assert(collapse_colons(x) == x);
    lemma_last_index_of(x, '.');
    assert(last_index_of(x, '.') is None) by {
        if let Some(i) = last_index_of(x, '.') {
            if i != 2 && i != 5 && i != 10 && i != 13 && i != 16 {
                assert(is_digit(x[i]));
            }
        }
    }
    assert(normalize_micro(x) == x);
    // A `/29/` would put 29 in the month.
    assert(!contains(x, seq!['/', '2', '9', '/'])) by {
        if contains(x, seq!['/', '2', '9', '/']) {
            let i = choose|i: int| occurs_at(x, seq!['/', '2', '9', '/'], i);
            let w = x.subrange(i, i + 4);
            assert(w[0] == x[i] && w[1] == x[i + 1] && w[2] == x[i + 2] && w[3] == x[i + 3]);
            if i != 2 && i != 5 && i != 10 && i != 13 && i != 16 {
                assert(is_digit(x[i]));
            }
            let j = i + 3;
            if j != 2 && j != 5 && j != 10 && j != 13 && j != 16 {
                assert(is_digit(x[j]));
            }
            assert(i == 2);
            lemma_two_digits(t.month as nat, x.subrange(3, 5));
            assert(x.subrange(3, 5)[0] == x[3] && x.subrange(3, 5)[1] == x[4]);
        }
    }
    crate::text::lemma_replace_absent(x, seq!['/', '2', '9', '/'], seq!['/', '2', '8', '/']);
    assert(fix_feb29_text(x) == x);
    assert(prepared_time_text(x) == x);
    // The month-first and day-first layouts with a comma fail after the year; the
    // year-first layouts fail at the fifth character.
    assert(is_digit(x[8]) && is_digit(x[4]));
    lemma_third_field_fails(x, time_format_text(0));
    lemma_third_field_fails(x, time_format_text(1));
    lemma_third_field_fails(x, time_format_text(2));
    lemma_third_field_fails(x, time_format_text(3));
    lemma_third_field_fails(x, time_format_text(4));
    lemma_year_first_fails(x, time_format_text(5));
    lemma_year_first_fails(x, time_format_text(6));
    lemma_year_first_fails(x, time_format_text(7));
    lemma_year_first_fails(x, time_format_text(8));
    lemma_year_first_fails(x, time_format_text(9));
    lemma_year_first_fails(x, time_format_text(10));
    lemma_dmy_slash_layout();
    lemma_match_dmy_slash_layout(t);
    assert(try_formats(x, 11) == Some(Timestamp { micro: 0, ..t }));
    assert(try_formats(x, 10) == try_formats(x, 11));
    assert(try_formats(x, 9) == try_formats(x, 10));
    assert(try_formats(x, 8) == try_formats(x, 9));
    assert(try_formats(x, 7) == try_formats(x, 8));
    assert(try_formats(x, 6) == try_formats(x, 7));
    assert(try_formats(x, 5) == try_formats(x, 6));
    assert(try_formats(x, 4) == try_formats(x, 5));
    assert(try_formats(x, 3) == try_formats(x, 4));
    assert(try_formats(x, 2) == try_formats(x, 3));
    assert(try_formats(x, 1) == try_formats(x, 2));
    assert(try_formats(x, 0) == try_formats(x, 1));
}

} // verus!
