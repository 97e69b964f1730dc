//! Calendar dates: the date line of a day, its resolution into a date, and
//! day numbers for week arithmetic.

use chrono::Datelike;
use vstd::prelude::*;

use crate::error::ParseError;
use crate::text::{
    chars_of, count_digits, dec_digits, digit_run, digits_value, ends_token, is_digit, is_space,
    zero_pad,
    lemma_digit_run_bounds, parse_digits,
};

verus! {

/// Earliest year that a date can have.
pub const MIN_YEAR: i32 = -262143;

/// Latest year that a date can have.
pub const MAX_YEAR: i32 = 262142;

/// A day of the proleptic Gregorian calendar.
#[derive(Clone, Copy, Debug, PartialEq, Eq, Structural)]
pub struct Date {
    pub year: i32,
    pub month: u32,
    pub day: u32,
}

pub open spec fn is_leap_year(y: int) -> bool {
    y % 4 == 0 && (y % 100 != 0 || y % 400 == 0)
}

pub open spec fn days_in_month(y: int, m: int) -> int {
    if m == 2 {
        if is_leap_year(y) {
            29
        } else {
            28
        }
    } else if m == 4 || m == 6 || m == 9 || m == 11 {
        30
    } else {
        31
    }
}

/// `(y, m, d)` names a day that a date can hold.
pub open spec fn is_calendar_date(y: int, m: int, d: int) -> bool {
    MIN_YEAR <= y <= MAX_YEAR && 1 <= m <= 12 && 1 <= d <= days_in_month(y, m)
}

/// Days of year `y` before the first of month `m`.
pub open spec fn days_before_month(y: int, m: int) -> int
    decreases m,
{
    if m <= 1 {
        0
    } else {
        days_before_month(y, m - 1) + days_in_month(y, m - 1)
    }
}

/// Number of the day, counting 1 January of year 1 as day 1 (a Monday).
pub open spec fn day_number(d: Date) -> int {
    let p = d.year - 1;
    365 * p + p / 4 - p / 100 + p / 400 + days_before_month(d.year as int, d.month as int)
        + d.day
}

/// Number of the Sunday that opens the week of day number `n`.
pub open spec fn week_floor(n: int) -> int {
    n - n % 7
}

impl Date {
    pub open spec fn wf(self) -> bool {
        is_calendar_date(self.year as int, self.month as int, self.day as int)
    }
}

/// Relies on chrono's `NaiveDate::from_ymd_opt`: it accepts exactly the
/// calendar dates of its year range.
#[verifier::external_body]
fn calendar_date_exists(year: i32, month: u32, day: u32) -> (r: bool)
    ensures
        r == is_calendar_date(year as int, month as int, day as int),
{
    chrono::NaiveDate::from_ymd_opt(year, month, day).is_some()
}

/// Relies on chrono's `Datelike::num_days_from_ce`: the day number, 1 January
/// of year 1 being day 1.
#[verifier::external_body]
fn days_from_ce(d: Date) -> (r: i32)
    requires
        d.wf(),
    ensures
        r == day_number(d),
{
    chrono::NaiveDate::from_ymd_opt(d.year, d.month, d.day).unwrap().num_days_from_ce()
}

/// Relies on chrono's `NaiveWeek::first_day` of a week that starts on Sunday:
/// the Sunday on or before `d`.
#[verifier::external_body]
pub(crate) fn week_first_day(d: Date) -> (r: Date)
    requires
        d.wf(),
        MIN_YEAR < d.year < MAX_YEAR,
    ensures
        r.wf(),
        day_number(r) == week_floor(day_number(d)),
{
    let w = chrono::NaiveDate::from_ymd_opt(d.year, d.month, d.day).unwrap();
    let f = w.week(chrono::Weekday::Sun).first_day();
    Date { year: f.year(), month: f.month(), day: f.day() }
}

/// Relies on chrono's `NaiveWeek::last_day` of a week that starts on Sunday:
/// the Saturday on or after `d`.
#[verifier::external_body]
pub(crate) fn week_last_day(d: Date) -> (r: Date)
    requires
        d.wf(),
        MIN_YEAR < d.year < MAX_YEAR,
    ensures
        r.wf(),
        day_number(r) == week_floor(day_number(d)) + 6,
{
    let w = chrono::NaiveDate::from_ymd_opt(d.year, d.month, d.day).unwrap();
    let l = w.week(chrono::Weekday::Sun).last_day();
    Date { year: l.year(), month: l.month(), day: l.day() }
}

/// Whether `a` and `b` lie in the same Sunday-to-Saturday week.
pub fn same_week(a: Date, b: Date) -> (r: bool)
    requires
        a.wf(),
        b.wf(),
    ensures
        r == (week_floor(day_number(a)) == week_floor(day_number(b))),
{
    let na = days_from_ce(a) as i64;
    let nb = days_from_ce(b) as i64;
    // day numbers of valid dates are far above this bound
    let shift: i64 = 7 * 20_000_000;
    proof {
        lemma_day_number_bounds(a);
        lemma_day_number_bounds(b);
    }
    let fa = na - (na + shift) % 7;
    let fb = nb - (nb + shift) % 7;
    assert((na + shift) % 7 == na % 7) by (nonlinear_arith)
        requires shift == 7 * 20_000_000;
    assert((nb + shift) % 7 == nb % 7) by (nonlinear_arith)
        requires shift == 7 * 20_000_000;
    fa == fb
}

proof fn lemma_days_before_month_bounds(y: int, m: int)
    requires
        1 <= m <= 12,
    ensures
        0 <= days_before_month(y, m) <= 31 * (m - 1),
    decreases m,
{
    if m > 1 {
        lemma_days_before_month_bounds(y, m - 1);
    }
}

proof fn lemma_day_number_bounds(d: Date)
    requires
        d.wf(),
    ensures
        -100_000_000 <= day_number(d) <= 100_000_000,
{
    lemma_days_before_month_bounds(d.year as int, d.month as int);
    let p = d.year - 1;
    assert(-100_000_000 <= 365 * p + p / 4 - p / 100 + p / 400 <= 100_000_000) by (nonlinear_arith)
        requires
            MIN_YEAR - 1 <= p <= MAX_YEAR,
    ;
}

pub open spec fn is_date_sep(c: char) -> bool {
    c == '.' || c == '-' || c == '/'
}

/// Digit counts that a date line allows for its three parts, by separator:
/// `d.m.y`, `y-m-d` and `y/m/d`.
pub open spec fn date_part_lengths_ok(sep: char, l1: int, l2: int, l3: int) -> bool {
    if sep == '.' {
        1 <= l1 <= 2 && 1 <= l2 <= 2 && 2 <= l3 <= 4
    } else if sep == '-' {
        2 <= l1 <= 4 && 1 <= l2 <= 2 && 1 <= l3 <= 4
    } else if sep == '/' {
        2 <= l1 <= 4 && 1 <= l2 <= 2 && 1 <= l3 <= 2
    } else {
        false
    }
}

/// The line opens a new day: it starts with three digit groups joined by one
/// separator, of the lengths that separator allows, followed by white space
/// or the end of the line.
pub open spec fn is_date_line(s: Seq<char>) -> bool {
    let l1 = digit_run(s, 0) as int;
    let l2 = digit_run(s, l1 + 1) as int;
    let sep_at = l1 + 1 + l2;
    let l3 = digit_run(s, sep_at + 1) as int;
    &&& sep_at < s.len()
    &&& s[l1] == s[sep_at]
    &&& date_part_lengths_ok(s[l1], l1, l2, l3)
    &&& ends_token(s, sep_at + 1 + l3)
}

/// A year written with four digits stands as written; any other count of
/// digits is counted from 2000.
pub open spec fn expand_year(v: int, len: int) -> int {
    if len == 4 {
        v
    } else {
        v + 2000
    }
}

/// Year, month and day that the leading date of `s` names, before any check
/// of the calendar: three digit groups joined by one separator, read as
/// day.month.year for `.` and as year-month-day otherwise.
pub open spec fn date_parts(s: Seq<char>) -> Option<(int, int, int)> {
    let l1 = digit_run(s, 0) as int;
    let l2 = digit_run(s, l1 + 1) as int;
    let sep_at = l1 + 1 + l2;
    let l3 = digit_run(s, sep_at + 1) as int;
    if l1 == 0 || sep_at >= s.len() || !is_date_sep(s[l1]) || l2 == 0 || s[sep_at] != s[l1] || l3 == 0 {
        None
    } else {
        let a = digits_value(s, 0, l1 as nat) as int;
        let b = digits_value(s, l1 + 1, l2 as nat) as int;
        let c = digits_value(s, sep_at + 1, l3 as nat) as int;
        if s[l1] == '.' {
            Some((expand_year(c, l3), b, a))
        } else {
            Some((expand_year(a, l1), b, c))
        }
    }
}

/// The date that the leading date of `s` resolves to, if it is a calendar date.
pub open spec fn resolved_date(s: Seq<char>) -> Option<Date> {
    match date_parts(s) {
        Some((y, m, d)) => if is_calendar_date(y, m, d) {
            Some(Date { year: y as i32, month: m as u32, day: d as u32 })
        } else {
            None
        },
        None => None,
    }
}

/// Whether the line `s` opens a new day.
pub fn is_record_start(s: &Vec<char>) -> (r: bool)
    ensures
        r == is_date_line(s@),
{
    proof {
        lemma_digit_run_bounds(s@, 0);
    }
    let l1 = count_digits(s, 0);
    if l1 >= s.len() {
        return false;
    }
    proof {
        lemma_digit_run_bounds(s@, l1 + 1);
    }
    let l2 = count_digits(s, l1 + 1);
    let sep_at = l1 + 1 + l2;
    if sep_at >= s.len() {
        return false;
    }
    proof {
        lemma_digit_run_bounds(s@, sep_at + 1);
    }
    let l3 = count_digits(s, sep_at + 1);
    let sep = s[l1];
    if s[sep_at] != sep {
        return false;
    }
    let lengths_ok = if sep == '.' {
        1 <= l1 && l1 <= 2 && 1 <= l2 && l2 <= 2 && 2 <= l3 && l3 <= 4
    } else if sep == '-' {
        2 <= l1 && l1 <= 4 && 1 <= l2 && l2 <= 2 && 1 <= l3 && l3 <= 4
    } else if sep == '/' {
        2 <= l1 && l1 <= 4 && 1 <= l2 && l2 <= 2 && 1 <= l3 && l3 <= 2
    } else {
        false
    };
    let e = sep_at + 1 + l3;
    lengths_ok && (e == s.len() || is_space(s[e]))
}

proof fn lemma_digits_value_shift(s: Seq<char>, i: int, n: nat)
    requires
        0 <= i,
        i + n <= s.len(),
    ensures
        digits_value(s.subrange(i, i + n), 0, n) == digits_value(s, i, n),
    decreases n,
{
    if n > 0 {
        lemma_digits_value_shift(s, i, (n - 1) as nat);
        lemma_digits_value_prefix_eq(s.subrange(i, i + n), s.subrange(i, i + n - 1), (n - 1) as nat);
    }
}

/// The value of the first `n` digits depends on those characters alone.
proof fn lemma_digits_value_prefix_eq(s: Seq<char>, t: Seq<char>, n: nat)
    requires
        n <= s.len(),
        n <= t.len(),
        forall|k: int| 0 <= k < n ==> s[k] == t[k],
    ensures
        digits_value(s, 0, n) == digits_value(t, 0, n),
    decreases n,
{
    if n > 0 {
        lemma_digits_value_prefix_eq(s, t, (n - 1) as nat);
    }
}

/// The year that a written year stands for: four digits as written, any
/// other count of digits counted from 2000.
pub fn convert_year(content: &str) -> (r: i32)
    requires
        content@.len() >= 1,
        forall|k: int| 0 <= k < content@.len() ==> is_digit(#[trigger] content@[k]),
        expand_year(digits_value(content@, 0, content@.len()) as int, content@.len() as int)
            <= i32::MAX,
    ensures
        r == expand_year(digits_value(content@, 0, content@.len()) as int, content@.len() as int),
{
    let n = content.unicode_len();
    let ghost full = digits_value(content@, 0, n as nat);
    let mut v: i64 = 0;
    let mut k: usize = 0;
    while k < n
        invariant
            n == content@.len(),
            k <= n,
            forall|j: int| 0 <= j < content@.len() ==> is_digit(#[trigger] content@[j]),
            v == digits_value(content@, 0, k as nat),
            full == digits_value(content@, 0, n as nat),
            full <= i32::MAX,
        decreases n - k,
    {
        let c = content.get_char(k);
        assert(is_digit(content@[k as int]));
        proof {
            crate::text::lemma_digits_value_monotone(content@, 0, (k + 1) as nat, n as nat);
        }
        v = v * 10 + (c as u32 - '0' as u32) as i64;
        k = k + 1;
    }
    if n == 4 {
        v as i32
    } else {
        (v + 2000) as i32
    }
}

/// Resolves the date that starts `text`: three digit groups joined by one
/// separator, read as day.month.year for `.` and as year-month-day for `-`
/// and `/`, the year expanded by [`convert_year`]. Fails where `text` does not
/// start so, or where the parts name no calendar date.
pub fn parse_date(text: &str) -> (r: Result<Date, ParseError>)
    ensures
        match resolved_date(text@) {
            Some(d) => r == Ok::<Date, ParseError>(d),
            None => r == Err::<Date, ParseError>(ParseError::DateParse),
        },
        r matches Ok(d) ==> d.wf(),
{
    let s = chars_of(text);
    proof {
        lemma_digit_run_bounds(s@, 0);
    }
    let l1 = count_digits(&s, 0);
    if l1 == 0 || l1 >= s.len() || !(s[l1] == '.' || s[l1] == '-' || s[l1] == '/') {
        return Err(ParseError::DateParse);
    }
    proof {
        lemma_digit_run_bounds(s@, l1 + 1);
    }
    let l2 = count_digits(&s, l1 + 1);
    let sep_at = l1 + 1 + l2;
    if l2 == 0 || sep_at >= s.len() || s[sep_at] != s[l1] {
        return Err(ParseError::DateParse);
    }
    proof {
        lemma_digit_run_bounds(s@, sep_at + 1);
    }
    let l3 = count_digits(&s, sep_at + 1);
    if l3 == 0 {
        return Err(ParseError::DateParse);
    }
    let european = s[l1] == '.';
    // position and length of the year, month and day groups
    let (ys, yl, ms, ml, ds, dl) = if european {
        (sep_at + 1, l3, l1 + 1, l2, 0, l1)
    } else {
        (0, l1, l1 + 1, l2, sep_at + 1, l3)
    };
    let yv = parse_digits(&s, ys, yl);
    let mv = parse_digits(&s, ms, ml);
    let dv = parse_digits(&s, ds, dl);
    match (yv, mv, dv) {
        (Some(y), Some(m), Some(d)) => {
            if y > 300_000 || m > 12 || d > 31 {
                return Err(ParseError::DateParse);
            }
            let part = text.substring_char(ys, ys + yl);
            proof {
                lemma_digits_value_shift(s@, ys as int, yl as nat);
            }
            let year = convert_year(part);
            if calendar_date_exists(year, m as u32, d as u32) {
                Ok(Date { year, month: m as u32, day: d as u32 })
            } else {
                Err(ParseError::DateParse)
            }
        },
        _ => Err(ParseError::DateParse),
    }
}

/// Text of a year in a date: four digits for years 0 to 9999, otherwise a
/// sign and at least four digits.
pub open spec fn iso_year(y: int) -> Seq<char> {
    if 0 <= y <= 9999 {
        zero_pad(dec_digits(y as nat), 4)
    } else if y < 0 {
        seq!['-'] + zero_pad(dec_digits((-y) as nat), 4)
    } else {
        seq!['+'] + zero_pad(dec_digits(y as nat), 4)
    }
}

/// The date written `YYYY-MM-DD`.
pub open spec fn iso_date_text(d: Date) -> Seq<char> {
    iso_year(d.year as int) + seq!['-'] + zero_pad(dec_digits(d.month as nat), 2) + seq!['-']
        + zero_pad(dec_digits(d.day as nat), 2)
}

/// Relies on the `Display` of chrono's `NaiveDate`: `YYYY-MM-DD`, with a sign
/// before years outside 0 to 9999.
#[verifier::external_body]
pub(crate) fn iso_text(d: Date) -> (r: String)
    requires
        d.wf(),
    ensures
        r@ == iso_date_text(d),
{
    chrono::NaiveDate::from_ymd_opt(d.year, d.month, d.day).unwrap().to_string()
}

} // verus!
