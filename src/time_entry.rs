//! Entry lines: a duration (`-1h30m note`) or a clock range
//! (`9:00-17:30 work`, `9:00-? pending`), each with its description.

use vstd::prelude::*;

use crate::error::ParseError;
use crate::text::{
    chars_of, copy_range, count_digits, count_spaces, digit_run, digits_value, ends_token,
    is_space, join_line, lemma_digit_run_bounds, lemma_ws_run_bounds, parse_digits, push_line, string_of, trim,
    trim_chars, ws_run,
};

verus! {

/// The description and signed duration, in minutes, of an entry.
#[derive(Debug)]
pub struct TimeEntryInfo {
    pub description: String,
    pub duration: i64,
}

/// An entry given as a duration.
#[derive(Debug)]
pub struct DurationTimeEntry {
    pub info: TimeEntryInfo,
}

/// An entry given as a clock range; `start` and `end` are minutes after
/// midnight.
#[derive(Debug)]
pub struct RangeTimeEntry {
    pub info: TimeEntryInfo,
    pub start: u32,
    pub end: u32,
}

/// One entry of a day.
#[derive(Debug)]
pub enum TimeEntry {
    Duration(DurationTimeEntry),
    Range(RangeTimeEntry),
}

/// What an entry holds: its description, and its duration or its clock range
/// in minutes after midnight.
pub enum EntryView {
    Duration { description: Seq<char>, duration: int },
    Range { description: Seq<char>, start: int, end: int },
}

impl EntryView {
    pub open spec fn description(self) -> Seq<char> {
        match self {
            EntryView::Duration { description, .. } => description,
            EntryView::Range { description, .. } => description,
        }
    }

    /// Signed duration in minutes; a range lasts from its start to its end.
    pub open spec fn duration(self) -> int {
        match self {
            EntryView::Duration { duration, .. } => duration,
            EntryView::Range { start, end, .. } => end - start,
        }
    }

    pub open spec fn with_description(self, d: Seq<char>) -> EntryView {
        match self {
            EntryView::Duration { duration, .. } => EntryView::Duration { description: d, duration },
            EntryView::Range { start, end, .. } => EntryView::Range { description: d, start, end },
        }
    }
}

impl View for TimeEntry {
    type V = EntryView;

    open spec fn view(&self) -> EntryView {
        match self {
            TimeEntry::Duration(e) => EntryView::Duration {
                description: e.info.description@,
                duration: e.info.duration as int,
            },
            TimeEntry::Range(e) => EntryView::Range {
                description: e.info.description@,
                start: e.start as int,
                end: e.end as int,
            },
        }
    }
}

impl TimeEntry {
    /// The stored duration agrees with the entry's kind, and clock times lie
    /// within a day.
    pub open spec fn wf(&self) -> bool {
        match self {
            TimeEntry::Duration(_) => true,
            TimeEntry::Range(e) => e.start < 1440 && e.end < 1440 && e.info.duration == e.end
                - e.start,
        }
    }

    pub fn get_info(&self) -> (r: &TimeEntryInfo)
        ensures
            r.description@ == self@.description(),
            self.wf() ==> r.duration == self@.duration(),
    {
        match self {
            TimeEntry::Duration(e) => &e.info,
            TimeEntry::Range(e) => &e.info,
        }
    }

    /// Adds a line of text to the description.
    pub fn append_description(&mut self, text: &str)
        ensures
            final(self)@ == old(self)@.with_description(
                join_line(old(self)@.description(), text@),
            ),
            final(self).wf() == old(self).wf(),
    {
        match self {
            TimeEntry::Duration(e) => push_line(&mut e.info.description, text),
            TimeEntry::Range(e) => push_line(&mut e.info.description, text),
        }
    }
}

/// `x`, negated where `negative`.
pub open spec fn signed(negative: bool, x: int) -> int {
    if negative {
        -x
    } else {
        x
    }
}

/// Whether a signed count of minutes fits in `i64` with either sign.
pub open spec fn fits_minutes(m: int) -> bool {
    -i64::MAX <= m <= i64::MAX
}

/// The duration token that starts `s`: an optional `-`, white space, then
/// `<H>h<M>m`, `<H>h` or `<M>m`, where `<M>` after hours has one or two
/// digits and white space may stand between `h` and `<M>`; the token must be
/// followed by white space or the end. Gives where the token ends and its
/// signed minutes.
pub open spec fn duration_token(s: Seq<char>) -> Option<(int, int)> {
    let a: int = if s.len() > 0 && s[0] == '-' {
        1
    } else {
        0
    };
    let j = a + ws_run(s, a);
    let hl = digit_run(s, j) as int;
    let p = j + hl;
    let h = digits_value(s, j, hl as nat) as int;
    if hl == 0 || p >= s.len() {
        None
    } else if s[p] == 'm' {
        if ends_token(s, p + 1) {
            Some((p + 1, signed(a == 1, h)))
        } else {
            None
        }
    } else if s[p] == 'h' {
        let q = p + 1 + ws_run(s, p + 1);
        let ml = digit_run(s, q) as int;
        let e = q + ml + 1;
        if 1 <= ml <= 2 && q + ml < s.len() && s[q + ml] == 'm' && ends_token(s, e) {
            Some((e, signed(a == 1, h * 60 + digits_value(s, q, ml as nat))))
        } else if ends_token(s, p + 1) {
            Some((p + 1, signed(a == 1, h * 60)))
        } else {
            None
        }
    } else {
        None
    }
}

/// The clock range token that starts `s`: `<H>:<M>-<H>:<M>` or `<H>:<M>-?`,
/// white space allowed around `:` and `-`, followed by white space or the
/// end. Gives where the token ends and the start and end hour and minute;
/// `?` ends where the range starts.
pub open spec fn range_token(s: Seq<char>) -> Option<(int, int, int, int, int)> {
    let l1 = digit_run(s, 0) as int;
    let p = l1 + ws_run(s, l1);
    let q = p + 1 + ws_run(s, p + 1);
    let l2 = digit_run(s, q) as int;
    let r = q + l2 + ws_run(s, q + l2);
    let t = r + 1 + ws_run(s, r + 1);
    let h1 = digits_value(s, 0, l1 as nat) as int;
    let m1 = digits_value(s, q, l2 as nat) as int;
    if l1 == 0 || p >= s.len() || s[p] != ':' || l2 == 0 || r >= s.len() || s[r] != '-' || t
        >= s.len() {
        None
    } else if s[t] == '?' {
        if ends_token(s, t + 1) {
            Some((t + 1, h1, m1, h1, m1))
        } else {
            None
        }
    } else {
        let l3 = digit_run(s, t) as int;
        let u = t + l3 + ws_run(s, t + l3);
        let w = u + 1 + ws_run(s, u + 1);
        let l4 = digit_run(s, w) as int;
        let e = w + l4;
        if l3 == 0 || u >= s.len() || s[u] != ':' || l4 == 0 || !ends_token(s, e) {
            None
        } else {
            Some((e, h1, m1, digits_value(s, t, l3 as nat) as int, digits_value(s, w, l4 as nat) as int))
        }
    }
}

/// The entry of a line that starts with a duration token; the description
/// is the rest of the line, trimmed. Minutes that overflow make it malformed.
pub open spec fn duration_entry_of(s: Seq<char>) -> Result<EntryView, ParseError> {
    match duration_token(s) {
        Some((e, m)) => if fits_minutes(m) {
            Ok(EntryView::Duration { description: trim(s.subrange(e, s.len() as int)), duration: m })
        } else {
            Err(ParseError::MalformedEntry)
        },
        None => Err(ParseError::MalformedEntry),
    }
}

/// The entry of a line that starts with a range token; the description is
/// the rest of the line, trimmed. Clock times that are no times of day make
/// it malformed.
pub open spec fn range_entry_of(s: Seq<char>) -> Result<EntryView, ParseError> {
    match range_token(s) {
        Some((e, h1, m1, h2, m2)) => if h1 < 24 && m1 < 60 && h2 < 24 && m2 < 60 {
            Ok(
                EntryView::Range {
                    description: trim(s.subrange(e, s.len() as int)),
                    start: h1 * 60 + m1,
                    end: h2 * 60 + m2,
                },
            )
        } else {
            Err(ParseError::MalformedEntry)
        },
        None => Err(ParseError::MalformedEntry),
    }
}

/// What the line `s` yields: the first kind of entry whose token starts it,
/// durations before ranges, or `None` where it is no entry line.
pub open spec fn entry_of(s: Seq<char>) -> Option<Result<EntryView, ParseError>> {
    if duration_token(s) is Some {
        Some(duration_entry_of(s))
    } else if range_token(s) is Some {
        Some(range_entry_of(s))
    } else {
        None
    }
}

/// `r` is the entry, or the error, that `spec` describes.
pub open spec fn entry_result_matches(
    r: Result<TimeEntry, ParseError>,
    spec: Result<EntryView, ParseError>,
) -> bool {
    match spec {
        Ok(v) => r matches Ok(e) && e@ == v && e.wf(),
        Err(x) => r matches Err(y) && y == x,
    }
}

/// Whether the token of `s` that ends at `k` is complete.
fn token_ends(s: &Vec<char>, k: usize) -> (r: bool)
    requires
        k <= s@.len(),
    ensures
        r == ends_token(s@, k as int),
{
    k == s.len() || is_space(s[k])
}

/// `sign * (hours * 60 + minutes)` as `i64`, where its magnitude fits.
fn signed_minutes(negative: bool, hours: Option<u64>, minutes: u64) -> (r: Option<i64>)
    requires
        minutes < 100,
    ensures
        hours is None ==> r is None,
        hours matches Some(h) ==> ({
            let m = signed(negative, h * 60 + minutes);
            &&& fits_minutes(m) ==> r == Some(m as i64)
            &&& !fits_minutes(m) ==> r is None
        }),
{
    match hours {
        None => None,
        Some(h) => {
            let total: u128 = h as u128 * 60 + minutes as u128;
            if total > i64::MAX as u128 {
                None
            } else if negative {
                Some(-(total as i64))
            } else {
                Some(total as i64)
            }
        },
    }
}

/// The duration token that starts `s`: where it ends, and its minutes where
/// they fit in `i64`.
fn scan_duration(s: &Vec<char>) -> (r: Option<(usize, Option<i64>)>)
    ensures
        match duration_token(s@) {
            None => r is None,
            Some((e, m)) => r matches Some((re, rm)) && re == e && (fits_minutes(m) ==> rm == Some(
                m as i64,
            )) && (!fits_minutes(m) ==> rm is None),
        },
{
    let negative = s.len() > 0 && s[0] == '-';
    let a: usize = if negative {
        1
    } else {
        0
    };
    proof {
        lemma_ws_run_bounds(s@, a as int);
    }
    let j = a + count_spaces(s, a);
    proof {
        lemma_digit_run_bounds(s@, j as int);
    }
    let hl = count_digits(s, j);
    let p = j + hl;
    if hl == 0 || p >= s.len() {
        return None;
    }
    let h = parse_digits(s, j, hl);
    if s[p] == 'm' {
        if token_ends(s, p + 1) {
            // a bare count of minutes: treat it as zero hours and that many minutes
            let m = match h {
                None => None,
                Some(v) => if v > i64::MAX as u64 {
                    None
                } else if negative {
                    Some(-(v as i64))
                } else {
                    Some(v as i64)
                },
            };
            return Some((p + 1, m));
        }
        return None;
    }
    if s[p] != 'h' {
        return None;
    }
    proof {
        lemma_ws_run_bounds(s@, p + 1);
    }
    let q = p + 1 + count_spaces(s, p + 1);
    proof {
        lemma_digit_run_bounds(s@, q as int);
    }
    let ml = count_digits(s, q);
    if 1 <= ml && ml <= 2 && q + ml < s.len() && s[q + ml] == 'm' && token_ends(s, q + ml + 1) {
        let mv = parse_digits(s, q, ml);
        proof {
            assert(digits_value(s@, q as int, ml as nat) < 100) by {
                reveal_with_fuel(digits_value, 3);
            }
        }
        let mm = match mv {
            Some(v) => v,
            None => 0,
        };
        Some((q + ml + 1, signed_minutes(negative, h, mm)))
    } else if token_ends(s, p + 1) {
        Some((p + 1, signed_minutes(negative, h, 0)))
    } else {
        None
    }
}

/// `h * 60 + m` where `h` is an hour and `m` a minute of a day.
fn clock_minutes(h: Option<u64>, m: Option<u64>) -> (r: Option<u32>)
    ensures
        match (h, m) {
            (Some(hv), Some(mv)) => if hv < 24 && mv < 60 {
                r == Some((hv * 60 + mv) as u32)
            } else {
                r is None
            },
            _ => r is None,
        },
{
    match (h, m) {
        (Some(hv), Some(mv)) => if hv < 24 && mv < 60 {
            Some((hv * 60 + mv) as u32)
        } else {
            None
        },
        _ => None,
    }
}

/// The clock range token that starts `s`: where it ends, and its start and
/// end in minutes after midnight where both are times of day.
fn scan_range(s: &Vec<char>) -> (r: Option<(usize, Option<(u32, u32)>)>)
    ensures
        match range_token(s@) {
            None => r is None,
            Some((e, h1, m1, h2, m2)) => r matches Some((re, rv)) && re == e && (if h1 < 24 && m1
                < 60 && h2 < 24 && m2 < 60 {
                rv == Some(((h1 * 60 + m1) as u32, (h2 * 60 + m2) as u32))
            } else {
                rv is None
            }),
        },
{
    if s.len() == 0 {
        return None;
    }
    proof {
        lemma_digit_run_bounds(s@, 0);
    }
    let l1 = count_digits(s, 0);
    proof {
        lemma_ws_run_bounds(s@, l1 as int);
    }
    let p = l1 + count_spaces(s, l1);
    if l1 == 0 || p >= s.len() || s[p] != ':' {
        return None;
    }
    proof {
        lemma_ws_run_bounds(s@, p + 1);
    }
    let q = p + 1 + count_spaces(s, p + 1);
    proof {
        lemma_digit_run_bounds(s@, q as int);
    }
    let l2 = count_digits(s, q);
    proof {
        lemma_ws_run_bounds(s@, q + l2);
    }
    let r = q + l2 + count_spaces(s, q + l2);
    if l2 == 0 || r >= s.len() || s[r] != '-' {
        return None;
    }
    proof {
        lemma_ws_run_bounds(s@, r + 1);
    }
    let t = r + 1 + count_spaces(s, r + 1);
    if t >= s.len() {
        return None;
    }
    let start = clock_minutes(parse_digits(s, 0, l1), parse_digits(s, q, l2));
    if s[t] == '?' {
        if token_ends(s, t + 1) {
            let v = match start {
                Some(x) => Some((x, x)),
                None => None,
            };
            return Some((t + 1, v));
        }
        return None;
    }
    proof {
        lemma_digit_run_bounds(s@, t as int);
    }
    let l3 = count_digits(s, t);
    proof {
        lemma_ws_run_bounds(s@, t + l3);
    }
    let u = t + l3 + count_spaces(s, t + l3);
    if l3 == 0 || u >= s.len() || s[u] != ':' {
        return None;
    }
    proof {
        lemma_ws_run_bounds(s@, u + 1);
    }
    let w = u + 1 + count_spaces(s, u + 1);
    proof {
        lemma_digit_run_bounds(s@, w as int);
    }
    let l4 = count_digits(s, w);
    let e = w + l4;
    if l4 == 0 || !token_ends(s, e) {
        return None;
    }
    let end = clock_minutes(parse_digits(s, t, l3), parse_digits(s, w, l4));
    let v = match (start, end) {
        (Some(x), Some(y)) => Some((x, y)),
        _ => None,
    };
    Some((e, v))
}

/// The rest of `s` from `e`, trimmed.
fn description_from(s: &Vec<char>, e: usize) -> (r: String)
    requires
        e <= s@.len(),
    ensures
        r@ == trim(s@.subrange(e as int, s@.len() as int)),
{
    let rest = copy_range(s, e, s.len());
    let t = trim_chars(&rest);
    string_of(&t)
}

fn duration_entry_from(s: &Vec<char>) -> (r: Result<TimeEntry, ParseError>)
    ensures
        entry_result_matches(r, duration_entry_of(s@)),
{
    match scan_duration(s) {
        Some((e, Some(m))) => {
            let description = description_from(s, e);
            Ok(TimeEntry::Duration(DurationTimeEntry { info: TimeEntryInfo { description, duration: m } }))
        },
        _ => Err(ParseError::MalformedEntry),
    }
}

fn range_entry_from(s: &Vec<char>) -> (r: Result<TimeEntry, ParseError>)
    ensures
        entry_result_matches(r, range_entry_of(s@)),
{
    match scan_range(s) {
        Some((e, Some((start, end)))) => {
            let description = description_from(s, e);
            let duration = end as i64 - start as i64;
            Ok(TimeEntry::Range(RangeTimeEntry { info: TimeEntryInfo { description, duration }, start, end }))
        },
        _ => Err(ParseError::MalformedEntry),
    }
}

/// The entry that the line `s` holds, if it is an entry line.
pub(crate) fn entry_from_chars(s: &Vec<char>) -> (r: Option<Result<TimeEntry, ParseError>>)
    ensures
        match entry_of(s@) {
            None => r is None,
            Some(x) => r matches Some(y) && entry_result_matches(y, x),
        },
{
    if scan_duration(s).is_some() {
        Some(duration_entry_from(s))
    } else if scan_range(s).is_some() {
        Some(range_entry_from(s))
    } else {
        None
    }
}

impl DurationTimeEntry {
    /// Whether `text` starts with a duration token.
    pub fn test(text: &str) -> (r: bool)
        ensures
            r == duration_token(text@) is Some,
    {
        let s = chars_of(text);
        scan_duration(&s).is_some()
    }

    /// The duration entry of `text`; malformed where `text` does not start
    /// with a duration token or its minutes overflow.
    pub fn new(text: &str) -> (r: Result<TimeEntry, ParseError>)
        ensures
            entry_result_matches(r, duration_entry_of(text@)),
    {
        let s = chars_of(text);
        duration_entry_from(&s)
    }
}

impl RangeTimeEntry {
    /// Whether `text` starts with a clock range token.
    pub fn test(text: &str) -> (r: bool)
        ensures
            r == range_token(text@) is Some,
    {
        let s = chars_of(text);
        scan_range(&s).is_some()
    }

    /// The range entry of `text`; malformed where `text` does not start with
    /// a range token or its clock times are no times of day.
    pub fn new(text: &str) -> (r: Result<TimeEntry, ParseError>)
        ensures
            entry_result_matches(r, range_entry_of(text@)),
    {
        let s = chars_of(text);
        range_entry_from(&s)
    }
}

/// The entry that `line` holds: recognisers are tried in a fixed order,
/// durations before ranges, and the first that recognises the line builds
/// the entry. `None` where the line is no entry line.
pub fn parse_time_entry(line: &str) -> (r: Option<Result<TimeEntry, ParseError>>)
    ensures
        match entry_of(line@) {
            None => r is None,
            Some(x) => r matches Some(y) && entry_result_matches(y, x),
        },
{
    let s = chars_of(line);
    entry_from_chars(&s)
}

} // verus!
