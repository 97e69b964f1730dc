//! Calendar ranges: when two dates fall in the same range, and how a range
//! is labelled.

use vstd::prelude::*;

use crate::date::{
    day_number, iso_date_text, iso_text, same_week, week_first_day, week_floor, week_last_day,
    Date, MAX_YEAR, MIN_YEAR,
};
use crate::text::{int_dec, int_text};

verus! {

/// The granularity of a report.
#[derive(Clone, Copy, Debug, PartialEq, Eq, Structural)]
pub enum TimeRange {
    Day,
    Week,
    Month,
    Quarter,
    Year,
}

impl Default for TimeRange {
    fn default() -> (r: TimeRange)
        ensures
            r == TimeRange::Month,
    {
        TimeRange::Month
    }
}

/// `a` and `b` fall in the same range of the granularity. Month and quarter
/// compare the month alone, whatever the year.
pub open spec fn same_bucket(range: TimeRange, a: Date, b: Date) -> bool {
    match range {
        TimeRange::Day => a == b,
        TimeRange::Week => week_floor(day_number(a)) == week_floor(day_number(b)),
        TimeRange::Month => a.month == b.month,
        TimeRange::Quarter => a.month / 3 == b.month / 3,
        TimeRange::Year => a.year == b.year,
    }
}

/// The granularity that splits a report of the given granularity into rows.
pub open spec fn sub_range(range: TimeRange) -> TimeRange {
    match range {
        TimeRange::Day | TimeRange::Week | TimeRange::Month => TimeRange::Day,
        TimeRange::Quarter => TimeRange::Week,
        TimeRange::Year => TimeRange::Month,
    }
}

/// The label of the range of the granularity that holds `d`.
pub open spec fn range_label(range: TimeRange, d: Date, first: Date, last: Date) -> Seq<char> {
    match range {
        TimeRange::Year => int_dec(d.year as int),
        TimeRange::Quarter => int_dec(d.year as int) + seq!['Q'] + int_dec(d.month as int / 3),
        TimeRange::Week => iso_date_text(first) + seq![' ', '-', ' '] + iso_date_text(last),
        TimeRange::Month => int_dec(d.year as int) + seq!['-'] + int_dec(d.month as int),
        TimeRange::Day => iso_date_text(d),
    }
}

/// Whether `a` and `b` fall in the same range of the granularity.
pub fn check_time_range(range: &TimeRange, a: Date, b: Date) -> (r: bool)
    requires
        a.wf(),
        b.wf(),
    ensures
        r == same_bucket(*range, a, b),
{
    match range {
        TimeRange::Day => a == b,
        TimeRange::Week => same_week(a, b),
        TimeRange::Month => a.month == b.month,
        TimeRange::Quarter => a.month / 3 == b.month / 3,
        TimeRange::Year => a.year == b.year,
    }
}

/// The granularity of the rows of a report of the given granularity: days
/// for a day, week or month, weeks for a quarter, months for a year.
pub fn group_time_range(range: &TimeRange) -> (r: TimeRange)
    ensures
        r == sub_range(*range),
{
    match range {
        TimeRange::Day | TimeRange::Week | TimeRange::Month => TimeRange::Day,
        TimeRange::Quarter => TimeRange::Week,
        TimeRange::Year => TimeRange::Month,
    }
}

/// The label of the range that holds `date`: `YYYY` for a year, `YYYYQn` for
/// a quarter (`n` the month divided by three), `YYYY-M` for a month, the
/// first and last day for a week, the date itself for a day.
pub fn format_time_range(range: &TimeRange, date: Date) -> (r: String)
    requires
        date.wf(),
        *range == TimeRange::Week ==> MIN_YEAR < date.year < MAX_YEAR,
    ensures
        *range != TimeRange::Week ==> r@ == range_label(*range, date, date, date),
        *range == TimeRange::Week ==> exists|first: Date, last: Date|
            {
                &&& first.wf()
                &&& last.wf()
                &&& day_number(first) == week_floor(day_number(date))
                &&& day_number(last) == week_floor(day_number(date)) + 6
                &&& r@ == range_label(*range, date, first, last)
            },
{
    match range {
        TimeRange::Year => {
            let r = int_text(date.year as i64);
            r
        },
        TimeRange::Quarter => {
            let mut r = int_text(date.year as i64);
            r.append("Q");
            let n = int_text((date.month / 3) as i64);
            r.append(n.as_str());
            proof {
                reveal_strlit("Q");
                assert(r@ =~= range_label(*range, date, date, date));
            }
            r
        },
        TimeRange::Week => {
            let first = week_first_day(date);
            let last = week_last_day(date);
            let mut r = iso_text(first);
            r.append(" - ");
            let l = iso_text(last);
            r.append(l.as_str());
            proof {
                reveal_strlit(" - ");
                assert(r@ =~= range_label(*range, date, first, last));
            }
            r
        },
        TimeRange::Month => {
            let mut r = int_text(date.year as i64);
            r.append("-");
            let n = int_text(date.month as i64);
            r.append(n.as_str());
            proof {
                reveal_strlit("-");
                assert(r@ =~= range_label(*range, date, date, date));
            }
            r
        },
        TimeRange::Day => {
            let r = iso_text(date);
            r
        },
    }
}

/// Falling in the same range is symmetric, and every date falls in the same
/// range as itself, for every granularity.
pub proof fn lemma_same_bucket_symmetric_reflexive(range: TimeRange, a: Date, b: Date)
    ensures
        same_bucket(range, a, b) == same_bucket(range, b, a),
        same_bucket(range, a, a),
{
}

} // verus!
