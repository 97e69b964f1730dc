//! Reports: selecting the records of a range, grouping them into buckets of
//! a finer range, and summing durations.

use vstd::prelude::*;

use crate::date::Date;
use crate::record::{Record, RecordView};
use crate::time_entry::{EntryView, TimeEntry};
use crate::time_range::{check_time_range, same_bucket, TimeRange};

verus! {

/// Index of the first bucket whose first member's date falls in the same
/// range as `d`, or the number of buckets where none does.
pub open spec fn first_match(bs: Seq<Seq<usize>>, dates: Seq<Date>, range: TimeRange, d: Date) -> int
    decreases bs.len(),
{
    if bs.len() == 0 {
        0
    } else {
        let f = first_match(bs.drop_last(), dates, range, d);
        if f < bs.len() - 1 {
            f
        } else if same_bucket(range, dates[bs.last()[0] as int], d) {
            bs.len() - 1
        } else {
            bs.len() as int
        }
    }
}

proof fn lemma_first_match_range(bs: Seq<Seq<usize>>, dates: Seq<Date>, range: TimeRange, d: Date)
    ensures
        0 <= first_match(bs, dates, range, d) <= bs.len(),
    decreases bs.len(),
{
    if bs.len() > 0 {
        lemma_first_match_range(bs.drop_last(), dates, range, d);
    }
}

/// Buckets of the first `n` dates, as indices: each date joins the first
/// bucket whose first member falls in the same range, or opens a new bucket.
pub open spec fn group_upto(dates: Seq<Date>, range: TimeRange, n: nat) -> Seq<Seq<usize>>
    decreases n,
{
    if n == 0 {
        Seq::empty()
    } else {
        let bs = group_upto(dates, range, (n - 1) as nat);
        let f = first_match(bs, dates, range, dates[n - 1]);
        if f < bs.len() {
            bs.update(f, bs[f].push((n - 1) as usize))
        } else {
            bs.push(seq![(n - 1) as usize])
        }
    }
}

/// Buckets of all the dates, as indices.
pub open spec fn group_of(dates: Seq<Date>, range: TimeRange) -> Seq<Seq<usize>> {
    group_upto(dates, range, dates.len())
}

/// Buckets hold indices below `n`, and each bucket has a first member.
pub open spec fn buckets_wf(bs: Seq<Seq<usize>>, n: nat) -> bool {
    forall|k: int|
        0 <= k < bs.len() ==> (#[trigger] bs[k]).len() >= 1 && forall|j: int|
            0 <= j < bs[k].len() ==> (#[trigger] bs[k][j]) < n
}

proof fn lemma_group_upto_wf(dates: Seq<Date>, range: TimeRange, n: nat)
    requires
        n <= dates.len() <= usize::MAX,
    ensures
        buckets_wf(group_upto(dates, range, n), n),
    decreases n,
{
    if n > 0 {
        lemma_group_upto_wf(dates, range, (n - 1) as nat);
        let bs = group_upto(dates, range, (n - 1) as nat);
        let f = first_match(bs, dates, range, dates[n - 1]);
        lemma_first_match_range(bs, dates, range, dates[n - 1]);
        let r = group_upto(dates, range, n);
        assert(r == if f < bs.len() {
            bs.update(f, bs[f].push((n - 1) as usize))
        } else {
            bs.push(seq![(n - 1) as usize])
        });
        assert forall|k: int| 0 <= k < r.len() implies (#[trigger] r[k]).len() >= 1 && forall|j: int|
            0 <= j < r[k].len() ==> (#[trigger] r[k][j]) < n by {
            if k < bs.len() {
                assert(bs[k].len() >= 1);
                if f < bs.len() && k == f {
                    assert(r[k] == bs[k].push((n - 1) as usize));
                    assert forall|j: int| 0 <= j < r[k].len() implies (#[trigger] r[k][j]) < n by {
                        if j < bs[k].len() {
                            assert(r[k][j] == bs[k][j]);
                        }
                    }
                } else {
                    assert(r[k] == bs[k]);
                    assert forall|j: int| 0 <= j < r[k].len() implies (#[trigger] r[k][j]) < n by {
                        assert(r[k][j] == bs[k][j]);
                    }
                }
            }
        }
    }
}

/// `first_match` is the first bucket that matches.
proof fn lemma_first_match_is_first(bs: Seq<Seq<usize>>, dates: Seq<Date>, range: TimeRange, d: Date, j: int)
    requires
        0 <= j <= bs.len(),
        forall|k: int| 0 <= k < j ==> !same_bucket(range, dates[(#[trigger] bs[k])[0] as int], d),
        j < bs.len() ==> same_bucket(range, dates[bs[j][0] as int], d),
    ensures
        first_match(bs, dates, range, d) == j,
    decreases bs.len(),
{
    if bs.len() > 0 {
        if j < bs.len() {
            if j < bs.len() - 1 {
                lemma_first_match_is_first(bs.drop_last(), dates, range, d, j);
            } else {
                lemma_first_match_is_first(bs.drop_last(), dates, range, d, j);
            }
        } else {
            lemma_first_match_is_first(bs.drop_last(), dates, range, d, j - 1);
        }
    }
}

pub open spec fn buckets_view(bs: Seq<Vec<usize>>) -> Seq<Seq<usize>> {
    bs.map_values(|b: Vec<usize>| b@)
}

/// Groups dates into buckets of the range, as indices into `dates`: in one
/// pass, each date joins the first bucket, in the order of creation, whose
/// first member falls in the same range, or opens a new bucket.
pub fn group_dates(dates: &Vec<Date>, range: &TimeRange) -> (r: Vec<Vec<usize>>)
    requires
        forall|i: int| 0 <= i < dates@.len() ==> (#[trigger] dates@[i]).wf(),
    ensures
        buckets_view(r@) == group_of(dates@, *range),
{
    let mut bs: Vec<Vec<usize>> = Vec::new();
    let mut i: usize = 0;
    while i < dates.len()
        invariant
            i <= dates@.len(),
            forall|i: int| 0 <= i < dates@.len() ==> (#[trigger] dates@[i]).wf(),
            buckets_view(bs@) == group_upto(dates@, *range, i as nat),
            buckets_wf(buckets_view(bs@), i as nat),
        decreases dates@.len() - i,
    {
        let ghost bv = buckets_view(bs@);
        assert forall|k: int| 0 <= k < bs@.len() implies (#[trigger] bs@[k])@.len() >= 1 && bs@[k]@[0] < i by {
            assert(bv[k] == bs@[k]@);
        }
        let mut j: usize = 0;
        while j < bs.len() && !check_time_range(range, dates[bs[j][0]], dates[i])
            invariant
                i < dates@.len(),
                j <= bs@.len(),
                bv == buckets_view(bs@),
                forall|i: int| 0 <= i < dates@.len() ==> (#[trigger] dates@[i]).wf(),
                buckets_wf(bv, i as nat),
                forall|k: int| 0 <= k < bs@.len() ==> (#[trigger] bs@[k])@.len() >= 1 && bs@[k]@[0] < i,
                forall|k: int| 0 <= k < j ==> !same_bucket(*range, dates@[(#[trigger] bv[k])[0] as int], dates@[i as int]),
            decreases bs@.len() - j,
        {
            assert(bv[j as int] == bs@[j as int]@);
            j = j + 1;
        }
        proof {
            if j < bs@.len() {
                assert(bv[j as int] == bs@[j as int]@);
            }
            lemma_first_match_is_first(bv, dates@, *range, dates@[i as int], j as int);
            lemma_group_upto_wf(dates@, *range, (i + 1) as nat);
        }
        if j < bs.len() {
            bs[j].push(i);
            assert(buckets_view(bs@) =~= bv.update(j as int, bv[j as int].push(i)));
        } else {
            let mut b: Vec<usize> = Vec::new();
            b.push(i);
            bs.push(b);
            assert(buckets_view(bs@) =~= bv.push(seq![i]));
        }
        i = i + 1;
    }
    bs
}

/// Whether `x` fits in `i64`.
pub open spec fn fits_i64(x: int) -> bool {
    i64::MIN <= x <= i64::MAX
}

/// Sum of the values, added from the first on, or `None` where a value is
/// missing or a partial sum leaves `i64`.
pub open spec fn checked_total(xs: Seq<Option<int>>) -> Option<int>
    decreases xs.len(),
{
    if xs.len() == 0 {
        Some(0)
    } else {
        match (checked_total(xs.drop_last()), xs.last()) {
            (Some(p), Some(x)) => if fits_i64(p + x) {
                Some(p + x)
            } else {
                None
            },
            _ => None,
        }
    }
}

pub open spec fn entry_totals(es: Seq<EntryView>) -> Seq<Option<int>> {
    es.map_values(|e: EntryView| Some(e.duration()))
}

/// Total minutes of a record's entries, summed in `i64`.
pub open spec fn record_total(r: RecordView) -> Option<int> {
    checked_total(entry_totals(r.entries))
}

pub open spec fn record_totals(recs: Seq<RecordView>, b: Seq<usize>) -> Seq<Option<int>> {
    b.map_values(|i: usize| record_total(recs[i as int]))
}

/// Total minutes of the records of a bucket, summed in `i64`.
pub open spec fn bucket_total(recs: Seq<RecordView>, b: Seq<usize>) -> Option<int> {
    checked_total(record_totals(recs, b))
}

pub open spec fn bucket_totals(recs: Seq<RecordView>, bs: Seq<Seq<usize>>) -> Seq<Option<int>> {
    bs.map_values(|b: Seq<usize>| bucket_total(recs, b))
}

/// Total minutes of all buckets, summed in `i64`.
pub open spec fn grand_total(recs: Seq<RecordView>, bs: Seq<Seq<usize>>) -> Option<int> {
    checked_total(bucket_totals(recs, bs))
}

/// `r` is the total `t`.
pub open spec fn is_total(r: Option<i64>, t: Option<int>) -> bool {
    match t {
        Some(v) => r == Some(v as i64),
        None => r is None,
    }
}

proof fn lemma_checked_total_fits(xs: Seq<Option<int>>)
    ensures
        checked_total(xs) matches Some(v) ==> fits_i64(v),
    decreases xs.len(),
{
    if xs.len() > 0 {
        lemma_checked_total_fits(xs.drop_last());
    }
}

proof fn lemma_record_total_fits(r: RecordView)
    ensures
        record_total(r) matches Some(v) ==> fits_i64(v),
{
    lemma_checked_total_fits(entry_totals(r.entries));
}

proof fn lemma_bucket_total_fits(recs: Seq<RecordView>, b: Seq<usize>)
    ensures
        bucket_total(recs, b) matches Some(v) ==> fits_i64(v),
{
    lemma_checked_total_fits(record_totals(recs, b));
}

/// Adds `x` to the running total `acc`, as `checked_total` does.
fn add_total(acc: Option<i64>, x: Option<i64>) -> (r: Option<i64>)
    ensures
        match (acc, x) {
            (Some(p), Some(v)) => if fits_i64(p + v) {
                r == Some((p + v) as i64)
            } else {
                r is None
            },
            _ => r is None,
        },
{
    match (acc, x) {
        (Some(p), Some(v)) => p.checked_add(v),
        _ => None,
    }
}

/// Total minutes of the entries of `record`; `None` where a partial sum
/// leaves `i64`.
pub fn record_duration(record: &Record) -> (r: Option<i64>)
    requires
        record.wf(),
    ensures
        is_total(r, record_total(record@)),
{
    let ghost xs = entry_totals(record@.entries);
    let mut acc: Option<i64> = Some(0);
    let mut k: usize = 0;
    assert(xs.subrange(0, 0) =~= Seq::<Option<int>>::empty());
    while k < record.entries.len()
        invariant
            k <= record.entries@.len(),
            record.wf(),
            xs == entry_totals(record@.entries),
            is_total(acc, checked_total(xs.subrange(0, k as int))),
        decreases record.entries@.len() - k,
    {
        assert(xs.subrange(0, k + 1).drop_last() =~= xs.subrange(0, k as int));
        let d = record.entries[k].get_info().duration;
        assert(record.entries@[k as int].wf());
        proof {
            lemma_checked_total_fits(xs.subrange(0, k as int));
        }
        acc = add_total(acc, Some(d));
        k = k + 1;
    }
    assert(xs.subrange(0, k as int) =~= xs);
    acc
}

/// Total minutes of the records of `bucket`, indices into `records`; `None`
/// where a partial sum leaves `i64`.
pub fn bucket_duration(records: &Vec<Record>, bucket: &Vec<usize>) -> (r: Option<i64>)
    requires
        forall|i: int| 0 <= i < records@.len() ==> (#[trigger] records@[i]).wf(),
        forall|j: int| 0 <= j < bucket@.len() ==> (#[trigger] bucket@[j]) < records@.len(),
    ensures
        is_total(r, bucket_total(crate::record::records_view(records@), bucket@)),
{
    let ghost recs = crate::record::records_view(records@);
    let ghost xs = record_totals(recs, bucket@);
    let mut acc: Option<i64> = Some(0);
    let mut k: usize = 0;
    assert(xs.subrange(0, 0) =~= Seq::<Option<int>>::empty());
    while k < bucket.len()
        invariant
            k <= bucket@.len(),
            forall|i: int| 0 <= i < records@.len() ==> (#[trigger] records@[i]).wf(),
            forall|j: int| 0 <= j < bucket@.len() ==> (#[trigger] bucket@[j]) < records@.len(),
            recs == crate::record::records_view(records@),
            xs == record_totals(recs, bucket@),
            is_total(acc, checked_total(xs.subrange(0, k as int))),
        decreases bucket@.len() - k,
    {
        assert(xs.subrange(0, k + 1).drop_last() =~= xs.subrange(0, k as int));
        let i = bucket[k];
        assert(bucket@[k as int] < records@.len());
        let d = record_duration(&records[i]);
        proof {
            lemma_checked_total_fits(xs.subrange(0, k as int));
            lemma_record_total_fits(recs[i as int]);
        }
        acc = add_total(acc, d);
        k = k + 1;
    }
    assert(xs.subrange(0, k as int) =~= xs);
    acc
}

/// Total minutes of all `buckets`, indices into `records`; `None` where a
/// partial sum leaves `i64`.
pub fn total_duration(records: &Vec<Record>, buckets: &Vec<Vec<usize>>) -> (r: Option<i64>)
    requires
        forall|i: int| 0 <= i < records@.len() ==> (#[trigger] records@[i]).wf(),
        forall|k: int, j: int|
            0 <= k < buckets@.len() && 0 <= j < buckets@[k]@.len() ==> (#[trigger] buckets@[k]@[j])
                < records@.len(),
    ensures
        is_total(r, grand_total(crate::record::records_view(records@), buckets_view(buckets@))),
{
    let ghost recs = crate::record::records_view(records@);
    let ghost bv = buckets_view(buckets@);
    let ghost xs = bucket_totals(recs, bv);
    let mut acc: Option<i64> = Some(0);
    let mut k: usize = 0;
    assert(xs.subrange(0, 0) =~= Seq::<Option<int>>::empty());
    while k < buckets.len()
        invariant
            k <= buckets@.len(),
            forall|i: int| 0 <= i < records@.len() ==> (#[trigger] records@[i]).wf(),
            forall|k: int, j: int|
                0 <= k < buckets@.len() && 0 <= j < buckets@[k]@.len() ==> (#[trigger] buckets@[k]@[j])
                    < records@.len(),
            recs == crate::record::records_view(records@),
            bv == buckets_view(buckets@),
            xs == bucket_totals(recs, bv),
            is_total(acc, checked_total(xs.subrange(0, k as int))),
        decreases buckets@.len() - k,
    {
        assert(xs.subrange(0, k + 1).drop_last() =~= xs.subrange(0, k as int));
        let d = bucket_duration(records, &buckets[k]);
        proof {
            lemma_checked_total_fits(xs.subrange(0, k as int));
            lemma_bucket_total_fits(recs, bv[k as int]);
        }
        acc = add_total(acc, d);
        k = k + 1;
    }
    assert(xs.subrange(0, k as int) =~= xs);
    acc
}

/// The records whose date falls in the same range as `reference`, in order.
pub open spec fn selected(recs: Seq<RecordView>, range: TimeRange, reference: Date) -> Seq<RecordView>
    decreases recs.len(),
{
    if recs.len() == 0 {
        Seq::empty()
    } else {
        let s = selected(recs.drop_last(), range, reference);
        if same_bucket(range, reference, recs.last().date) {
            s.push(recs.last())
        } else {
            s
        }
    }
}

/// Keeps the records whose date falls in the same range as `reference`, in
/// their order.
pub fn select_records(records: Vec<Record>, range: &TimeRange, reference: Date) -> (r: Vec<Record>)
    requires
        reference.wf(),
        forall|i: int| 0 <= i < records@.len() ==> (#[trigger] records@[i]).wf(),
    ensures
        crate::record::records_view(r@) == selected(crate::record::records_view(records@), *range, reference),
        forall|i: int| 0 <= i < r@.len() ==> (#[trigger] r@[i]).wf(),
{
    let ghost orig = records@;
    let ghost n = records@.len();
    let mut records = records;
    let mut rev: Vec<Record> = Vec::new();
    while records.len() > 0
        invariant
            records@.len() + rev@.len() == n,
            n == orig.len(),
            forall|j: int| 0 <= j < records@.len() ==> records@[j] == orig[j],
            forall|j: int| 0 <= j < rev@.len() ==> rev@[j] == orig[n - 1 - j],
        decreases records@.len(),
    {
        match records.pop() {
            Some(x) => rev.push(x),
            None => {},
        }
    }
    let ghost recs = crate::record::records_view(orig);
    let mut out: Vec<Record> = Vec::new();
    assert(recs.subrange(0, 0) =~= Seq::<RecordView>::empty());
    assert(crate::record::records_view(out@) =~= Seq::<RecordView>::empty());
    while rev.len() > 0
        invariant
            rev@.len() <= n,
            n == orig.len(),
            reference.wf(),
            forall|i: int| 0 <= i < orig.len() ==> (#[trigger] orig[i]).wf(),
            recs == crate::record::records_view(orig),
            forall|j: int| 0 <= j < rev@.len() ==> rev@[j] == orig[n - 1 - j],
            crate::record::records_view(out@) == selected(recs.subrange(0, n - rev@.len()), *range, reference),
            forall|i: int| 0 <= i < out@.len() ==> (#[trigger] out@[i]).wf(),
        decreases rev@.len(),
    {
        let ghost k = n - rev@.len();
        assert(recs.subrange(0, k + 1).drop_last() =~= recs.subrange(0, k));
        match rev.pop() {
            Some(x) => {
                assert(x == orig[k]);
                if check_time_range(range, reference, x.date) {
                    let ghost before = crate::record::records_view(out@);
                    out.push(x);
                    assert(crate::record::records_view(out@) =~= before.push(recs[k]));
                }
            },
            None => {},
        }
    }
    assert(recs.subrange(0, n as int) =~= recs);
    out
}

/// The dates of the records, in order.
pub fn record_dates(records: &Vec<Record>) -> (r: Vec<Date>)
    ensures
        r@.len() == records@.len(),
        forall|i: int| 0 <= i < r@.len() ==> r@[i] == (#[trigger] records@[i]).date,
{
    let mut r: Vec<Date> = Vec::new();
    let mut k: usize = 0;
    while k < records.len()
        invariant
            k <= records@.len(),
            r@.len() == k,
            forall|i: int| 0 <= i < k ==> r@[i] == (#[trigger] records@[i]).date,
        decreases records@.len() - k,
    {
        r.push(records[k].date);
        k = k + 1;
    }
    r
}

/// Why a day summary cannot be given.
#[derive(Clone, Copy, Debug, PartialEq, Eq, Structural)]
pub enum ReportError {
    /// The day has no range entry, so its start and end are unknown.
    NoRangeData,
    /// A sum of minutes leaves `i64`.
    Overflow,
}

/// A day's row: its day of month, first start and last end in minutes after
/// midnight, the span between them, the time worked, and the span less the
/// time worked.
#[derive(Clone, Copy, Debug, PartialEq, Eq, Structural)]
pub struct DaySummary {
    pub day: u32,
    pub start: u32,
    pub end: u32,
    pub span: i64,
    pub overtime: i128,
    pub worked: i64,
}

/// Start and end of the range entries among `es`, in order.
pub open spec fn entry_ranges(es: Seq<EntryView>) -> Seq<(int, int)>
    decreases es.len(),
{
    if es.len() == 0 {
        Seq::empty()
    } else {
        let r = entry_ranges(es.drop_last());
        match es.last() {
            EntryView::Range { start, end, .. } => r.push((start, end)),
            _ => r,
        }
    }
}

/// Start and end of the range entries of the records of a bucket, in order.
pub open spec fn bucket_ranges(recs: Seq<RecordView>, b: Seq<usize>) -> Seq<(int, int)>
    decreases b.len(),
{
    if b.len() == 0 {
        Seq::empty()
    } else {
        bucket_ranges(recs, b.drop_last()) + entry_ranges(recs[b.last() as int].entries)
    }
}

/// `lo` is the least start and `hi` the greatest end of `rs`.
pub open spec fn spans_all(rs: Seq<(int, int)>, lo: int, hi: int) -> bool {
    &&& exists|j: int| 0 <= j < rs.len() && rs[j].0 == lo
    &&& exists|j: int| 0 <= j < rs.len() && rs[j].1 == hi
    &&& forall|j: int| 0 <= j < rs.len() ==> lo <= (#[trigger] rs[j]).0 && rs[j].1 <= hi
}

/// The summary row of a bucket, or why there is none: no range entry among
/// its records, or minutes that leave `i64`.
pub fn day_summary(records: &Vec<Record>, bucket: &Vec<usize>) -> (r: Result<DaySummary, ReportError>)
    requires
        forall|i: int| 0 <= i < records@.len() ==> (#[trigger] records@[i]).wf(),
        forall|j: int| 0 <= j < bucket@.len() ==> (#[trigger] bucket@[j]) < records@.len(),
        bucket@.len() >= 1,
    ensures
        ({
            let recs = crate::record::records_view(records@);
            let rs = bucket_ranges(recs, bucket@);
            if rs.len() == 0 {
                r == Err::<DaySummary, ReportError>(ReportError::NoRangeData)
            } else {
                match bucket_total(recs, bucket@) {
                    None => r == Err::<DaySummary, ReportError>(ReportError::Overflow),
                    Some(w) => r matches Ok(s) && spans_all(rs, s.start as int, s.end as int)
                        && s.day == recs[bucket@[0] as int].date.day && s.span == s.end - s.start
                        && s.worked == w && s.overtime == s.span - w,
                }
            }
        }),
{
    let ghost recs = crate::record::records_view(records@);
    let mut found = false;
    let mut lo: u32 = 0;
    let mut hi: u32 = 0;
    let mut m: usize = 0;
    assert(bucket@.subrange(0, 0) =~= Seq::<usize>::empty());
    while m < bucket.len()
        invariant
            m <= bucket@.len(),
            forall|i: int| 0 <= i < records@.len() ==> (#[trigger] records@[i]).wf(),
            forall|j: int| 0 <= j < bucket@.len() ==> (#[trigger] bucket@[j]) < records@.len(),
            recs == crate::record::records_view(records@),
            found == (bucket_ranges(recs, bucket@.subrange(0, m as int)).len() > 0),
            found ==> spans_all(bucket_ranges(recs, bucket@.subrange(0, m as int)), lo as int, hi as int),
        decreases bucket@.len() - m,
    {
        let rec = &records[bucket[m]];
        assert(rec.wf());
        let ghost before = bucket_ranges(recs, bucket@.subrange(0, m as int));
        let ghost es = rec@.entries;
        assert(bucket@.subrange(0, m + 1).drop_last() =~= bucket@.subrange(0, m as int));
        assert(recs[bucket@[m as int] as int] == rec@);
        let mut k: usize = 0;
        assert(es.subrange(0, 0) =~= Seq::<EntryView>::empty());
        assert(before + entry_ranges(es.subrange(0, 0)) =~= before);
        while k < rec.entries.len()
            invariant
                k <= rec.entries@.len(),
                rec.wf(),
                es == rec@.entries,
                found == ((before + entry_ranges(es.subrange(0, k as int))).len() > 0),
                found ==> spans_all(before + entry_ranges(es.subrange(0, k as int)), lo as int, hi as int),
            decreases rec.entries@.len() - k,
        {
            let ghost p = before + entry_ranges(es.subrange(0, k as int));
            assert(es.subrange(0, k + 1).drop_last() =~= es.subrange(0, k as int));
            assert(es[k as int] == rec.entries@[k as int]@);
            match &rec.entries[k] {
                TimeEntry::Range(e) => {
                    let ghost q = p.push((e.start as int, e.end as int));
                    assert(before + entry_ranges(es.subrange(0, k + 1)) =~= q);
                    if !found || e.start < lo {
                        lo = e.start;
                    }
                    if !found || e.end > hi {
                        hi = e.end;
                    }
                    found = true;
                    assert(q[q.len() - 1] == (e.start as int, e.end as int));
                    assert forall|j: int| 0 <= j < q.len() implies lo <= (#[trigger] q[j]).0 && q[j].1 <= hi by {
                        if j < p.len() {
                            assert(q[j] == p[j]);
                        }
                    }
                    proof {
                        if lo == e.start {
                            assert(q[q.len() - 1].0 == lo);
                        } else {
                            let j = choose|j: int| 0 <= j < p.len() && p[j].0 == lo;
                            assert(q[j] == p[j]);
                        }
                        if hi == e.end {
                            assert(q[q.len() - 1].1 == hi);
                        } else {
                            let j = choose|j: int| 0 <= j < p.len() && p[j].1 == hi;
                            assert(q[j] == p[j]);
                        }
                    }
                },
                TimeEntry::Duration(_) => {
                    assert(before + entry_ranges(es.subrange(0, k + 1)) =~= p);
                },
            }
            k = k + 1;
        }
        assert(es.subrange(0, k as int) =~= es);
        assert(bucket_ranges(recs, bucket@.subrange(0, m + 1)) == before + entry_ranges(es));
        m = m + 1;
    }
    assert(bucket@.subrange(0, m as int) =~= bucket@);
    if !found {
        return Err(ReportError::NoRangeData);
    }
    match bucket_duration(records, bucket) {
        None => Err(ReportError::Overflow),
        Some(w) => {
            let span = hi as i64 - lo as i64;
            let day = records[bucket[0]].date.day;
            Ok(DaySummary { day, start: lo, end: hi, span, overtime: span as i128 - w as i128, worked: w })
        },
    }
}

/// Sum of the present values; a missing value counts as zero.
pub open spec fn opt_sum(xs: Seq<Option<int>>) -> int
    decreases xs.len(),
{
    if xs.len() == 0 {
        0
    } else {
        opt_sum(xs.drop_last()) + match xs.last() {
            Some(x) => x,
            None => 0,
        }
    }
}

/// Plain sum of the durations of entries.
pub open spec fn entries_minutes(es: Seq<EntryView>) -> int
    decreases es.len(),
{
    if es.len() == 0 {
        0
    } else {
        entries_minutes(es.drop_last()) + es.last().duration()
    }
}

/// Plain sum of the durations of all entries of the records of a bucket.
pub open spec fn bucket_minutes(recs: Seq<RecordView>, b: Seq<usize>) -> int
    decreases b.len(),
{
    if b.len() == 0 {
        0
    } else {
        bucket_minutes(recs, b.drop_last()) + entries_minutes(recs[b.last() as int].entries)
    }
}

/// Plain sum of the durations of all entries of all buckets.
pub open spec fn buckets_minutes(recs: Seq<RecordView>, bs: Seq<Seq<usize>>) -> int
    decreases bs.len(),
{
    if bs.len() == 0 {
        0
    } else {
        buckets_minutes(recs, bs.drop_last()) + bucket_minutes(recs, bs.last())
    }
}

/// Plain sum of the durations of all entries of the first `n` records.
pub open spec fn records_minutes(recs: Seq<RecordView>, n: nat) -> int
    decreases n,
{
    if n == 0 {
        0
    } else {
        records_minutes(recs, (n - 1) as nat) + entries_minutes(recs[n - 1].entries)
    }
}

/// The dates of the records.
pub open spec fn dates_of(recs: Seq<RecordView>) -> Seq<Date> {
    recs.map_values(|r: RecordView| r.date)
}

proof fn lemma_checked_total_sum(xs: Seq<Option<int>>)
    ensures
        checked_total(xs) is Some ==> checked_total(xs) == Some(opt_sum(xs)) && forall|i: int|
            0 <= i < xs.len() ==> (#[trigger] xs[i]) is Some,
    decreases xs.len(),
{
    if xs.len() > 0 {
        lemma_checked_total_sum(xs.drop_last());
        if checked_total(xs) is Some {
            assert forall|i: int| 0 <= i < xs.len() implies (#[trigger] xs[i]) is Some by {
                if i < xs.len() - 1 {
                    assert(xs.drop_last()[i] == xs[i]);
                }
            }
        }
    }
}

proof fn lemma_record_total_sum(r: RecordView)
    ensures
        record_total(r) is Some ==> record_total(r) == Some(entries_minutes(r.entries)),
{
    lemma_checked_total_sum(entry_totals(r.entries));
    lemma_opt_sum_entries(r.entries);
}

proof fn lemma_opt_sum_entries(es: Seq<EntryView>)
    ensures
        opt_sum(entry_totals(es)) == entries_minutes(es),
    decreases es.len(),
{
    if es.len() > 0 {
        assert(entry_totals(es).drop_last() =~= entry_totals(es.drop_last()));
        lemma_opt_sum_entries(es.drop_last());
    }
}

proof fn lemma_bucket_total_sum(recs: Seq<RecordView>, b: Seq<usize>)
    requires
        forall|j: int| 0 <= j < b.len() ==> (#[trigger] b[j]) < recs.len(),
    ensures
        bucket_total(recs, b) is Some ==> bucket_total(recs, b) == Some(bucket_minutes(recs, b)),
{
    let xs = record_totals(recs, b);
    lemma_checked_total_sum(xs);
    if bucket_total(recs, b) is Some {
        lemma_opt_sum_records(recs, b);
    }
}

proof fn lemma_opt_sum_records(recs: Seq<RecordView>, b: Seq<usize>)
    requires
        forall|j: int| 0 <= j < b.len() ==> (#[trigger] record_totals(recs, b)[j]) is Some,
    ensures
        opt_sum(record_totals(recs, b)) == bucket_minutes(recs, b),
    decreases b.len(),
{
    if b.len() > 0 {
        let xs = record_totals(recs, b);
        assert(xs.drop_last() =~= record_totals(recs, b.drop_last()));
        assert forall|j: int| 0 <= j < b.len() - 1 implies (#[trigger] record_totals(recs, b.drop_last())[j]) is Some by {
            assert(xs[j] is Some);
        }
        lemma_opt_sum_records(recs, b.drop_last());
        assert(xs[b.len() - 1] is Some);
        lemma_record_total_sum(recs[b.last() as int]);
    }
}

proof fn lemma_opt_sum_buckets(recs: Seq<RecordView>, bs: Seq<Seq<usize>>)
    requires
        forall|j: int| 0 <= j < bs.len() ==> (#[trigger] bucket_totals(recs, bs)[j]) is Some,
        forall|k: int, j: int| 0 <= k < bs.len() && 0 <= j < bs[k].len() ==> (#[trigger] bs[k][j]) < recs.len(),
    ensures
        opt_sum(bucket_totals(recs, bs)) == buckets_minutes(recs, bs),
    decreases bs.len(),
{
    if bs.len() > 0 {
        let xs = bucket_totals(recs, bs);
        assert(xs.drop_last() =~= bucket_totals(recs, bs.drop_last()));
        assert forall|j: int| 0 <= j < bs.len() - 1 implies (#[trigger] bucket_totals(recs, bs.drop_last())[j]) is Some by {
            assert(xs[j] is Some);
        }
        lemma_opt_sum_buckets(recs, bs.drop_last());
        assert(xs[bs.len() - 1] is Some);
        let last = bs.last();
        assert forall|j: int| 0 <= j < last.len() implies (#[trigger] last[j]) < recs.len() by {
            assert(bs[bs.len() - 1][j] < recs.len());
        }
        lemma_bucket_total_sum(recs, last);
    }
}

proof fn lemma_buckets_minutes_update(recs: Seq<RecordView>, bs: Seq<Seq<usize>>, f: int, v: Seq<usize>)
    requires
        0 <= f < bs.len(),
    ensures
        buckets_minutes(recs, bs.update(f, v)) == buckets_minutes(recs, bs) - bucket_minutes(recs, bs[f])
            + bucket_minutes(recs, v),
    decreases bs.len(),
{
    let u = bs.update(f, v);
    if f < bs.len() - 1 {
        assert(u.drop_last() =~= bs.drop_last().update(f, v));
        lemma_buckets_minutes_update(recs, bs.drop_last(), f, v);
    } else {
        assert(u.drop_last() =~= bs.drop_last());
    }
}

proof fn lemma_group_minutes(recs: Seq<RecordView>, range: TimeRange, n: nat)
    requires
        n <= recs.len() <= usize::MAX,
    ensures
        buckets_minutes(recs, group_upto(dates_of(recs), range, n)) == records_minutes(recs, n),
    decreases n,
{
    if n > 0 {
        let dates = dates_of(recs);
        lemma_group_minutes(recs, range, (n - 1) as nat);
        let bs = group_upto(dates, range, (n - 1) as nat);
        let f = first_match(bs, dates, range, dates[n - 1]);
        lemma_first_match_range(bs, dates, range, dates[n - 1]);
        let x = (n - 1) as usize;
        assert(x as int == n - 1);
        if f < bs.len() {
            let v = bs[f].push(x);
            assert(group_upto(dates, range, n) == bs.update(f, v));
            lemma_buckets_minutes_update(recs, bs, f, v);
            assert(v.drop_last() =~= bs[f]);
            assert(v.last() == x);
            assert(bucket_minutes(recs, v) == bucket_minutes(recs, bs[f]) + entries_minutes(recs[n - 1].entries));
        } else {
            let one = seq![x];
            assert(group_upto(dates, range, n) == bs.push(one));
            assert(bs.push(one).drop_last() =~= bs);
            assert(one.drop_last() =~= Seq::<usize>::empty());
            assert(bucket_minutes(recs, Seq::<usize>::empty()) == 0);
            assert(one.last() == x);
            assert(bucket_minutes(recs, one) == entries_minutes(recs[n - 1].entries));
        }
    }
}

/// Summing by buckets gives the plain sum of all entries: where the total of
/// the buckets that grouping the records yields fits in `i64`, it is the sum
/// of the durations of every entry of every record, whatever the range.
pub proof fn lemma_total_is_sum_of_entries(recs: Seq<RecordView>, range: TimeRange)
    requires
        recs.len() <= usize::MAX,
    ensures
        grand_total(recs, group_of(dates_of(recs), range)) matches Some(t) ==> t == records_minutes(
            recs,
            recs.len(),
        ),
{
    let dates = dates_of(recs);
    let bs = group_of(dates, range);
    lemma_group_upto_wf(dates, range, recs.len());
    lemma_checked_total_sum(bucket_totals(recs, bs));
    if grand_total(recs, bs) is Some {
        assert forall|k: int, j: int| 0 <= k < bs.len() && 0 <= j < bs[k].len() implies (#[trigger] bs[k][j]) < recs.len() by {
            assert(bs[k].len() >= 1);
        }
        lemma_opt_sum_buckets(recs, bs);
        lemma_group_minutes(recs, range, recs.len());
    }
}

/// Indices below `n` of the dates equal to `d`, in order.
pub open spec fn indices_of(dates: Seq<Date>, d: Date, n: nat) -> Seq<usize>
    decreases n,
{
    if n == 0 {
        Seq::empty()
    } else {
        let s = indices_of(dates, d, (n - 1) as nat);
        if dates[n - 1] == d {
            s.push((n - 1) as usize)
        } else {
            s
        }
    }
}

/// The date of the first member of bucket `k`.
pub open spec fn rep(dates: Seq<Date>, bs: Seq<Seq<usize>>, k: int) -> Date {
    dates[bs[k][0] as int]
}

proof fn lemma_first_match_props(bs: Seq<Seq<usize>>, dates: Seq<Date>, range: TimeRange, d: Date)
    ensures
        first_match(bs, dates, range, d) < bs.len() ==> same_bucket(
            range,
            rep(dates, bs, first_match(bs, dates, range, d)),
            d,
        ),
        first_match(bs, dates, range, d) == bs.len() ==> forall|k: int|
            0 <= k < bs.len() ==> !same_bucket(range, #[trigger] rep(dates, bs, k), d),
    decreases bs.len(),
{
    if bs.len() > 0 {
        lemma_first_match_props(bs.drop_last(), dates, range, d);
        lemma_first_match_range(bs.drop_last(), dates, range, d);
        let f = first_match(bs.drop_last(), dates, range, d);
        if f < bs.len() - 1 {
            assert(bs.drop_last()[f] == bs[f]);
        } else {
            assert forall|k: int| 0 <= k < bs.len() - 1 implies rep(dates, bs, k) == rep(dates, bs.drop_last(), k) by {
                assert(bs.drop_last()[k] == bs[k]);
            }
        }
    }
}

proof fn lemma_indices_none(dates: Seq<Date>, d: Date, m: nat)
    requires
        m <= dates.len(),
        forall|i: int| 0 <= i < m ==> dates[i] != d,
    ensures
        indices_of(dates, d, m) == Seq::<usize>::empty(),
    decreases m,
{
    if m > 0 {
        lemma_indices_none(dates, d, (m - 1) as nat);
    }
}

/// Grouping by day, up to `n`, gives one bucket per day.
proof fn lemma_day_buckets_upto(dates: Seq<Date>, n: nat)
    requires
        n <= dates.len() <= usize::MAX,
    ensures
        ({
            let bs = group_upto(dates, TimeRange::Day, n);
            &&& forall|k: int|
                0 <= k < bs.len() ==> (#[trigger] bs[k]) == indices_of(dates, rep(dates, bs, k), n)
            &&& forall|k1: int, k2: int|
                0 <= k1 < bs.len() && 0 <= k2 < bs.len() && k1 != k2 ==> #[trigger] rep(dates, bs, k1)
                    != #[trigger] rep(dates, bs, k2)
            &&& forall|i: int| #![trigger dates[i]] 0 <= i < n ==> exists|k: int| 0 <= k < bs.len() && #[trigger] rep(dates, bs, k) == dates[i]
        }),
    decreases n,
{
    if n > 0 {
        let m = (n - 1) as nat;
        lemma_day_buckets_upto(dates, m);
        lemma_group_upto_wf(dates, TimeRange::Day, m);
        let bs = group_upto(dates, TimeRange::Day, m);
        let d = dates[n - 1];
        let x = m as usize;
        assert(x as int == m);
        let f = first_match(bs, dates, TimeRange::Day, d);
        lemma_first_match_range(bs, dates, TimeRange::Day, d);
        lemma_first_match_props(bs, dates, TimeRange::Day, d);
        let r = group_upto(dates, TimeRange::Day, n);
        if f < bs.len() {
            assert(r == bs.update(f, bs[f].push(x)));
            assert(bs[f].len() >= 1);
            assert forall|k: int| 0 <= k < r.len() implies rep(dates, r, k) == rep(dates, bs, k) by {
                assert(bs[k].len() >= 1);
                if k == f {
                    assert(r[k][0] == bs[k][0]);
                }
            }
            assert forall|k: int| 0 <= k < r.len() implies (#[trigger] r[k]) == indices_of(dates, rep(dates, r, k), n) by {
                assert(rep(dates, r, k) == rep(dates, bs, k));
                if k != f {
                    assert(rep(dates, bs, k) != rep(dates, bs, f));
                }
            }
            assert forall|i: int| #![trigger dates[i]] 0 <= i < n implies exists|k: int| 0 <= k < r.len() && #[trigger] rep(dates, r, k) == dates[i] by {
                if i < m {
                    let k = choose|k: int| 0 <= k < bs.len() && #[trigger] rep(dates, bs, k) == dates[i];
                    assert(rep(dates, r, k) == rep(dates, bs, k));
                } else {
                    assert(rep(dates, r, f) == rep(dates, bs, f));
                }
            }
            assert forall|k1: int, k2: int|
                0 <= k1 < r.len() && 0 <= k2 < r.len() && k1 != k2 implies #[trigger] rep(dates, r, k1)
                    != #[trigger] rep(dates, r, k2) by {
                assert(rep(dates, r, k1) == rep(dates, bs, k1));
                assert(rep(dates, r, k2) == rep(dates, bs, k2));
            }
        } else {
            let one = seq![x];
            assert(r == bs.push(one));
            assert forall|i: int| 0 <= i < m implies dates[i] != d by {
                let k = choose|k: int| 0 <= k < bs.len() && #[trigger] rep(dates, bs, k) == dates[i];
                assert(!same_bucket(TimeRange::Day, rep(dates, bs, k), d));
            }
            lemma_indices_none(dates, d, m);
            assert(rep(dates, r, bs.len() as int) == d);
            assert(one =~= Seq::<usize>::empty().push(x));
            assert forall|k: int| 0 <= k < bs.len() implies rep(dates, r, k) == rep(dates, bs, k) by {
                assert(r[k] == bs[k]);
            }
            assert forall|k: int| 0 <= k < r.len() implies (#[trigger] r[k]) == indices_of(dates, rep(dates, r, k), n) by {
                if k < bs.len() {
                    assert(rep(dates, r, k) == rep(dates, bs, k));
                    assert(!same_bucket(TimeRange::Day, rep(dates, bs, k), d));
                }
            }
            assert forall|i: int| #![trigger dates[i]] 0 <= i < n implies exists|k: int| 0 <= k < r.len() && #[trigger] rep(dates, r, k) == dates[i] by {
                if i < m {
                    let k = choose|k: int| 0 <= k < bs.len() && #[trigger] rep(dates, bs, k) == dates[i];
                    assert(rep(dates, r, k) == rep(dates, bs, k));
                } else {
                    assert(rep(dates, r, bs.len() as int) == d);
                }
            }
            assert forall|k1: int, k2: int|
                0 <= k1 < r.len() && 0 <= k2 < r.len() && k1 != k2 implies #[trigger] rep(dates, r, k1)
                    != #[trigger] rep(dates, r, k2) by {
                if k1 < bs.len() {
                    assert(rep(dates, r, k1) == rep(dates, bs, k1));
                    assert(!same_bucket(TimeRange::Day, rep(dates, bs, k1), d));
                }
                if k2 < bs.len() {
                    assert(rep(dates, r, k2) == rep(dates, bs, k2));
                    assert(!same_bucket(TimeRange::Day, rep(dates, bs, k2), d));
                }
            }
        }
    }
}

/// Grouping by day gives one bucket per distinct date: each bucket holds
/// exactly the indices of the dates equal to its first member's date, so its
/// size is the number of records of that day; no two buckets share a date;
/// and every date has its bucket.
pub proof fn lemma_day_buckets(dates: Seq<Date>)
    requires
        dates.len() <= usize::MAX,
    ensures
        ({
            let bs = group_of(dates, TimeRange::Day);
            &&& forall|k: int|
                0 <= k < bs.len() ==> (#[trigger] bs[k]) == indices_of(dates, rep(dates, bs, k), dates.len())
                    && bs[k].len() == indices_of(dates, rep(dates, bs, k), dates.len()).len()
            &&& forall|k1: int, k2: int|
                0 <= k1 < bs.len() && 0 <= k2 < bs.len() && k1 != k2 ==> #[trigger] rep(dates, bs, k1)
                    != #[trigger] rep(dates, bs, k2)
            &&& forall|i: int|
                #![trigger dates[i]]
                0 <= i < dates.len() ==> exists|k: int| 0 <= k < bs.len() && #[trigger] rep(dates, bs, k) == dates[i]
        }),
{
    lemma_day_buckets_upto(dates, dates.len());
    let bs = group_of(dates, TimeRange::Day);
    assert(bs == group_upto(dates, TimeRange::Day, dates.len()));
    assert forall|i: int| #![trigger dates[i]] 0 <= i < dates.len() implies exists|k: int| 0 <= k < bs.len() && #[trigger] rep(dates, bs, k) == dates[i] by {
        assert(0 <= i < dates.len() as nat);
    }
}

/// Some bucket holds index `i`.
pub open spec fn placed(bs: Seq<Seq<usize>>, i: int) -> bool {
    exists|k: int, j: int| 0 <= k < bs.len() && 0 <= j < bs[k].len() && #[trigger] bs[k][j] == i
}

/// The buckets place each of the first `n` indices exactly once, each in a
/// bucket whose first member falls in the same range.
pub open spec fn places_each_once(bs: Seq<Seq<usize>>, dates: Seq<Date>, range: TimeRange, n: nat) -> bool {
    &&& forall|i: int| 0 <= i < n ==> #[trigger] placed(bs, i)
    &&& forall|k1: int, j1: int, k2: int, j2: int|
        0 <= k1 < bs.len() && 0 <= j1 < bs[k1].len() && 0 <= k2 < bs.len() && 0 <= j2 < bs[k2].len()
            && #[trigger] bs[k1][j1] == #[trigger] bs[k2][j2] ==> k1 == k2 && j1 == j2
    &&& forall|k: int, j: int|
        0 <= k < bs.len() && 0 <= j < bs[k].len() ==> same_bucket(range, rep(dates, bs, k), dates[#[trigger] bs[k][j] as int])
}

proof fn lemma_group_upto_places(dates: Seq<Date>, range: TimeRange, n: nat)
    requires
        n <= dates.len() <= usize::MAX,
    ensures
        places_each_once(group_upto(dates, range, n), dates, range, n),
    decreases n,
{
    if n > 0 {
        let m = (n - 1) as nat;
        lemma_group_upto_places(dates, range, m);
        lemma_group_upto_wf(dates, range, m);
        let bs = group_upto(dates, range, m);
        let d = dates[n - 1];
        let x = m as usize;
        assert(x as int == m);
        let f = first_match(bs, dates, range, d);
        lemma_first_match_range(bs, dates, range, d);
        lemma_first_match_props(bs, dates, range, d);
        let r = group_upto(dates, range, n);
        if f < bs.len() {
            assert(r == bs.update(f, bs[f].push(x)));
            assert(bs[f].len() >= 1);
            assert forall|k: int, j: int| 0 <= k < r.len() && 0 <= j < r[k].len() implies
                (k < bs.len() && j < bs[k].len() && #[trigger] r[k][j] == bs[k][j]) || (k == f && j == bs[f].len() && r[k][j] == x) by {
            }
            assert forall|i: int| 0 <= i < n implies #[trigger] placed(r, i) by {
                if i < m {
                    assert(placed(bs, i));
                    let (k, j) = choose|k: int, j: int| 0 <= k < bs.len() && 0 <= j < bs[k].len() && #[trigger] bs[k][j] == i;
                    if k == f {
                        assert(r[k] == bs[f].push(x));
                    }
                    assert(r[k][j] == bs[k][j]);
                    assert(placed(r, i));
                } else {
                    assert(r[f][bs[f].len() as int] == x);
                    assert(placed(r, i));
                }
            }
            assert forall|k1: int, j1: int, k2: int, j2: int|
                0 <= k1 < r.len() && 0 <= j1 < r[k1].len() && 0 <= k2 < r.len() && 0 <= j2 < r[k2].len()
                    && #[trigger] r[k1][j1] == #[trigger] r[k2][j2] implies k1 == k2 && j1 == j2 by {
                if k1 < bs.len() && j1 < bs[k1].len() {
                    assert(bs[k1][j1] < m);
                }
                if k2 < bs.len() && j2 < bs[k2].len() {
                    assert(bs[k2][j2] < m);
                }
            }
            assert forall|k: int, j: int| 0 <= k < r.len() && 0 <= j < r[k].len() implies same_bucket(
                range, rep(dates, r, k), dates[#[trigger] r[k][j] as int]) by {
                assert(r[k][0] == bs[k][0]);
            }
            assert(places_each_once(r, dates, range, n));
        } else {
            assert(r == bs.push(seq![x]));
            assert forall|k: int, j: int| 0 <= k < r.len() && 0 <= j < r[k].len() implies
                (k < bs.len() && #[trigger] r[k][j] == bs[k][j]) || (k == bs.len() && j == 0 && r[k][j] == x) by {
            }
            assert forall|i: int| 0 <= i < n implies #[trigger] placed(r, i) by {
                if i < m {
                    assert(placed(bs, i));
                    let (k, j) = choose|k: int, j: int| 0 <= k < bs.len() && 0 <= j < bs[k].len() && #[trigger] bs[k][j] == i;
                    assert(r[k] == bs[k]);
                    assert(r[k][j] == bs[k][j]);
                    assert(placed(r, i));
                } else {
                    assert(r[bs.len() as int][0] == x);
                    assert(placed(r, i));
                }
            }
            assert forall|k1: int, j1: int, k2: int, j2: int|
                0 <= k1 < r.len() && 0 <= j1 < r[k1].len() && 0 <= k2 < r.len() && 0 <= j2 < r[k2].len()
                    && #[trigger] r[k1][j1] == #[trigger] r[k2][j2] implies k1 == k2 && j1 == j2 by {
                if k1 < bs.len() {
                    assert(bs[k1][j1] < m);
                }
                if k2 < bs.len() {
                    assert(bs[k2][j2] < m);
                }
            }
            assert forall|k: int, j: int| 0 <= k < r.len() && 0 <= j < r[k].len() implies same_bucket(
                range, rep(dates, r, k), dates[#[trigger] r[k][j] as int]) by {
                if k < bs.len() {
                    assert(r[k] == bs[k]);
                } else {
                    crate::time_range::lemma_same_bucket_symmetric_reflexive(range, d, d);
                }
            }
            assert(places_each_once(r, dates, range, n));
        }
    }
}

/// Grouping places every date in exactly one bucket, exactly once, and in a
/// bucket whose first member's date falls in the same range, for every range.
pub proof fn lemma_group_places_each_once(dates: Seq<Date>, range: TimeRange)
    requires
        dates.len() <= usize::MAX,
    ensures
        places_each_once(group_of(dates, range), dates, range, dates.len()),
{
    lemma_group_upto_places(dates, range, dates.len());
}

} // verus!
