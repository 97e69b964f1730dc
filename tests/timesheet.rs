use timesheet::date::{convert_year, parse_date, Date};
use timesheet::error::ParseError;
use timesheet::record::Record;
use timesheet::report::{
    bucket_duration, day_summary, group_dates, record_dates, record_duration, select_records,
    total_duration, ReportError,
};
use timesheet::time_entry::{parse_time_entry, DurationTimeEntry, RangeTimeEntry, TimeEntry};
use timesheet::time_range::{check_time_range, format_time_range, group_time_range, TimeRange};

fn date(year: i32, month: u32, day: u32) -> Date {
    Date { year, month, day }
}

fn entry(line: &str) -> TimeEntry {
    match parse_time_entry(line) {
        Some(Ok(e)) => e,
        other => panic!("no entry in {:?}: {:?}", line, other),
    }
}

fn lines(text: &[&str]) -> Vec<String> {
    text.iter().map(|l| l.to_string()).collect()
}

#[test]
fn resolve_date_in_three_formats() {
    assert_eq!(parse_date("5.3.24"), Ok(date(2024, 3, 5)));
    assert_eq!(parse_date("2024-3-5"), Ok(date(2024, 3, 5)));
    assert_eq!(parse_date("24/3/5"), Ok(date(2024, 3, 5)));
}

#[test]
fn resolve_date_four_digit_year_and_trailing_text() {
    assert_eq!(parse_date("05.03.2024 monday"), Ok(date(2024, 3, 5)));
    assert_eq!(parse_date("2024/12/31"), Ok(date(2024, 12, 31)));
}

#[test]
fn resolve_date_rejects_invalid_dates() {
    assert_eq!(parse_date("1.13.24"), Err(ParseError::DateParse));
    assert_eq!(parse_date("32.1.24"), Err(ParseError::DateParse));
    assert_eq!(parse_date("29.2.23"), Err(ParseError::DateParse));
    assert_eq!(parse_date("29.2.24"), Ok(date(2024, 2, 29)));
    assert_eq!(parse_date("1.2-24"), Err(ParseError::DateParse));
    assert_eq!(parse_date("monday"), Err(ParseError::DateParse));
    assert_eq!(parse_date("1.1.99999999999999999999999"), Err(ParseError::DateParse));
}

#[test]
fn convert_year_expands_short_years() {
    assert_eq!(convert_year("24"), 2024);
    assert_eq!(convert_year("2024"), 2024);
    assert_eq!(convert_year("124"), 2124);
    assert_eq!(convert_year("0999"), 999);
}

#[test]
fn duration_entries() {
    let e = entry("-1h30m note");
    assert!(matches!(e, TimeEntry::Duration(_)));
    assert_eq!(e.get_info().duration, -90);
    assert_eq!(e.get_info().description, "note");
    assert_eq!(entry("45m").get_info().duration, 45);
    assert_eq!(entry("2h").get_info().duration, 120);
    assert_eq!(entry("1h 15m  call  ").get_info().duration, 75);
    assert_eq!(entry("1h 15m  call  ").get_info().description, "call");
    assert_eq!(entry("- 2h fix").get_info().duration, -120);
}

#[test]
fn duration_recogniser() {
    assert!(DurationTimeEntry::test("1h30m"));
    assert!(DurationTimeEntry::test("3h review"));
    assert!(!DurationTimeEntry::test("1h30"));
    assert!(!DurationTimeEntry::test("1h300m"));
    assert!(!DurationTimeEntry::test("h"));
    assert!(!DurationTimeEntry::test("9:00-10:00"));
    assert_eq!(
        DurationTimeEntry::new("notes").err(),
        Some(ParseError::MalformedEntry)
    );
}

#[test]
fn range_entries() {
    let e = entry("9:00-17:30 work");
    assert!(matches!(e, TimeEntry::Range(_)));
    assert_eq!(e.get_info().duration, 510);
    assert_eq!(e.get_info().description, "work");
    let p = entry("9:00-? pending");
    assert_eq!(p.get_info().duration, 0);
    assert_eq!(p.get_info().description, "pending");
    match entry("17:00 - 9:15 late") {
        TimeEntry::Range(r) => {
            assert_eq!(r.start, 1020);
            assert_eq!(r.end, 555);
            assert_eq!(r.info.duration, -465);
        }
        other => panic!("{:?}", other),
    }
}

#[test]
fn range_recogniser_and_malformed_times() {
    assert!(RangeTimeEntry::test("8:15-9:45"));
    assert!(RangeTimeEntry::test("8 : 15 - ?"));
    assert!(!RangeTimeEntry::test("8:15"));
    assert!(!RangeTimeEntry::test("8:15-9:45x"));
    assert_eq!(
        RangeTimeEntry::new("25:00-26:00").err(),
        Some(ParseError::MalformedEntry)
    );
    assert!(matches!(
        parse_time_entry("9:61-10:00"),
        Some(Err(ParseError::MalformedEntry))
    ));
    assert!(parse_time_entry("just a note").is_none());
}

#[test]
fn same_bucket_symmetric_and_reflexive() {
    let dates = [
        date(2024, 1, 6),
        date(2024, 1, 7),
        date(2023, 1, 13),
        date(2024, 5, 1),
    ];
    for range in [
        TimeRange::Day,
        TimeRange::Week,
        TimeRange::Month,
        TimeRange::Quarter,
        TimeRange::Year,
    ] {
        for a in dates {
            assert!(check_time_range(&range, a, a));
            for b in dates {
                assert_eq!(check_time_range(&range, a, b), check_time_range(&range, b, a));
            }
        }
    }
}

#[test]
fn same_bucket_rules() {
    // 2024-01-06 is a Saturday, 2024-01-07 a Sunday
    assert!(!check_time_range(&TimeRange::Week, date(2024, 1, 6), date(2024, 1, 7)));
    assert!(check_time_range(&TimeRange::Week, date(2024, 1, 7), date(2024, 1, 13)));
    assert!(check_time_range(&TimeRange::Week, date(2023, 12, 31), date(2024, 1, 6)));
    assert!(check_time_range(&TimeRange::Month, date(2023, 1, 5), date(2024, 1, 20)));
    assert!(check_time_range(&TimeRange::Quarter, date(2024, 3, 1), date(2024, 5, 1)));
    assert!(!check_time_range(&TimeRange::Quarter, date(2024, 2, 1), date(2024, 3, 1)));
    assert!(!check_time_range(&TimeRange::Year, date(2023, 1, 1), date(2024, 1, 1)));
    assert!(!check_time_range(&TimeRange::Day, date(2024, 1, 1), date(2024, 1, 2)));
}

#[test]
fn range_labels() {
    let d = date(2024, 3, 5);
    assert_eq!(format_time_range(&TimeRange::Year, d), "2024");
    assert_eq!(format_time_range(&TimeRange::Quarter, d), "2024Q1");
    assert_eq!(format_time_range(&TimeRange::Month, d), "2024-3");
    assert_eq!(format_time_range(&TimeRange::Day, d), "2024-03-05");
    assert_eq!(format_time_range(&TimeRange::Week, d), "2024-03-03 - 2024-03-09");
    assert_eq!(format_time_range(&TimeRange::Day, date(999, 1, 2)), "0999-01-02");
}

#[test]
fn sub_granularity_and_default() {
    assert_eq!(group_time_range(&TimeRange::Day), TimeRange::Day);
    assert_eq!(group_time_range(&TimeRange::Week), TimeRange::Day);
    assert_eq!(group_time_range(&TimeRange::Month), TimeRange::Day);
    assert_eq!(group_time_range(&TimeRange::Quarter), TimeRange::Week);
    assert_eq!(group_time_range(&TimeRange::Year), TimeRange::Month);
    assert_eq!(TimeRange::default(), TimeRange::Month);
}

#[test]
fn blocks_start_at_date_lines() {
    let input = lines(&["header", "1.1.24", "1h a", "2024-01-02 tuesday", "x", "", "24/1/3"]);
    let blocks = Record::group_records(&input);
    assert_eq!(blocks.len(), 3);
    assert_eq!(blocks[0], lines(&["1.1.24", "1h a"]));
    assert_eq!(blocks[1], lines(&["2024-01-02 tuesday", "x", ""]));
    assert_eq!(blocks[2], lines(&["24/1/3"]));
    assert!(Record::group_records(&lines(&["no", "dates"])).is_empty());
    // a date must be followed by white space, and lengths must fit the separator
    assert!(Record::group_records(&lines(&["1.1.24x", "123.1.24", "1-1-24"])).is_empty());
}

#[test]
fn record_summary_and_descriptions() {
    let block = lines(&["1.1.24", "new year", "", "quiet day", "1h a", "more on a", "9:00-9:30", "b"]);
    let rec = Record::new(&block).ok().unwrap();
    assert_eq!(rec.date, date(2024, 1, 1));
    assert_eq!(rec.summary, "new year\nquiet day");
    assert_eq!(rec.entries.len(), 2);
    assert_eq!(rec.entries[0].get_info().description, "a\nmore on a");
    assert_eq!(rec.entries[1].get_info().description, "b");
    assert_eq!(record_duration(&rec), Some(90));
}

#[test]
fn record_errors() {
    assert_eq!(
        Record::new(&lines(&["1.13.24"])).err(),
        Some(ParseError::DateParse)
    );
    assert_eq!(
        Record::new(&lines(&["1.1.24", "25:00-26:00"])).err(),
        Some(ParseError::MalformedEntry)
    );
    assert_eq!(
        Record::load_from_str("1.1.24\n1h\n2.13.24\n").err(),
        Some(ParseError::DateParse)
    );
}

#[test]
fn end_to_end_month_report() {
    let records = Record::load_from_str("1.1.24\n9:00-12:00 work\n\n2.1.24\n1h break\n").ok().unwrap();
    assert_eq!(records.len(), 2);
    let selected = select_records(records, &TimeRange::Month, date(2024, 1, 15));
    let sub = group_time_range(&TimeRange::Month);
    let buckets = group_dates(&record_dates(&selected), &sub);
    assert_eq!(buckets, vec![vec![0], vec![1]]);
    assert_eq!(selected[buckets[0][0]].date, date(2024, 1, 1));
    assert_eq!(selected[buckets[1][0]].date, date(2024, 1, 2));
    assert_eq!(bucket_duration(&selected, &buckets[0]), Some(180));
    assert_eq!(bucket_duration(&selected, &buckets[1]), Some(60));
    assert_eq!(total_duration(&selected, &buckets), Some(240));
}

#[test]
fn selection_keeps_matching_records_in_order() {
    let records = Record::load_from_str("1.1.24\n1h\n1.2.24\n2h\n3.1.24\n3h\n").ok().unwrap();
    let selected = select_records(records, &TimeRange::Month, date(2024, 1, 20));
    assert_eq!(record_dates(&selected), vec![date(2024, 1, 1), date(2024, 1, 3)]);
}

#[test]
fn csv_day_without_range_entry() {
    let records = Record::load_from_str("3.1.24\n1h task").ok().unwrap();
    let buckets = group_dates(&record_dates(&records), &TimeRange::Day);
    assert_eq!(day_summary(&records, &buckets[0]), Err(ReportError::NoRangeData));
}

#[test]
fn csv_day_summary_row() {
    let records =
        Record::load_from_str("3.1.24\n9:00-12:00 a\n13:00-17:00 b\n-30m lunch\n").ok().unwrap();
    let buckets = group_dates(&record_dates(&records), &TimeRange::Day);
    let s = day_summary(&records, &buckets[0]).ok().unwrap();
    assert_eq!(s.day, 3);
    assert_eq!(s.start, 540);
    assert_eq!(s.end, 1020);
    assert_eq!(s.span, 480);
    assert_eq!(s.worked, 390);
    assert_eq!(s.overtime, 90);
}

#[test]
fn grouping_by_day_gives_one_bucket_per_day() {
    let a = date(2024, 1, 1);
    let b = date(2024, 1, 2);
    let c = date(2024, 1, 3);
    let buckets = group_dates(&vec![a, b, a, c, b], &TimeRange::Day);
    assert_eq!(buckets, vec![vec![0, 2], vec![1, 4], vec![3]]);
}

#[test]
fn grouping_takes_first_matching_bucket_only() {
    // the quarter grouping of a year report: weeks
    let dates = vec![date(2024, 1, 1), date(2024, 1, 8), date(2024, 1, 3), date(2024, 1, 9)];
    let buckets = group_dates(&dates, &TimeRange::Week);
    assert_eq!(buckets, vec![vec![0, 2], vec![1, 3]]);
}

#[test]
fn total_is_sum_of_all_entries() {
    let records = Record::load_from_str(
        "1.1.24\n1h\n-15m fix\n2.1.24\n9:00-10:00\n8.1.24\n30m\n9.1.24\n10:00-9:00 oops\n",
    )
    .ok()
    .unwrap();
    let dates = record_dates(&records);
    for range in [TimeRange::Day, TimeRange::Week, TimeRange::Month] {
        let buckets = group_dates(&dates, &range);
        assert_eq!(total_duration(&records, &buckets), Some(60 - 15 + 60 + 30 - 60));
    }
}

#[test]
fn total_overflow_is_reported() {
    let text = "1.1.24\n5000000000000000000m\n5000000000000000000m\n";
    let records = Record::load_from_str(text).ok().unwrap();
    assert_eq!(record_duration(&records[0]), None);
    let too_big = "1.1.24\n99999999999999999999h\n";
    assert_eq!(
        Record::load_from_str(too_big).err(),
        Some(ParseError::MalformedEntry)
    );
}

#[test]
fn empty_and_dateless_text_give_no_records() {
    assert_eq!(Record::load_from_str("").ok().map(|r| r.len()), Some(0));
    assert_eq!(Record::load_from_str("notes\n1h\n").ok().map(|r| r.len()), Some(0));
    assert_eq!(total_duration(&Vec::new(), &Vec::new()), Some(0));
}

#[test]
fn csv_day_with_open_range_and_two_records() {
    let records = Record::load_from_str("4.1.24\n8:30-? start\n4.1.24\n10:00-16:15\n").ok().unwrap();
    let buckets = group_dates(&record_dates(&records), &TimeRange::Day);
    assert_eq!(buckets, vec![vec![0, 1]]);
    let s = day_summary(&records, &buckets[0]).ok().unwrap();
    assert_eq!((s.day, s.start, s.end, s.span), (4, 510, 975, 465));
    assert_eq!(s.worked, 375);
    assert_eq!(s.overtime, 90);
}
