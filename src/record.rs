//! Day records: splitting the lines of a timesheet into blocks that each
//! open with a date line, and building a record from each block.

use vstd::prelude::*;

use crate::date::{is_date_line, is_record_start, parse_date, resolved_date, Date};
use crate::error::ParseError;
use crate::text::{chars_of, join_line, push_line, string_of, trim, trim_chars, trimmed_lines, trimmed_lines_of};
use crate::time_entry::{entry_from_chars, entry_of, EntryView, TimeEntry};

verus! {

/// One day of the timesheet: its date, the notes before its first entry,
/// and its entries in the order of the file.
#[derive(Debug)]
pub struct Record {
    pub date: Date,
    pub summary: String,
    pub entries: Vec<TimeEntry>,
}

/// What a record holds.
pub struct RecordView {
    pub date: Date,
    pub summary: Seq<char>,
    pub entries: Seq<EntryView>,
}

impl View for Record {
    type V = RecordView;

    open spec fn view(&self) -> RecordView {
        RecordView {
            date: self.date,
            summary: self.summary@,
            entries: self.entries@.map_values(|e: TimeEntry| e@),
        }
    }
}

impl Record {
    pub open spec fn wf(&self) -> bool {
        &&& self.date.wf()
        &&& forall|i: int| 0 <= i < self.entries@.len() ==> (#[trigger] self.entries@[i]).wf()
    }
}

pub open spec fn lines_view(lines: Seq<String>) -> Seq<Seq<char>> {
    lines.map_values(|l: String| l@)
}

pub open spec fn blocks_view(blocks: Seq<Vec<String>>) -> Seq<Seq<Seq<char>>> {
    blocks.map_values(|b: Vec<String>| lines_view(b@))
}

/// The blocks of `lines`: each date line opens a block that runs up to the
/// next date line; lines before the first date line belong to no block.
pub open spec fn blocks_of(lines: Seq<Seq<char>>) -> Seq<Seq<Seq<char>>>
    decreases lines.len(),
{
    if lines.len() == 0 {
        Seq::empty()
    } else {
        let b = blocks_of(lines.drop_last());
        let l = lines.last();
        if is_date_line(l) {
            b.push(seq![l])
        } else if b.len() == 0 {
            b
        } else {
            b.update(b.len() - 1, b.last().push(l))
        }
    }
}

/// Notes and entries of a record after reading `line`: an entry line adds
/// an entry; other text goes to the summary while there is no entry yet,
/// and to the description of the last entry after that; blank lines are
/// skipped.
pub open spec fn body_step(
    acc: Result<(Seq<char>, Seq<EntryView>), ParseError>,
    line: Seq<char>,
) -> Result<(Seq<char>, Seq<EntryView>), ParseError> {
    match acc {
        Err(x) => Err(x),
        Ok((summary, entries)) => match entry_of(line) {
            Some(Ok(e)) => Ok((summary, entries.push(e))),
            Some(Err(x)) => Err(x),
            None => {
                let t = trim(line);
                if t.len() == 0 {
                    Ok((summary, entries))
                } else if entries.len() == 0 {
                    Ok((join_line(summary, t), entries))
                } else {
                    let last = entries.last();
                    Ok(
                        (
                            summary,
                            entries.update(
                                entries.len() - 1,
                                last.with_description(join_line(last.description(), t)),
                            ),
                        ),
                    )
                }
            },
        },
    }
}

/// Notes and entries of the lines of a record that follow its date line.
pub open spec fn body_of(lines: Seq<Seq<char>>) -> Result<(Seq<char>, Seq<EntryView>), ParseError>
    decreases lines.len(),
{
    if lines.len() == 0 {
        Ok((Seq::empty(), Seq::empty()))
    } else {
        body_step(body_of(lines.drop_last()), lines.last())
    }
}

/// The record of a block: the date of its first line, then the notes and
/// entries of the rest.
pub open spec fn record_of(block: Seq<Seq<char>>) -> Result<RecordView, ParseError> {
    match resolved_date(block[0]) {
        None => Err(ParseError::DateParse),
        Some(d) => match body_of(block.drop_first()) {
            Ok((summary, entries)) => Ok(RecordView { date: d, summary, entries }),
            Err(x) => Err(x),
        },
    }
}

/// The records of the blocks, in order, or the error of the first block
/// that has one.
pub open spec fn records_of_blocks(blocks: Seq<Seq<Seq<char>>>) -> Result<Seq<RecordView>, ParseError>
    decreases blocks.len(),
{
    if blocks.len() == 0 {
        Ok(Seq::empty())
    } else {
        match records_of_blocks(blocks.drop_last()) {
            Err(x) => Err(x),
            Ok(rs) => match record_of(blocks.last()) {
                Ok(r) => Ok(rs.push(r)),
                Err(x) => Err(x),
            },
        }
    }
}

/// The records of a timesheet: its lines, trimmed, split into blocks.
pub open spec fn records_of_text(t: Seq<char>) -> Result<Seq<RecordView>, ParseError> {
    records_of_blocks(blocks_of(trimmed_lines_of(t)))
}

/// The block being read, if any, after the finished blocks.
pub open spec fn with_open_block(
    done: Seq<Vec<String>>,
    current: Seq<String>,
    open: bool,
) -> Seq<Seq<Seq<char>>> {
    if open {
        blocks_view(done).push(lines_view(current))
    } else {
        blocks_view(done)
    }
}

impl Record {
    /// Splits `lines` into blocks: each date line opens a block that runs
    /// up to the next date line; lines before the first date line are dropped.
    pub fn group_records(lines: &Vec<String>) -> (r: Vec<Vec<String>>)
        ensures
            blocks_view(r@) == blocks_of(lines_view(lines@)),
    {
        let mut done: Vec<Vec<String>> = Vec::new();
        let mut current: Vec<String> = Vec::new();
        let mut open = false;
        let mut k: usize = 0;
        while k < lines.len()
            invariant
                k <= lines@.len(),
                with_open_block(done@, current@, open) == blocks_of(
                    lines_view(lines@.subrange(0, k as int)),
                ),
                !open ==> blocks_view(done@).len() == 0,
            decreases lines@.len() - k,
        {
            let ghost prefix = lines_view(lines@.subrange(0, k as int));
            assert(lines_view(lines@.subrange(0, k + 1)).drop_last() =~= prefix);
            let line = lines[k].clone();
            let chars = chars_of(line.as_str());
            if is_record_start(&chars) {
                if open {
                    let ghost before = blocks_view(done@);
                    done.push(current);
                    assert(blocks_view(done@) =~= before.push(lines_view(current@)));
                }
                current = Vec::new();
                current.push(line);
                open = true;
                assert(lines_view(current@) =~= seq![lines@[k as int]@]);
            } else if open {
                let ghost before = lines_view(current@);
                current.push(line);
                assert(lines_view(current@) =~= before.push(lines@[k as int]@));
            }
            k = k + 1;
        }
        assert(lines@.subrange(0, k as int) =~= lines@);
        if open {
            let ghost before = blocks_view(done@);
            done.push(current);
            assert(blocks_view(done@) =~= before.push(lines_view(current@)));
        }
        done
    }
}

/// `r` is the record, or the error, that `spec` describes.
pub open spec fn record_result_matches(
    r: Result<Record, ParseError>,
    spec: Result<RecordView, ParseError>,
) -> bool {
    match spec {
        Ok(v) => r matches Ok(rec) && rec@ == v && rec.wf(),
        Err(x) => r matches Err(y) && y == x,
    }
}

pub open spec fn entries_view(entries: Seq<TimeEntry>) -> Seq<EntryView> {
    entries.map_values(|e: TimeEntry| e@)
}

impl Record {
    /// Builds the record of a block: the date of its first line, then, line
    /// by line, entries, the summary before the first entry and the text
    /// that follows each entry.
    pub fn new(block: &Vec<String>) -> (r: Result<Record, ParseError>)
        requires
            block@.len() >= 1,
        ensures
            record_result_matches(r, record_of(lines_view(block@))),
    {
        let date = match parse_date(block[0].as_str()) {
            Ok(d) => d,
            Err(e) => return Err(e),
        };
        let ghost body = lines_view(block@).drop_first();
        let mut summary = String::new();
        let mut entries: Vec<TimeEntry> = Vec::new();
        let mut k: usize = 1;
        assert(body.subrange(0, 0) =~= Seq::<Seq<char>>::empty());
        assert(entries_view(entries@) =~= Seq::<EntryView>::empty());
        while k < block.len()
            invariant
                1 <= k <= block@.len(),
                body == lines_view(block@).drop_first(),
                resolved_date(block@[0]@) == Some(date),
                date.wf(),
                body_of(body.subrange(0, k - 1)) == Ok::<(Seq<char>, Seq<EntryView>), ParseError>(
                    (summary@, entries_view(entries@)),
                ),
                forall|i: int| 0 <= i < entries@.len() ==> (#[trigger] entries@[i]).wf(),
            decreases block@.len() - k,
        {
            assert(body.subrange(0, k as int).drop_last() =~= body.subrange(0, k - 1));
            assert(body.subrange(0, k as int).last() == block@[k as int]@);
            let chars = chars_of(block[k].as_str());
            match entry_from_chars(&chars) {
                Some(Ok(e)) => {
                    let ghost before = entries_view(entries@);
                    entries.push(e);
                    assert(entries_view(entries@) =~= before.push(e@));
                },
                Some(Err(x)) => {
                    assert(entry_of(chars@) == Some(Err::<EntryView, ParseError>(x)));
                    assert(body_of(body.subrange(0, k as int)) == Err::<(Seq<char>, Seq<EntryView>), ParseError>(x));
                    proof {
                        lemma_body_error_stays(body, k as int, x);
                        assert(lines_view(block@)[0] == block@[0]@);
                    }
                    return Err(x);
                },
                None => {
                    let t = trim_chars(&chars);
                    if t.len() > 0 {
                        let text = string_of(&t);
                        if entries.len() == 0 {
                            push_line(&mut summary, text.as_str());
                        } else {
                            let ghost before = entries_view(entries@);
                            let last = entries.pop();
                            match last {
                                Some(mut e) => {
                                    e.append_description(text.as_str());
                                    entries.push(e);
                                },
                                None => {},
                            }
                            assert(entries_view(entries@) =~= before.update(
                                before.len() - 1,
                                before.last().with_description(
                                    join_line(before.last().description(), t@),
                                ),
                            ));
                        }
                    }
                },
            }
            k = k + 1;
        }
        assert(body.subrange(0, k - 1) =~= body);
        assert(lines_view(block@)[0] == block@[0]@);
        Ok(Record { date, summary, entries })
    }
}

/// Once a line of the body fails, the body fails with that error.
proof fn lemma_body_error_stays(body: Seq<Seq<char>>, k: int, x: ParseError)
    requires
        1 <= k <= body.len(),
        body_of(body.subrange(0, k)) == Err::<(Seq<char>, Seq<EntryView>), ParseError>(x),
    ensures
        body_of(body) == Err::<(Seq<char>, Seq<EntryView>), ParseError>(x),
    decreases body.len() - k,
{
    if k < body.len() {
        assert(body.subrange(0, k + 1).drop_last() =~= body.subrange(0, k));
        lemma_body_error_stays(body, k + 1, x);
    } else {
        assert(body.subrange(0, k) =~= body);
    }
}

/// Every block holds at least its date line.
proof fn lemma_blocks_nonempty(lines: Seq<Seq<char>>)
    ensures
        forall|i: int| 0 <= i < blocks_of(lines).len() ==> (#[trigger] blocks_of(lines)[i]).len() >= 1,
    decreases lines.len(),
{
    if lines.len() > 0 {
        let b = blocks_of(lines.drop_last());
        lemma_blocks_nonempty(lines.drop_last());
        assert forall|i: int| 0 <= i < blocks_of(lines).len() implies (
        #[trigger] blocks_of(lines)[i]).len() >= 1 by {
            if i < b.len() {
                assert(b[i].len() >= 1);
            }
        }
    }
}

pub open spec fn records_view(records: Seq<Record>) -> Seq<RecordView> {
    records.map_values(|r: Record| r@)
}

impl Record {
    /// The records of a timesheet, in the order of the text: the text is
    /// split into lines, each trimmed, the lines into blocks, and each block
    /// becomes a record. Fails with the first block's error.
    pub fn load_from_str(content: &str) -> (r: Result<Vec<Record>, ParseError>)
        ensures
            match records_of_text(content@) {
                Ok(vs) => r matches Ok(rs) && records_view(rs@) == vs && forall|i: int|
                    0 <= i < rs@.len() ==> (#[trigger] rs@[i]).wf(),
                Err(x) => r matches Err(y) && y == x,
            },
    {
        let chars = chars_of(content);
        let lines = trimmed_lines(&chars);
        let ghost trimmed = trimmed_lines_of(content@);
        let mut strings: Vec<String> = Vec::new();
        let mut k: usize = 0;
        while k < lines.len()
            invariant
                k <= lines@.len(),
                lines@.map_values(|l: Vec<char>| l@) == trimmed,
                lines_view(strings@) == trimmed.subrange(0, k as int),
            decreases lines@.len() - k,
        {
            let ghost before = lines_view(strings@);
            strings.push(string_of(&lines[k]));
            assert(lines_view(strings@) =~= before.push(lines@[k as int]@));
            assert(trimmed.subrange(0, k + 1) =~= trimmed.subrange(0, k as int).push(trimmed[k as int]));
            k = k + 1;
        }
        assert(trimmed.subrange(0, k as int) =~= trimmed);
        let blocks = Record::group_records(&strings);
        let ghost bv = blocks_of(trimmed);
        proof {
            lemma_blocks_nonempty(trimmed);
        }
        let mut records: Vec<Record> = Vec::new();
        let mut b: usize = 0;
        assert(bv.subrange(0, 0) =~= Seq::<Seq<Seq<char>>>::empty());
        assert(records_view(records@) =~= Seq::<RecordView>::empty());
        while b < blocks.len()
            invariant
                b <= blocks@.len(),
                blocks_view(blocks@) == bv,
                bv == blocks_of(trimmed),
                trimmed == trimmed_lines_of(content@),
                forall|i: int| 0 <= i < bv.len() ==> (#[trigger] bv[i]).len() >= 1,
                records_of_blocks(bv.subrange(0, b as int)) == Ok::<Seq<RecordView>, ParseError>(
                    records_view(records@),
                ),
                forall|i: int| 0 <= i < records@.len() ==> (#[trigger] records@[i]).wf(),
            decreases blocks@.len() - b,
        {
            assert(bv.subrange(0, b + 1).drop_last() =~= bv.subrange(0, b as int));
            assert(bv[b as int] == lines_view(blocks@[b as int]@));
            assert(bv.subrange(0, b + 1).last() == bv[b as int]);
            match Record::new(&blocks[b]) {
                Ok(rec) => {
                    let ghost before = records_view(records@);
                    records.push(rec);
                    assert(records_view(records@) =~= before.push(rec@));
                },
                Err(x) => {
                    assert(record_of(bv[b as int]) == Err::<RecordView, ParseError>(x));
                    assert(records_of_blocks(bv.subrange(0, b + 1)) == Err::<Seq<RecordView>, ParseError>(x));
                    proof {
                        lemma_records_error_stays(bv, b + 1, x);
                    }
                    return Err(x);
                },
            }
            b = b + 1;
        }
        assert(bv.subrange(0, b as int) =~= bv);
        Ok(records)
    }
}

/// Once a block fails, the records of all blocks fail with that error.
proof fn lemma_records_error_stays(blocks: Seq<Seq<Seq<char>>>, k: int, x: ParseError)
    requires
        1 <= k <= blocks.len(),
        records_of_blocks(blocks.subrange(0, k)) == Err::<Seq<RecordView>, ParseError>(x),
    ensures
        records_of_blocks(blocks) == Err::<Seq<RecordView>, ParseError>(x),
    decreases blocks.len() - k,
{
    if k < blocks.len() {
        assert(blocks.subrange(0, k + 1).drop_last() =~= blocks.subrange(0, k));
        lemma_records_error_stays(blocks, k + 1, x);
    } else {
        assert(blocks.subrange(0, k) =~= blocks);
    }
}

} // verus!
