//! Daily contribution counts exported as `date,contributions` records.
use vstd::prelude::*;

use crate::data::csvfile::{csv_parse, read_csv_records, records_view};
use crate::data::date::{chrono_parse_date, date_of, parse_date};
use crate::data::streak::ymd_format;
use crate::data::text::{
    chars_of, int_error_message, int_error_text, parse_u32, parse_u32_chars, push_str, string_of,
};
use crate::data::{DayMetric, MetricKind, ReaderError};

verus! {

/// The metrics of the records from index `i` on, or the reason the first refused
/// record gives: a reader error, fewer than two fields, a date that does not parse as
/// `%Y-%m-%d`, or a count that is not a `u32`.
pub open spec fn github_from(recs: Seq<Result<Seq<Seq<char>>, Seq<char>>>, i: int) -> Result<Seq<DayMetric>, Seq<char>>
    decreases recs.len() - i,
{
    if i < 0 || i >= recs.len() {
        Ok(seq![])
    } else {
        match recs[i] {
            Err(e) => Err(e),
            Ok(fs) => if fs.len() < 2 {
                Err("Record has fewer than 2 columns"@)
            } else {
                match chrono_parse_date(fs[0], ymd_format()) {
                    Err(pe) => Err("Failed to parse date '"@ + fs[0] + "': "@ + pe),
                    Ok(t) => match parse_u32(fs[1]) {
                        Err(ie) => Err(
                            "Failed to parse contributions '"@ + fs[1] + "': "@ + int_error_text(ie),
                        ),
                        Ok(v) => match github_from(recs, i + 1) {
                            Ok(ms) => Ok(
                                seq![DayMetric { date: date_of(t), kind: MetricKind::Github, value: v as u32 }]
                                    + ms,
                            ),
                            Err(e) => Err(e),
                        },
                    },
                }
            },
        }
    }
}

/// The metrics of a contributions file's records (see `github_from`).
pub open spec fn github_metrics_of(recs: Seq<Result<Seq<Seq<char>>, Seq<char>>>) -> Result<Seq<DayMetric>, Seq<char>> {
    github_from(recs, 0)
}

/// `r` is the outcome `o` for the file `file`: the metrics, or a parse error of
/// that file with the given reason.
pub open spec fn reader_outcome<T>(r: Result<Vec<T>, ReaderError>, o: Result<Seq<T>, Seq<char>>, file: Seq<char>) -> bool {
    match o {
        Ok(ms) => r matches Ok(v) && v@ == ms,
        Err(reason) => r matches Err(ReaderError::Parse { file: f, reason: m }) && f@ == file
            && m@ == reason,
    }
}

/// A parse error of `file` with the characters `reason`.
pub fn parse_error(file: &str, reason: &Vec<char>) -> (r: ReaderError)
    ensures
        r matches ReaderError::Parse { file: f, reason: m } && f@ == file@ && m@ == reason@,
{
    ReaderError::Parse { file: file.to_owned(), reason: string_of(reason) }
}

/// Turns the records of a contributions file into one metric per record, in order;
/// the first refused record makes the whole file fail (see `github_from`).
pub fn github_metrics(file: &str, recs: &Vec<Result<Vec<String>, String>>) -> (r: Result<Vec<DayMetric>, ReaderError>)
    ensures
        reader_outcome(r, github_metrics_of(records_view(recs@)), file@),
        r matches Ok(v) ==> forall|i: int| 0 <= i < v@.len() ==> (#[trigger] v@[i]).date.wf(),
{
    let ghost rv = records_view(recs@);
    let mut out: Vec<DayMetric> = Vec::new();
    let mut i: usize = 0;
    while i < recs.len()
        invariant
            i <= recs@.len(),
            rv == records_view(recs@),
            match github_from(rv, i as int) {
                Ok(ms) => github_from(rv, 0) == Ok::<Seq<DayMetric>, Seq<char>>(out@ + ms),
                Err(e) => github_from(rv, 0) == Err::<Seq<DayMetric>, Seq<char>>(e),
            },
            forall|k: int| 0 <= k < out@.len() ==> (#[trigger] out@[k]).date.wf(),
        decreases recs.len() - i,
    {
        assert(rv[i as int] == crate::data::csvfile::record_view(recs@[i as int]));
        match &recs[i] {
            Err(e) => {
                let mut m: Vec<char> = Vec::new();
                push_str(&mut m, e.as_str());
                return Err(parse_error(file, &m));
            },
            Ok(fields) => {
                if fields.len() < 2 {
                    let mut m: Vec<char> = Vec::new();
                    push_str(&mut m, "Record has fewer than 2 columns");
                    return Err(parse_error(file, &m));
                }
                let date_str = fields[0].as_str();
                let count_str = fields[1].as_str();
                proof {
                    reveal_strlit("%Y-%m-%d");
                    assert("%Y-%m-%d"@ =~= ymd_format());
                }
                let date = match parse_date(date_str, "%Y-%m-%d") {
                    Ok(d) => d,
                    Err(pe) => {
                        let mut m: Vec<char> = Vec::new();
                        push_str(&mut m, "Failed to parse date '");
                        push_str(&mut m, date_str);
                        push_str(&mut m, "': ");
                        push_str(&mut m, pe.as_str());
                        return Err(parse_error(file, &m));
                    },
                };
                let cs = chars_of(count_str);
                assert(cs@.subrange(0, cs@.len() as int) =~= cs@);
                let value = match parse_u32_chars(&cs, 0, cs.len()) {
                    Ok(v) => v,
                    Err(ie) => {
                        let mut m: Vec<char> = Vec::new();
                        push_str(&mut m, "Failed to parse contributions '");
                        push_str(&mut m, count_str);
                        push_str(&mut m, "': ");
                        push_str(&mut m, int_error_message(ie));
                        return Err(parse_error(file, &m));
                    },
                };
                let ghost before = out@;
                out.push(DayMetric { date, kind: MetricKind::Github, value });
                proof {
                    let md = DayMetric { date, kind: MetricKind::Github, value };
                    assert(out@ =~= before + seq![md]);
                    match github_from(rv, i + 1) {
                        Ok(ms) => {
                            assert(before + (seq![md] + ms) =~= out@ + ms);
                        },
                        Err(e) => {},
                    }
                }
            },
        }
        i = i + 1;
    }
    Ok(out)
}

/// Reads a contributions file: a header row, then `date,contributions` records.
/// Each record gives one metric, in order; the first record the `csv` reader
/// refuses, or that has fewer than two fields, an unparsable date or a count that is
/// not a `u32`, makes the whole file fail with a parse error of `file`.
pub fn read_github_contributions(file: &str, content: &[u8]) -> (r: Result<Vec<DayMetric>, ReaderError>)
    ensures
        reader_outcome(r, github_metrics_of(csv_parse(content@, false)), file@),
        r matches Ok(v) ==> forall|i: int| 0 <= i < v@.len() ==> (#[trigger] v@[i]).date.wf(),
{
    let recs = read_csv_records(content, false);
    github_metrics(file, &recs)
}

/// A record the contributions reader refuses: a reader error, fewer than two fields,
/// a date that does not parse as `%Y-%m-%d`, or a count that is not a `u32`.
pub open spec fn github_record_refused(r: Result<Seq<Seq<char>>, Seq<char>>) -> bool {
    match r {
        Err(_) => true,
        Ok(fs) => fs.len() < 2 || chrono_parse_date(fs[0], ymd_format()) is Err || parse_u32(fs[1]) is Err,
    }
}

/// The metric an accepted record gives: its date and its count.
pub open spec fn github_record_metric(fs: Seq<Seq<char>>) -> DayMetric {
    DayMetric {
        date: date_of(chrono_parse_date(fs[0], ymd_format())->Ok_0),
        kind: MetricKind::Github,
        value: (parse_u32(fs[1])->Ok_0) as u32,
    }
}

proof fn lemma_github_from(recs: Seq<Result<Seq<Seq<char>>, Seq<char>>>, i: int)
    requires
        0 <= i <= recs.len(),
    ensures
        github_from(recs, i) is Ok <==> forall|k: int|
            i <= k < recs.len() ==> !github_record_refused(#[trigger] recs[k]),
        github_from(recs, i) matches Ok(ms) ==> ms.len() == recs.len() - i && forall|k: int|
            0 <= k < ms.len() ==> (#[trigger] ms[k]) == github_record_metric(recs[i + k]->Ok_0),
    decreases recs.len() - i,
{
    if i < recs.len() {
        lemma_github_from(recs, i + 1);
        if let Ok(ms) = github_from(recs, i) {
            let rest = github_from(recs, i + 1)->Ok_0;
            assert forall|k: int| 0 <= k < ms.len() implies (#[trigger] ms[k]) == github_record_metric(
                recs[i + k]->Ok_0,
            ) by {
                if k > 0 {
                    assert(ms[k] == rest[k - 1]);
                }
            }
        }
        if !github_record_refused(recs[i]) && forall|k: int|
            i + 1 <= k < recs.len() ==> !github_record_refused(#[trigger] recs[k]) {
            assert forall|k: int| i <= k < recs.len() implies !github_record_refused(#[trigger] recs[k]) by {}
        }
    }
}

/// A contributions file gives one metric per record, in file order, each with the
/// record's date and count; a single refused record makes the whole file fail, with
/// no metrics at all.
pub proof fn law_github_one_metric_per_record(recs: Seq<Result<Seq<Seq<char>>, Seq<char>>>)
    ensures
        github_metrics_of(recs) is Ok <==> forall|k: int|
            0 <= k < recs.len() ==> !github_record_refused(#[trigger] recs[k]),
        github_metrics_of(recs) matches Ok(ms) ==> ms.len() == recs.len() && forall|k: int|
            0 <= k < ms.len() ==> (#[trigger] ms[k]) == github_record_metric(recs[k]->Ok_0),
{
    lemma_github_from(recs, 0);
    if let Ok(ms) = github_metrics_of(recs) {
        assert forall|k: int| 0 <= k < ms.len() implies (#[trigger] ms[k]) == github_record_metric(
            recs[k]->Ok_0,
        ) by {
            assert(recs[0 + k] == recs[k]);
        }
    }
}

} // verus!
