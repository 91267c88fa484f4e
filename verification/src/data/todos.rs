//! Completed tasks of the task list, counted per completion day.
use vstd::prelude::*;

use crate::data::date::{chrono_parse_date, parse_date, Date};
use crate::data::streak::ymd_format;
use crate::data::tally::{
    count_of, counts_fit, lemma_count_push_ge, lemma_short_counts_fit, lemma_tallies_empty,
    lemma_tallies_fit, tallies, tally_add, tally_count,
};
use crate::data::text::{
    chars_of, is_regex_digit, decimal_digit, is_whitespace, lemma_lines_count, lines, matches_at, occurs_at,
    slice_chars, split_lines, string_of, views, ws_end,
};
use crate::data::{DayMetric, MetricKind};

verus! {

/// A completion mark `-\s*\[x\]` at `s`: the position just after `[x]`.
pub open spec fn done_mark_at(t: Seq<char>, s: int) -> Option<int> {
    if 0 <= s < t.len() && t[s] == '-' {
        let p = ws_end(t, s + 1, t.len() as int);
        if occurs_at(t, p, seq!['[', 'x', ']']) {
            Some(p + 3)
        } else {
            None
        }
    } else {
        None
    }
}

/// The end of the leftmost completion mark at or after `s`.
pub open spec fn first_done_mark(t: Seq<char>, s: int) -> Option<int>
    decreases t.len() - s,
{
    if s < 0 || s >= t.len() {
        None
    } else if done_mark_at(t, s) is Some {
        done_mark_at(t, s)
    } else {
        first_done_mark(t, s + 1)
    }
}

/// The shape `\d{4}-\d{2}-\d{2}` at `d`, `\d` being the `regex` crate's class of
/// decimal digits.
pub open spec fn date_shape_at(t: Seq<char>, d: int) -> bool {
    &&& 0 <= d
    &&& d + 10 <= t.len()
    &&& forall|k: int|
        0 <= k < 10 ==> if k == 4 || k == 7 {
            t[d + k] == '-'
        } else {
            decimal_digit(#[trigger] t[d + k])
        }
}

pub open spec fn done_at_key() -> Seq<char> {
    seq!['d', 'o', 'n', 'e', '_', 'a', 't', ':', ':']
}

/// `done_at::\s*` followed by a date shape at `q`: where the date starts.
pub open spec fn done_at_date(t: Seq<char>, q: int) -> Option<int> {
    if occurs_at(t, q, done_at_key()) {
        let d = ws_end(t, q + 9, t.len() as int);
        if date_shape_at(t, d) {
            Some(d)
        } else {
            None
        }
    } else {
        None
    }
}

/// The date start of the leftmost `done_at::` date at or after `q`.
pub open spec fn first_done_at_date(t: Seq<char>, q: int) -> Option<int>
    decreases t.len() + 1 - q,
{
    if q < 0 || q > t.len() {
        None
    } else if done_at_date(t, q) is Some {
        done_at_date(t, q)
    } else {
        first_done_at_date(t, q + 1)
    }
}

/// The completion date text of a task line, as the pattern
/// `-\s*\[x\].*?done_at::\s*(\d{4}-\d{2}-\d{2})` finds it: the first `done_at::` date
/// after the first completion mark of the line.
pub open spec fn done_date_text(line: Seq<char>) -> Option<Seq<char>> {
    match first_done_mark(line, 0) {
        Some(e) => match first_done_at_date(line, e) {
            Some(d) => Some(line.subrange(d, d + 10)),
            None => None,
        },
        None => None,
    }
}

/// The completion date of a line: its date text, when it parses as a date.
pub open spec fn done_date(line: Seq<char>) -> Option<Date> {
    match done_date_text(line) {
        Some(txt) => match chrono_parse_date(txt, ymd_format()) {
            Ok(t) => Some(Date { year: t.0 as i32, month: t.1 as u32, day: t.2 as u32 }),
            Err(_) => None,
        },
        None => None,
    }
}

/// The completion dates of the first `n` lines, in order.
pub open spec fn done_dates_upto(ls: Seq<Seq<char>>, n: int) -> Seq<Date>
    decreases n,
{
    if n <= 0 || n > ls.len() {
        seq![]
    } else {
        let earlier = done_dates_upto(ls, n - 1);
        match done_date(ls[n - 1]) {
            Some(d) => earlier.push(d),
            None => earlier,
        }
    }
}

/// The completion dates of a task list, one per completed task line, in order.
pub open spec fn done_dates(content: Seq<char>) -> Seq<Date> {
    done_dates_upto(lines(content), lines(content).len() as int)
}

proof fn lemma_done_dates_len(ls: Seq<Seq<char>>, n: int)
    requires
        0 <= n <= ls.len(),
    ensures
        done_dates_upto(ls, n).len() <= n,
    decreases n,
{
    if n > 0 {
        lemma_done_dates_len(ls, n - 1);
    }
}

fn done_mark_exec(t: &[char], s: usize) -> (r: Option<usize>)
    requires
        s < t@.len(),
    ensures
        match done_mark_at(t@, s as int) {
            Some(e) => r == Some(e as usize),
            None => r is None,
        },
{
    if t[s] != '-' {
        return None;
    }
    let mut p = s + 1;
    while p < t.len() && is_whitespace(t[p])
        invariant
            s + 1 <= p <= t@.len(),
            ws_end(t@, s + 1, t@.len() as int) == ws_end(t@, p as int, t@.len() as int),
        decreases t.len() - p,
    {
        p = p + 1;
    }
    let mark = vec!['[', 'x', ']'];
    assert(mark@ =~= seq!['[', 'x', ']']);
    if matches_at(t, p, &mark) {
        Some(p + 3)
    } else {
        None
    }
}

fn done_at_exec(t: &[char], q: usize, key: &[char]) -> (r: Option<usize>)
    requires
        q <= t@.len(),
        key@ == done_at_key(),
    ensures
        match done_at_date(t@, q as int) {
            Some(d) => r == Some(d as usize),
            None => r is None,
        },
{
    let n = t.len();
    if !matches_at(t, q, key) {
        return None;
    }
    let mut d = q + 9;
    while d < t.len() && is_whitespace(t[d])
        invariant
            q + 9 <= d <= t@.len(),
            ws_end(t@, q + 9, t@.len() as int) == ws_end(t@, d as int, t@.len() as int),
        decreases t.len() - d,
    {
        d = d + 1;
    }
    if d > t.len() || t.len() - d < 10 {
        return None;
    }
    let mut k: usize = 0;
    while k < 10
        invariant
            n == t@.len(),
            d + 10 <= t@.len(),
            d == ws_end(t@, q + 9, t@.len() as int),
            occurs_at(t@, q as int, done_at_key()),
            k <= 10,
            forall|j: int|
                0 <= j < k ==> if j == 4 || j == 7 {
                    t@[d + j] == '-'
                } else {
                    decimal_digit(#[trigger] t@[d + j])
                },
        decreases 10 - k,
    {
        let c = t[d + k];
        let ok = if k == 4 || k == 7 {
            c == '-'
        } else {
            is_regex_digit(c)
        };
        if !ok {
            proof {
                assert(decimal_digit(t@[d + k]) || !decimal_digit(t@[d + k]));
            }
            return None;
        }
        k = k + 1;
    }
    assert(date_shape_at(t@, d as int)) by {
        assert forall|j: int| 0 <= j < 10 implies if j == 4 || j == 7 {
            t@[d + j] == '-'
        } else {
            decimal_digit(#[trigger] t@[d + j])
        } by {
            if j == 4 || j == 7 {
            } else {
                assert(decimal_digit(t@[d + j]));
            }
        }
    }
    Some(d)
}

/// The completion date text of one task line (see `done_date_text`).
pub fn task_done_date_text(t: &[char]) -> (r: Option<Vec<char>>)
    ensures
        match done_date_text(t@) {
            Some(txt) => r matches Some(v) && v@ == txt,
            None => r is None,
        },
{
    let mut s: usize = 0;
    let mut mark: Option<usize> = None;
    while s < t.len() && mark.is_none()
        invariant
            s <= t@.len(),
            mark is None ==> first_done_mark(t@, 0) == first_done_mark(t@, s as int),
            mark matches Some(e) ==> first_done_mark(t@, 0) == Some(e as int),
        decreases t.len() - s + (if mark is None { 1int } else { 0int }),
    {
        let m = done_mark_exec(t, s);
        if m.is_some() {
            mark = m;
        } else {
            s = s + 1;
        }
    }
    let e = match mark {
        Some(e) => e,
        None => {
            return None;
        },
    };
    let key = vec!['d', 'o', 'n', 'e', '_', 'a', 't', ':', ':'];
    assert(key@ =~= done_at_key());
    proof {
        lemma_first_done_mark_bound(t@, 0);
    }
    let mut q = e;
    let mut found: Option<usize> = None;
    while q < t.len() && found.is_none()
        invariant
            e <= q <= t@.len(),
            key@ == done_at_key(),
            found matches Some(d) ==> d + 10 <= t@.len(),
            found is None ==> first_done_at_date(t@, e as int) == first_done_at_date(
                t@,
                q as int,
            ),
            found matches Some(d) ==> first_done_at_date(t@, e as int) == Some(d as int),
        decreases t.len() + 1 - q + (if found is None { 1int } else { 0int }),
    {
        let m = done_at_exec(t, q, &key);
        if m.is_some() {
            found = m;
        } else {
            q = q + 1;
        }
    }
    proof {
        if found is None {
            assert(done_at_date(t@, q as int) is None);
            assert(first_done_at_date(t@, q + 1) is None);
        }
    }
    match found {
        Some(d) => Some(slice_chars(t, d, d + 10)),
        None => None,
    }
}

proof fn lemma_first_done_mark_bound(t: Seq<char>, s: int)
    requires
        0 <= s,
    ensures
        first_done_mark(t, s) matches Some(e) ==> e <= t.len(),
    decreases t.len() - s,
{
    if s < t.len() {
        if done_mark_at(t, s) is Some {
            lemma_ws_end_le(t, s + 1, t.len() as int);
        } else {
            lemma_first_done_mark_bound(t, s + 1);
        }
    }
}

proof fn lemma_ws_end_le(t: Seq<char>, i: int, hi: int)
    requires
        i <= hi,
    ensures
        i <= ws_end(t, i, hi) <= hi,
    decreases hi - i,
{
    if i < hi && crate::data::text::is_ws(t[i]) {
        lemma_ws_end_le(t, i + 1, hi);
    }
}

/// Counting the completion dates of more lines never gives less.
proof fn lemma_done_dates_count_mono(ls: Seq<Seq<char>>, i: int, j: int, x: Date)
    requires
        0 <= i <= j <= ls.len(),
    ensures
        count_of(done_dates_upto(ls, i), x) <= count_of(done_dates_upto(ls, j), x),
    decreases j - i,
{
    if i < j {
        lemma_done_dates_count_mono(ls, i, j - 1, x);
        match done_date(ls[j - 1]) {
            Some(d) => lemma_count_push_ge(done_dates_upto(ls, j - 1), d, x),
            None => {},
        }
    }
}

/// Tallies the completion dates of a task list; `None` when some day's count would
/// not fit a `u32`.
fn todo_tally(content: &str) -> (r: Option<Vec<DayMetric>>)
    ensures
        match r {
            Some(v) => tallies(v@, done_dates(content@), MetricKind::Todo),
            None => !counts_fit(done_dates(content@)),
        },
{
    let text = chars_of(content);
    let ls = split_lines(&text);
    let ghost vs = views(ls@);
    proof {
        lemma_tallies_empty(MetricKind::Todo);
    }
    let mut out: Vec<DayMetric> = Vec::new();
    let mut i: usize = 0;
    while i < ls.len()
        invariant
            i <= ls@.len(),
            vs == views(ls@),
            vs == lines(content@),
            tallies(out@, done_dates_upto(vs, i as int), MetricKind::Todo),
        decreases ls.len() - i,
    {
        let ghost ds = done_dates_upto(vs, i as int);
        assert(ls@[i as int]@ == vs[i as int]);
        match task_done_date_text(&ls[i]) {
            Some(txt) => {
                let s = string_of(&txt);
                match parse_date(s.as_str(), "%Y-%m-%d") {
                    Ok(d) => {
                        proof {
                            reveal_strlit("%Y-%m-%d");
                            assert("%Y-%m-%d"@ =~= ymd_format());
                        }
                        let c = tally_count(&out, d, MetricKind::Todo, Ghost(ds));
                        if c == u32::MAX {
                            proof {
                                lemma_count_push_ge(ds, d, d);
                                assert(done_dates_upto(vs, i + 1) == ds.push(d));
                                lemma_done_dates_count_mono(vs, i + 1, vs.len() as int, d);
                                assert(count_of(done_dates(content@), d) > u32::MAX);
                            }
                            return None;
                        }
                        tally_add(&mut out, d, MetricKind::Todo, Ghost(ds));
                    },
                    Err(_) => {
                        proof {
                            reveal_strlit("%Y-%m-%d");
                            assert("%Y-%m-%d"@ =~= ymd_format());
                        }
                    },
                }
            },
            None => {},
        }
        i = i + 1;
    }
    Some(out)
}

/// Counts the completed tasks of a task list per completion day: one metric per day
/// on which some task was completed, in date order, whose value is the number of
/// tasks completed that day (see `done_dates`). No day may count more than
/// `u32::MAX` tasks.
pub fn read_todo_completions(content: &str) -> (r: Vec<DayMetric>)
    requires
        counts_fit(done_dates(content@)),
    ensures
        tallies(r@, done_dates(content@), MetricKind::Todo),
        forall|a: int, b: int| 0 <= a < b < r@.len() ==> (#[trigger] r@[a]).date.dn() < (#[trigger] r@[b]).date.dn(),
        forall|k: int| 0 <= k < r@.len() ==> (#[trigger] r@[k]).value > 0 && r@[k].kind == MetricKind::Todo,
{
    match todo_tally(content) {
        Some(v) => v,
        None => {
            assert(false);
            Vec::new()
        },
    }
}

/// `read_todo_completions` for any task list: `None` exactly when some day counts
/// more than `u32::MAX` completed tasks.
pub fn todo_completions_checked(content: &str) -> (r: Option<Vec<DayMetric>>)
    ensures
        r is Some <==> counts_fit(done_dates(content@)),
        r matches Some(v) ==> tallies(v@, done_dates(content@), MetricKind::Todo),
{
    let n = chars_of(content).len();
    if n < u32::MAX as usize {
        proof {
            lemma_lines_count(content@);
            lemma_done_dates_len(lines(content@), lines(content@).len() as int);
            lemma_short_counts_fit(done_dates(content@));
        }
        return Some(read_todo_completions(content));
    }
    let r = todo_tally(content);
    proof {
        if r is Some {
            lemma_tallies_fit(r.unwrap()@, done_dates(content@), MetricKind::Todo);
        }
    }
    r
}

} // verus!
