//! Exam events from the exam-seasons table.
use vstd::prelude::*;

use crate::data::date::{dates_dn, lemma_dn_injective, valid_ymd, day_number, Date};
use crate::data::sort::{lemma_stable_sorted_map, stable_sort, stable_sorted_by, SortKey};
use crate::data::text::{
    all_matches, ascii_lower, bar_cell, bar_cell_exec, chars_of, eq_ignore_ascii_case,
    eq_ignore_case_str, eq_str, is_regex_digit, decimal_digit, is_line_start, is_ws, lemma_all_matches_skip,
    lemma_all_matches_take, line_start_exec, parse_u32, parse_u32_chars, slice_chars,
    starts_with, starts_with_str, string_of, trim, trim_chars, ws_end, is_whitespace,
    lemma_ws_end_bounds, ascii_text, lower_text,
};

verus! {

/// A parsed exam event with an optional concrete date.
#[derive(Debug, Clone)]
pub struct ExamEvent {
    pub course: String,
    pub label: String,
    /// Concrete date if parseable, None for TBD/range-only entries.
    pub date: Option<Date>,
    /// Raw date string from the table (for display).
    pub window_raw: String,
}

/// What an exam event holds, with the date as its day number.
pub struct ExamEventView {
    pub course: Seq<char>,
    pub label: Seq<char>,
    pub date: Option<int>,
    pub window_raw: Seq<char>,
}

/// Sort key of an undated event: after every dated one.
pub open spec fn undated_key() -> int {
    1_000_000_000_000
}

pub open spec fn exam_view_key(v: ExamEventView) -> int {
    match v.date {
        Some(n) => n,
        None => undated_key(),
    }
}

impl View for ExamEvent {
    type V = ExamEventView;

    open spec fn view(&self) -> ExamEventView {
        ExamEventView {
            course: self.course@,
            label: self.label@,
            date: match self.date {
                Some(d) => Some(d.dn()),
                None => None,
            },
            window_raw: self.window_raw@,
        }
    }
}

impl SortKey for ExamEvent {
    open spec fn key(&self) -> int {
        exam_view_key(self@)
    }

    fn sort_key(&self) -> (k: i128) {
        match self.date {
            Some(d) => d.dn_wide(),
            None => 1_000_000_000_000,
        }
    }
}

impl ExamEvent {
    pub open spec fn wf(self) -> bool {
        self.date matches Some(d) ==> d.wf()
    }

    /// Days until this exam from today. Negative = already past.
    pub fn days_until(&self, today: Date) -> (r: Option<i64>)
        requires
            self.wf(),
            today.wf(),
        ensures
            match self.date {
                Some(d) => r == Some((d.dn() - today.dn()) as i64),
                None => r is None,
            },
    {
        match self.date {
            Some(d) => Some(d.days_since(&today)),
            None => None,
        }
    }
}

// ---------------------------------------------------------------------------
// Month names

/// `c` equals the lower-case ASCII letter `l` up to case, as a case-insensitive
/// regular expression compares them (the long s `ſ` folds to `s`).
pub open spec fn ci_letter(c: char, l: char) -> bool {
    ascii_lower(c) == (l as u32) || (l == 's' && c == '\u{17F}')
}

pub open spec fn ci3_at(t: Seq<char>, i: int, a: char, b: char, c: char) -> bool {
    0 <= i && i + 3 <= t.len() && ci_letter(t[i], a) && ci_letter(t[i + 1], b) && ci_letter(
        t[i + 2],
        c,
    )
}

/// A three-letter month abbreviation starts at `i`, in any case.
pub open spec fn month_ci_at(t: Seq<char>, i: int) -> bool {
    ||| ci3_at(t, i, 'j', 'a', 'n')
    ||| ci3_at(t, i, 'f', 'e', 'b')
    ||| ci3_at(t, i, 'm', 'a', 'r')
    ||| ci3_at(t, i, 'a', 'p', 'r')
    ||| ci3_at(t, i, 'm', 'a', 'y')
    ||| ci3_at(t, i, 'j', 'u', 'n')
    ||| ci3_at(t, i, 'j', 'u', 'l')
    ||| ci3_at(t, i, 'a', 'u', 'g')
    ||| ci3_at(t, i, 's', 'e', 'p')
    ||| ci3_at(t, i, 'o', 'c', 't')
    ||| ci3_at(t, i, 'n', 'o', 'v')
    ||| ci3_at(t, i, 'd', 'e', 'c')
}

/// Month number of a three-letter abbreviation, ignoring ASCII case.
pub open spec fn month_num(s: Seq<char>) -> Option<int> {
    if eq_ignore_ascii_case(s, "jan"@) {
        Some(1)
    } else if eq_ignore_ascii_case(s, "feb"@) {
        Some(2)
    } else if eq_ignore_ascii_case(s, "mar"@) {
        Some(3)
    } else if eq_ignore_ascii_case(s, "apr"@) {
        Some(4)
    } else if eq_ignore_ascii_case(s, "may"@) {
        Some(5)
    } else if eq_ignore_ascii_case(s, "jun"@) {
        Some(6)
    } else if eq_ignore_ascii_case(s, "jul"@) {
        Some(7)
    } else if eq_ignore_ascii_case(s, "aug"@) {
        Some(8)
    } else if eq_ignore_ascii_case(s, "sep"@) {
        Some(9)
    } else if eq_ignore_ascii_case(s, "oct"@) {
        Some(10)
    } else if eq_ignore_ascii_case(s, "nov"@) {
        Some(11)
    } else if eq_ignore_ascii_case(s, "dec"@) {
        Some(12)
    } else {
        None
    }
}

/// Month number (1 to 12) of a three-letter month abbreviation in any case.
pub fn month_abbrev_to_num(s: &str) -> (r: Option<u32>)
    ensures
        match month_num(s@) {
            Some(m) => r == Some(m as u32),
            None => r is None,
        },
{
    let c = chars_of(s);
    if eq_ignore_case_str(&c, "jan") {
        Some(1)
    } else if eq_ignore_case_str(&c, "feb") {
        Some(2)
    } else if eq_ignore_case_str(&c, "mar") {
        Some(3)
    } else if eq_ignore_case_str(&c, "apr") {
        Some(4)
    } else if eq_ignore_case_str(&c, "may") {
        Some(5)
    } else if eq_ignore_case_str(&c, "jun") {
        Some(6)
    } else if eq_ignore_case_str(&c, "jul") {
        Some(7)
    } else if eq_ignore_case_str(&c, "aug") {
        Some(8)
    } else if eq_ignore_case_str(&c, "sep") {
        Some(9)
    } else if eq_ignore_case_str(&c, "oct") {
        Some(10)
    } else if eq_ignore_case_str(&c, "nov") {
        Some(11)
    } else if eq_ignore_case_str(&c, "dec") {
        Some(12)
    } else {
        None
    }
}

fn ci_letter_exec(c: char, l: char) -> (r: bool)
    requires
        'a' <= l <= 'z',
    ensures
        r == ci_letter(c, l),
{
    crate::data::text::ascii_lower_code(c) == (l as u32) || (l == 's' && c == '\u{17F}')
}

fn ci3(t: &[char], i: usize, a: char, b: char, c: char) -> (r: bool)
    requires
        'a' <= a <= 'z',
        'a' <= b <= 'z',
        'a' <= c <= 'z',
    ensures
        r == ci3_at(t@, i as int, a, b, c),
{
    i <= t.len() && 3 <= t.len() - i && ci_letter_exec(t[i], a) && ci_letter_exec(t[i + 1], b)
        && ci_letter_exec(t[i + 2], c)
}

fn month_ci_exec(t: &[char], i: usize) -> (r: bool)
    ensures
        r == month_ci_at(t@, i as int),
{
    ci3(t, i, 'j', 'a', 'n') || ci3(t, i, 'f', 'e', 'b') || ci3(t, i, 'm', 'a', 'r') || ci3(
        t,
        i,
        'a',
        'p',
        'r',
    ) || ci3(t, i, 'm', 'a', 'y') || ci3(t, i, 'j', 'u', 'n') || ci3(t, i, 'j', 'u', 'l') || ci3(
        t,
        i,
        'a',
        'u',
        'g',
    ) || ci3(t, i, 's', 'e', 'p') || ci3(t, i, 'o', 'c', 't') || ci3(t, i, 'n', 'o', 'v') || ci3(
        t,
        i,
        'd',
        'e',
        'c',
    )
}

/// A case-insensitive month name, whitespace, and one or two decimal digits (the
/// `regex` crate's `\d`) at `i`
/// (`(?i)(Jan|...|Dec)\s+(\d{1,2})`): the month text and the digits.
pub open spec fn month_day_at(t: Seq<char>, i: int) -> Option<(Seq<char>, Seq<char>)> {
    if month_ci_at(t, i) {
        let w = ws_end(t, i + 3, t.len() as int);
        if w > i + 3 && w < t.len() && decimal_digit(t[w]) {
            let dend = if w + 1 < t.len() && decimal_digit(t[w + 1]) {
                w + 2
            } else {
                w + 1
            };
            Some((t.subrange(i, i + 3), t.subrange(w, dend)))
        } else {
            None
        }
    } else {
        None
    }
}

/// The leftmost month-and-day at or after `i`.
pub open spec fn first_month_day(t: Seq<char>, i: int) -> Option<(Seq<char>, Seq<char>)>
    decreases t.len() + 1 - i,
{
    if i < 0 || i > t.len() {
        None
    } else if month_day_at(t, i) is Some {
        month_day_at(t, i)
    } else {
        first_month_day(t, i + 1)
    }
}

/// The day number (in 2026) that a date window names, if any: the first month name
/// followed by a day of the month.
pub open spec fn window_date(w: Seq<char>) -> Option<int> {
    match first_month_day(w, 0) {
        None => None,
        Some((ms, ds)) => match parse_u32(ds) {
            Err(_) => None,
            Ok(day) => match month_num(ms) {
                None => None,
                Some(m) => if valid_ymd(2026, m, day) {
                    Some(day_number(2026, m, day))
                } else {
                    None
                },
            },
        },
    }
}

fn month_day_exec(t: &[char], i: usize) -> (r: Option<(Vec<char>, Vec<char>)>)
    ensures
        match month_day_at(t@, i as int) {
            Some((m, d)) => r matches Some((rm, rd)) && rm@ == m && rd@ == d,
            None => r is None,
        },
{
    if !month_ci_exec(t, i) {
        return None;
    }
    assert(i + 3 <= t.len());
    let mut w = i + 3;
    while w < t.len() && is_whitespace(t[w])
        invariant
            i + 3 <= w <= t@.len(),
            ws_end(t@, i + 3, t@.len() as int) == ws_end(t@, w as int, t@.len() as int),
        decreases t.len() - w,
    {
        w = w + 1;
    }
    if w > i + 3 && w < t.len() && is_regex_digit(t[w]) {
        let dend = if w + 1 < t.len() && is_regex_digit(t[w + 1]) {
            w + 2
        } else {
            w + 1
        };
        Some((slice_chars(t, i, i + 3), slice_chars(t, w, dend)))
    } else {
        None
    }
}

pub fn window_date_exec(w: &[char]) -> (r: Option<Date>)
    ensures
        match window_date(w@) {
            Some(n) => r matches Some(d) && d.wf() && d.dn() == n && d.year == 2026,
            None => r is None,
        },
{
    let mut i: usize = 0;
    while i < w.len()
        invariant
            i <= w@.len(),
            first_month_day(w@, 0) == first_month_day(w@, i as int),
        decreases w.len() - i,
    {
        match month_day_exec(w, i) {
            Some((ms, ds)) => {
                assert(first_month_day(w@, i as int) == Some((ms@, ds@)));
                let day = match parse_u32_chars(&ds, 0, ds.len()) {
                    Ok(d) => d,
                    Err(_) => {
                        proof {
                            assert(ds@.subrange(0, ds@.len() as int) =~= ds@);
                        }
                        return None;
                    },
                };
                proof {
                    assert(ds@.subrange(0, ds@.len() as int) =~= ds@);
                }
                let mstr = string_of(&ms);
                let m = match month_abbrev_to_num(mstr.as_str()) {
                    Some(m) => m,
                    None => {
                        return None;
                    },
                };
                return Date::from_ymd_opt(2026, m, day);
            },
            None => {},
        }
        i = i + 1;
    }
    assert(month_day_at(w@, i as int) is None);
    assert(first_month_day(w@, i + 1) is None);
    None
}

// ---------------------------------------------------------------------------
// The exam table

/// A table row of five cells at line start `p`
/// (`(?m)^\s*\|\s*([^|]+?)\s*\|\s*([^|]+?)\s*\|\s*([^|]+?)\s*\|\s*([^|]+?)\s*\|`): its
/// first four cells and the position after the fifth `|`.
pub open spec fn exam_row_at(t: Seq<char>, p: int) -> Option<(Seq<Seq<char>>, int)> {
    if p < 0 || p > t.len() {
        None
    } else {
        let q = ws_end(t, p, t.len() as int);
        if q >= t.len() || t[q] != '|' {
            None
        } else {
            match bar_cell(t, q + 1) {
                None => None,
                Some((c1, e1)) => match bar_cell(t, e1) {
                    None => None,
                    Some((c2, e2)) => match bar_cell(t, e2) {
                        None => None,
                        Some((c3, e3)) => match bar_cell(t, e3) {
                            None => None,
                            Some((c4, e4)) => Some((seq![c1, c2, c3, c4], e4)),
                        },
                    },
                },
            }
        }
    }
}

/// The rows of the exam table, in order.
pub open spec fn exam_rows(t: Seq<char>) -> Seq<Seq<Seq<char>>> {
    all_matches(t, 0, |p: int| exam_row_at(t, p))
}

/// The event a row describes: header and separator rows describe none, nor does a row
/// without a window (`—` or nothing); otherwise the date is read from the window.
pub open spec fn exam_event_of(cells: Seq<Seq<char>>) -> Option<ExamEventView> {
    let course = trim(cells[0]);
    let label = trim(cells[1]);
    let window = trim(cells[3]);
    if eq_ignore_ascii_case(course, "course"@) || starts_with(course, "-"@)
        || eq_ignore_ascii_case(window, "dates"@) {
        None
    } else if window == "—"@ || window.len() == 0 {
        None
    } else {
        Some(ExamEventView { course, label, date: window_date(window), window_raw: window })
    }
}

pub open spec fn exam_events_of_rows(rows: Seq<Seq<Seq<char>>>) -> Seq<ExamEventView>
    decreases rows.len(),
{
    if rows.len() == 0 {
        seq![]
    } else {
        let earlier = exam_events_of_rows(rows.drop_last());
        match exam_event_of(rows.last()) {
            Some(e) => earlier.push(e),
            None => earlier,
        }
    }
}

/// The exam events of an exam-seasons note, in table order.
pub open spec fn exam_events_of(t: Seq<char>) -> Seq<ExamEventView> {
    exam_events_of_rows(exam_rows(t))
}

fn exam_row_exec(t: &[char], p: usize) -> (r: Option<(Vec<Vec<char>>, usize)>)
    requires
        p <= t@.len(),
    ensures
        match exam_row_at(t@, p as int) {
            Some((cells, e)) => r matches Some((rc, re)) && crate::data::text::views(rc@) == cells
                && re == e,
            None => r is None,
        },
{
    let mut q = p;
    while q < t.len() && is_whitespace(t[q])
        invariant
            p <= q <= t@.len(),
            ws_end(t@, p as int, t@.len() as int) == ws_end(t@, q as int, t@.len() as int),
        decreases t.len() - q,
    {
        q = q + 1;
    }
    if q >= t.len() || t[q] != '|' {
        return None;
    }
    let (c1, e1) = match bar_cell_exec(t, q + 1) {
        Some(x) => x,
        None => {
            return None;
        },
    };
    let (c2, e2) = match bar_cell_exec(t, e1) {
        Some(x) => x,
        None => {
            return None;
        },
    };
    let (c3, e3) = match bar_cell_exec(t, e2) {
        Some(x) => x,
        None => {
            return None;
        },
    };
    let (c4, e4) = match bar_cell_exec(t, e3) {
        Some(x) => x,
        None => {
            return None;
        },
    };
    let cells = vec![c1, c2, c3, c4];
    assert(crate::data::text::views(cells@) =~= seq![c1@, c2@, c3@, c4@]);
    Some((cells, e4))
}

pub proof fn lemma_bar_cell_end(t: Seq<char>, a: int)
    ensures
        bar_cell(t, a) matches Some((g, e)) ==> a < e <= t.len(),
{
    if 0 <= a <= t.len() {
        crate::data::text::lemma_next_char(t, '|', a);
    }
}

proof fn lemma_exam_row_end(t: Seq<char>, p: int)
    ensures
        exam_row_at(t, p) matches Some((c, e)) ==> p < e <= t.len(),
{
    if 0 <= p <= t.len() {
        lemma_ws_end_bounds(t, p, t.len() as int);
        let q = ws_end(t, p, t.len() as int);
        lemma_bar_cell_end(t, q + 1);
        if let Some((c1, e1)) = bar_cell(t, q + 1) {
            lemma_bar_cell_end(t, e1);
            if let Some((c2, e2)) = bar_cell(t, e1) {
                lemma_bar_cell_end(t, e2);
                if let Some((c3, e3)) = bar_cell(t, e2) {
                    lemma_bar_cell_end(t, e3);
                }
            }
        }
    }
}

/// Parses an exam-seasons note and returns the exam events that have at least a
/// window (rows whose window is `—` or empty are skipped), dated ones first in
/// calendar order, undated ones last; events of one date keep their table order.
pub fn read_exam_events(content: &str) -> (r: Vec<ExamEvent>)
    ensures
        r@.map_values(|e: ExamEvent| e@) == stable_sorted_by(exam_events_of(content@), |v: ExamEventView| exam_view_key(v)),
        forall|i: int| 0 <= i < r@.len() ==> (#[trigger] r@[i]).wf(),
        forall|i: int, j: int|
            0 <= i <= j < r@.len() ==> (#[trigger] r@[i]).key() <= (#[trigger] r@[j]).key(),
        forall|i: int, j: int|
            0 <= i < j < r@.len() && (#[trigger] r@[j]).date is Some ==> (#[trigger] r@[i]).date is Some
                && r@[i].date.unwrap().dn() <= r@[j].date.unwrap().dn(),
        forall|i: int| 0 <= i < r@.len() ==> exam_event_ok(#[trigger] r@[i]@),
        forall|i: int| 0 <= i < r@.len() ==> ((#[trigger] r@[i]).date matches Some(d) ==> d.year == 2026),
{
    let t = chars_of(content);
    let ghost m = |p: int| exam_row_at(t@, p);
    let mut events: Vec<ExamEvent> = Vec::new();
    let ghost rows_done: Seq<Seq<Seq<char>>> = seq![];
    let mut p: usize = 0;
    while p < t.len()
        invariant
            p <= t@.len(),
            t@ == content@,
            m == (|q: int| exam_row_at(t@, q)),
            rows_done + all_matches(t@, p as int, m) == exam_rows(t@),
            events@.map_values(|e: ExamEvent| e@) == exam_events_of_rows(rows_done),
            forall|i: int| 0 <= i < events@.len() ==> (#[trigger] events@[i]).wf(),
        decreases t.len() - p,
    {
        let found = if line_start_exec(&t, p) {
            exam_row_exec(&t, p)
        } else {
            None
        };
        match found {
            Some((cells, e)) => {
                proof {
                    lemma_exam_row_end(t@, p as int);
                    lemma_all_matches_take(t@, p as int, m);
                }
                let ghost cv = crate::data::text::views(cells@);
                assert(cv.len() == cells@.len());
                let course = trim_chars(&cells[0]);
                let label = trim_chars(&cells[1]);
                let window = trim_chars(&cells[3]);
                if eq_ignore_case_str(&course, "course") || starts_with_str(&course, "-")
                    || eq_ignore_case_str(&window, "dates") {
                } else if eq_str(&window, "—") || window.len() == 0 {
                } else {
                    let date = window_date_exec(&window);
                    events.push(
                        ExamEvent {
                            course: string_of(&course),
                            label: string_of(&label),
                            date,
                            window_raw: string_of(&window),
                        },
                    );
                }
                proof {
                    let rd2 = rows_done.push(cv);
                    assert(rd2.drop_last() == rows_done);
                    assert(events@.map_values(|x: ExamEvent| x@) =~= exam_events_of_rows(rd2));
                    assert(rows_done + all_matches(t@, p as int, m) =~= rd2 + all_matches(
                        t@,
                        e as int,
                        m,
                    ));
                    rows_done = rd2;
                }
                p = e;
            },
            None => {
                proof {
                    lemma_all_matches_skip(t@, p as int, m);
                }
                p = p + 1;
            },
        }
    }
    proof {
        assert(exam_row_at(t@, p as int) is None);
        lemma_all_matches_skip(t@, p as int, m);
        assert(all_matches(t@, p + 1, m) == Seq::<Seq<Seq<char>>>::empty());
        assert(rows_done + all_matches(t@, p as int, m) =~= rows_done);
    }
    let r = stable_sort(events);
    proof {
        lemma_stable_sorted_map(
            events@,
            |x: ExamEvent| x.key(),
            |x: ExamEvent| x@,
            |v: ExamEventView| exam_view_key(v),
        );
        assert(r@.map_values(|e: ExamEvent| e@) == stable_sorted_by(events@, |x: ExamEvent| x.key()).map_values(|x: ExamEvent| x@));
        crate::data::sort::lemma_stable_sorted_elements(events@, |x: ExamEvent| x.key());
        crate::data::sort::lemma_stable_sorted_sorted(events@, |x: ExamEvent| x.key());
        assert forall|i: int| 0 <= i < r@.len() implies (#[trigger] r@[i]).wf() by {
            assert(events@.contains(r@[i]));
            let j = choose|j: int| 0 <= j < events@.len() && events@[j] == r@[i];
        }
        law_dated_exams_first(r@);
        let all = exam_events_of(content@);
        let sorted = stable_sorted_by(all, |v: ExamEventView| exam_view_key(v));
        law_exam_events(exam_rows(content@));
        crate::data::sort::lemma_stable_sorted_elements(all, |v: ExamEventView| exam_view_key(v));
        assert forall|i: int| 0 <= i < r@.len() implies exam_event_ok(#[trigger] r@[i]@) by {
            assert(sorted[i] == r@[i]@);
            assert(all.contains(sorted[i]));
            let j = choose|j: int| 0 <= j < all.len() && all[j] == sorted[i];
        }
        assert forall|i: int| 0 <= i < r@.len() implies ((#[trigger] r@[i]).date matches Some(d)
            ==> d.year == 2026) by {
            if let Some(d) = r@[i].date {
                assert(exam_event_ok(r@[i]@));
                let w = r@[i]@.window_raw;
                let (ms, ds) = first_month_day(w, 0).unwrap();
                let day = parse_u32(ds)->Ok_0;
                let m = month_num(ms).unwrap();
                lemma_dn_injective(d, Date { year: 2026, month: m as u32, day: day as u32 });
            }
        }
    }
    r
}

/// In a list ordered by key, dated exams come first, in calendar order, and undated
/// ones last.
pub proof fn law_dated_exams_first(es: Seq<ExamEvent>)
    requires
        forall|i: int| 0 <= i < es.len() ==> (#[trigger] es[i]).wf(),
        forall|i: int, j: int| 0 <= i <= j < es.len() ==> (#[trigger] es[i]).key() <= (#[trigger] es[j]).key(),
    ensures
        forall|i: int, j: int|
            0 <= i < j < es.len() && (#[trigger] es[j]).date is Some ==> (#[trigger] es[i]).date is Some
                && es[i].date.unwrap().dn() <= es[j].date.unwrap().dn(),
{
    assert forall|i: int, j: int| 0 <= i < j < es.len() && (#[trigger] es[j]).date is Some implies (
    #[trigger] es[i]).date is Some && es[i].date.unwrap().dn() <= es[j].date.unwrap().dn() by {
        assert(es[i].key() <= es[j].key());
        crate::data::date::lemma_dn_bounds(es[j].date.unwrap());
        if let Some(di) = es[i].date {
            crate::data::date::lemma_dn_bounds(di);
        }
    }
}

/// What every event taken from the exam table satisfies: it has a window (neither `—`
/// nor empty), it is no header or separator row, and its date is the one its window
/// names (see `window_date`).
pub open spec fn exam_event_ok(e: ExamEventView) -> bool {
    &&& e.window_raw != "—"@
    &&& e.window_raw.len() > 0
    &&& !eq_ignore_ascii_case(e.course, "course"@)
    &&& !starts_with(e.course, "-"@)
    &&& !eq_ignore_ascii_case(e.window_raw, "dates"@)
    &&& e.date == window_date(e.window_raw)
}

/// Only rows with a window that are not headers become exam events, each dated by its
/// window (in 2026).
pub proof fn law_exam_events(rows: Seq<Seq<Seq<char>>>)
    ensures
        forall|i: int|
            0 <= i < exam_events_of_rows(rows).len() ==> exam_event_ok(
                #[trigger] exam_events_of_rows(rows)[i],
            ),
    decreases rows.len(),
{
    if rows.len() > 0 {
        law_exam_events(rows.drop_last());
        let earlier = exam_events_of_rows(rows.drop_last());
        assert forall|i: int| 0 <= i < exam_events_of_rows(rows).len() implies exam_event_ok(
            #[trigger] exam_events_of_rows(rows)[i],
        ) by {
            if i < earlier.len() {
                assert(exam_events_of_rows(rows)[i] == earlier[i]);
            }
        }
    }
}

/// The lower-case abbreviation of month `m` (1 to 12).
pub open spec fn month_name(m: int) -> Seq<char> {
    if m == 1 {
        "jan"@
    } else if m == 2 {
        "feb"@
    } else if m == 3 {
        "mar"@
    } else if m == 4 {
        "apr"@
    } else if m == 5 {
        "may"@
    } else if m == 6 {
        "jun"@
    } else if m == 7 {
        "jul"@
    } else if m == 8 {
        "aug"@
    } else if m == 9 {
        "sep"@
    } else if m == 10 {
        "oct"@
    } else if m == 11 {
        "nov"@
    } else if m == 12 {
        "dec"@
    } else {
        Seq::<char>::empty()
    }
}

/// For an ASCII text and a lower-case ASCII word, comparing ignoring ASCII case is
/// comparing the lower-cased text; a text with another character never matches.
proof fn lemma_lower_eq(s: Seq<char>, w: Seq<char>)
    requires
        forall|i: int| 0 <= i < w.len() ==> 'a' <= #[trigger] w[i] <= 'z',
    ensures
        ascii_text(s) ==> (eq_ignore_ascii_case(s, w) <==> lower_text(s) == w),
        eq_ignore_ascii_case(s, w) ==> ascii_text(s),
{
    if eq_ignore_ascii_case(s, w) {
        assert forall|i: int| 0 <= i < s.len() implies (#[trigger] s[i] as u32) < 0x80 by {
            assert(ascii_lower(s[i]) == ascii_lower(w[i]));
        }
        assert forall|i: int| 0 <= i < s.len() implies lower_text(s)[i] == w[i] by {
            assert(ascii_lower(s[i]) == ascii_lower(w[i]));
        }
        assert(lower_text(s) =~= w);
    }
    if ascii_text(s) && lower_text(s) == w {
        assert forall|i: int| 0 <= i < s.len() implies ascii_lower(#[trigger] s[i]) == ascii_lower(w[i]) by {
            assert(lower_text(s)[i] == w[i]);
        }
    }
}

/// A month abbreviation names month `m` exactly when it is, lower-cased, the month's
/// three-letter name; only ASCII text names a month.
pub proof fn law_month_abbrev(s: Seq<char>)
    ensures
        month_num(s) matches Some(m) ==> 1 <= m <= 12 && ascii_text(s) && lower_text(s) == month_name(m),
        ascii_text(s) ==> (month_num(s) is Some <==> exists|m: int| 1 <= m <= 12 && lower_text(s) == #[trigger] month_name(m)),
{
    reveal_strlit("jan");
    reveal_strlit("feb");
    reveal_strlit("mar");
    reveal_strlit("apr");
    reveal_strlit("may");
    reveal_strlit("jun");
    reveal_strlit("jul");
    reveal_strlit("aug");
    reveal_strlit("sep");
    reveal_strlit("oct");
    reveal_strlit("nov");
    reveal_strlit("dec");
    lemma_lower_eq(s, "jan"@);
    lemma_lower_eq(s, "feb"@);
    lemma_lower_eq(s, "mar"@);
    lemma_lower_eq(s, "apr"@);
    lemma_lower_eq(s, "may"@);
    lemma_lower_eq(s, "jun"@);
    lemma_lower_eq(s, "jul"@);
    lemma_lower_eq(s, "aug"@);
    lemma_lower_eq(s, "sep"@);
    lemma_lower_eq(s, "oct"@);
    lemma_lower_eq(s, "nov"@);
    lemma_lower_eq(s, "dec"@);
    if ascii_text(s) && exists|m: int| 1 <= m <= 12 && lower_text(s) == #[trigger] month_name(m) {
        let m = choose|m: int| 1 <= m <= 12 && lower_text(s) == #[trigger] month_name(m);
        assert(month_num(s) is Some);
    }
    if let Some(m) = month_num(s) {
        assert(lower_text(s) == month_name(m));
    }
}

/// A day of the month as a window writes it: one digit below 10, else two.
pub open spec fn day_text(d: int) -> Seq<char> {
    if d < 10 {
        seq![(('0' as u32) + d) as char]
    } else {
        seq![(('0' as u32) + d / 10) as char, (('0' as u32) + d % 10) as char]
    }
}

/// A window naming a month by its three-letter abbreviation (in any case), then a
/// space and a day of that month, dates the exam on that day of 2026, for every
/// month and every day of it.
pub proof fn law_month_windows(w: Seq<char>, m: int, d: int)
    requires
        1 <= m <= 12,
        valid_ymd(2026, m, d),
        w.len() == 3,
        forall|k: int| 0 <= k < 3 ==> ascii_lower(#[trigger] w[k]) == month_name(m)[k] as u32,
    ensures
        window_date(w + seq![' '] + day_text(d)) == Some(day_number(2026, m, d)),
{
    reveal_strlit("jan");
    reveal_strlit("feb");
    reveal_strlit("mar");
    reveal_strlit("apr");
    reveal_strlit("may");
    reveal_strlit("jun");
    reveal_strlit("jul");
    reveal_strlit("aug");
    reveal_strlit("sep");
    reveal_strlit("oct");
    reveal_strlit("nov");
    reveal_strlit("dec");
    let s = w + seq![' '] + day_text(d);
    let ds = day_text(d);
    assert forall|k: int| 0 <= k < 3 implies s[k] == #[trigger] w[k] by {}
    assert(ascii_lower(w[0]) == month_name(m)[0] as u32);
    assert(ascii_lower(w[1]) == month_name(m)[1] as u32);
    assert(ascii_lower(w[2]) == month_name(m)[2] as u32);
    assert(month_ci_at(s, 0));
    assert(s[4] == ds[0]);
    assert(crate::data::text::is_digit(ds[0]));
    assert(!is_ws(s[4]));
    assert(ws_end(s, 4, s.len() as int) == 4);
    assert(ws_end(s, 3, s.len() as int) == 4);
    if d >= 10 {
        assert(s[5] == ds[1]);
        assert(crate::data::text::is_digit(ds[1]));
        assert(s.subrange(4, 6) =~= ds);
    } else {
        assert(s.subrange(4, 5) =~= ds);
    }
    assert(s.subrange(0, 3) =~= w);
    assert(month_day_at(s, 0) == Some((w, ds)));
    assert(first_month_day(s, 0) == Some((w, ds)));
    reveal_with_fuel(crate::data::text::scan_pos, 3);
    if d < 10 {
        assert(crate::data::text::digit_value(ds[0]) == d);
    } else {
        assert(crate::data::text::digit_value(ds[0]) == d / 10);
        assert(crate::data::text::digit_value(ds[1]) == d % 10);
        assert((d / 10) * 10 + d % 10 == d);
    }
    assert(ds[0] != '+');
    assert(parse_u32(ds) == Ok::<int, crate::data::text::IntErrorKind>(d));
    assert(month_num(w) == Some(m));
}

} // verus!
