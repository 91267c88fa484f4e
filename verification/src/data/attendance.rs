//! Absences from the attendance log, and the absence limits of each course.
use vstd::prelude::*;

use crate::data::date::{chrono_parse_date, Date};
use crate::data::gradejoin::{digits_end, normalize_course, normalized_course};
use crate::data::streak::{ymd_format};
use crate::data::text::{
    chars_of, contains, contains_str, find, find_chars, lemma_find_from, lines, lower_chars,
    lower_text, parse_u32, parse_u32_chars, slice_chars, split, split_char, split_lines,
    starts_with, starts_with_str, string_of, trim, trim_chars, views, ws_end, is_whitespace,
    ascii_lower, is_regex_digit, push_chars, eq_str,
};
use crate::data::{DayMetric, MetricKind};

verus! {

broadcast use vstd::string::group_string_axioms;

/// Absences and limits of one course.
#[derive(Debug, Clone)]
pub struct CourseAttendanceStatus {
    pub course: String,
    pub lecture_absences: u32,
    pub lab_absences: u32,
    pub lecture_limit: u32,
    pub lab_limit: u32,
}

/// One line of the absences list: `- date | course | component | detail`.
#[derive(Debug, Clone)]
pub struct RawAttendanceEntry {
    pub date_str: String,
    pub course: String,
    pub component: String,
    pub detail: String,
}

/// Absences of one course, counted by component.
#[derive(Debug, Clone)]
pub struct CourseAbsences {
    pub course: String,
    pub lecture: u32,
    pub lab: u32,
}

/// What an absence entry holds.
pub struct EntryView {
    pub date_str: Seq<char>,
    pub course: Seq<char>,
    pub component: Seq<char>,
    pub detail: Seq<char>,
}

impl View for RawAttendanceEntry {
    type V = EntryView;

    open spec fn view(&self) -> EntryView {
        EntryView {
            date_str: self.date_str@,
            course: self.course@,
            component: self.component@,
            detail: self.detail@,
        }
    }
}

/// The entry an absences line describes: an HTML comment (from `<!--` on) is dropped,
/// the line must start with `- ` after trimming, and its `|`-separated fields
/// (trimmed) must be at least three: date, course, component, and an optional
/// detail.
pub open spec fn attendance_line(line: Seq<char>) -> Option<EntryView> {
    let clean = match find(line, "<!--"@) {
        Some(i) => trim(line.subrange(0, i)),
        None => trim(line),
    };
    if !starts_with(clean, "- "@) {
        None
    } else {
        let body = trim(clean.subrange(2, clean.len() as int));
        let parts = split(body, '|');
        if parts.len() < 3 {
            None
        } else {
            Some(
                EntryView {
                    date_str: trim(parts[0]),
                    course: trim(parts[1]),
                    component: trim(parts[2]),
                    detail: if parts.len() > 3 {
                        trim(parts[3])
                    } else {
                        seq![]
                    },
                },
            )
        }
    }
}

/// Parses one line of the absences list (see `attendance_line`).
pub fn parse_attendance_line(line: &str) -> (r: Option<RawAttendanceEntry>)
    ensures
        match attendance_line(line@) {
            Some(e) => r matches Some(re) && re@ == e,
            None => r is None,
        },
{
    let t = chars_of(line);
    let marker = chars_of("<!--");
    let clean = match find_chars(&t, &marker, 0) {
        Some(i) => {
            proof {
                lemma_find_from(t@, marker@, 0);
            }
            let head = slice_chars(&t, 0, i);
            trim_chars(&head)
        },
        None => trim_chars(&t),
    };
    if !starts_with_str(&clean, "- ") {
        return None;
    }
    proof {
        reveal_strlit("- ");
    }
    let rest = slice_chars(&clean, 2, clean.len());
    let body = trim_chars(&rest);
    let parts = split_char(&body, '|');
    assert(views(parts@).len() == parts@.len());
    if parts.len() < 3 {
        return None;
    }
    let d = trim_chars(&parts[0]);
    let c = trim_chars(&parts[1]);
    let k = trim_chars(&parts[2]);
    let det = if parts.len() > 3 {
        trim_chars(&parts[3])
    } else {
        Vec::new()
    };
    Some(
        RawAttendanceEntry {
            date_str: string_of(&d),
            course: string_of(&c),
            component: string_of(&k),
            detail: string_of(&det),
        },
    )
}

/// The section state after a (trimmed) line: `## Absences` opens the absences list,
/// any other `## ` heading closes it.
pub open spec fn section_after(t: Seq<char>, inside: bool) -> bool {
    if starts_with(t, "## Absences"@) {
        true
    } else if starts_with(t, "## "@) {
        false
    } else {
        inside
    }
}

/// The entry of a (trimmed) line when it is an item of the absences list.
pub open spec fn absence_entry(t: Seq<char>, inside: bool) -> Option<EntryView> {
    if !starts_with(t, "## Absences"@) && section_after(t, inside) && starts_with(t, "- "@) {
        attendance_line(t)
    } else {
        None
    }
}

/// The absence entries of the lines from index `i` on.
pub open spec fn absence_entries_from(ls: Seq<Seq<char>>, i: int, inside: bool) -> Seq<EntryView>
    decreases ls.len() - i,
{
    if i < 0 || i >= ls.len() {
        seq![]
    } else {
        let t = trim(ls[i]);
        let here = match absence_entry(t, inside) {
            Some(e) => seq![e],
            None => seq![],
        };
        here + absence_entries_from(ls, i + 1, section_after(t, inside))
    }
}

/// The entries of the `## Absences` section of an attendance log, in order.
pub open spec fn absence_entries(content: Seq<char>) -> Seq<EntryView> {
    absence_entries_from(lines(content), 0, false)
}

/// The metrics of a list of entries: one absence on each entry's date, for the
/// entries whose date parses.
pub open spec fn absence_metrics(es: Seq<EntryView>) -> Seq<DayMetric>
    decreases es.len(),
{
    if es.len() == 0 {
        seq![]
    } else {
        let earlier = absence_metrics(es.drop_last());
        match chrono_parse_date(es.last().date_str, ymd_format()) {
            Ok(t) => earlier.push(
                DayMetric {
                    date: Date { year: t.0 as i32, month: t.1 as u32, day: t.2 as u32 },
                    kind: MetricKind::Attendance,
                    value: 1,
                },
            ),
            Err(_) => earlier,
        }
    }
}

/// The absence entries of an attendance log, in order (see `absence_entries`).
pub fn read_absence_entries(content: &str) -> (r: Vec<RawAttendanceEntry>)
    ensures
        r@.map_values(|e: RawAttendanceEntry| e@) == absence_entries(content@),
{
    let text = chars_of(content);
    let ls = split_lines(&text);
    let mut out: Vec<RawAttendanceEntry> = Vec::new();
    let mut inside = false;
    let mut i: usize = 0;
    while i < ls.len()
        invariant
            i <= ls@.len(),
            views(ls@) == lines(content@),
            out@.map_values(|e: RawAttendanceEntry| e@) + absence_entries_from(
                views(ls@),
                i as int,
                inside,
            ) == absence_entries(content@),
        decreases ls.len() - i,
    {
        let ghost vs = views(ls@);
        let ghost before = out@;
        let ghost was = inside;
        let t = trim_chars(&ls[i]);
        assert(t@ == trim(vs[i as int]));
        let opens = starts_with_str(&t, "## Absences");
        if opens {
            inside = true;
        } else {
            if starts_with_str(&t, "## ") {
                inside = false;
            }
            if inside && starts_with_str(&t, "- ") {
                let ts = string_of(&t);
                match parse_attendance_line(ts.as_str()) {
                    Some(e) => {
                        out.push(e);
                    },
                    None => {},
                }
            }
        }
        proof {
            assert(inside == section_after(t@, was));
            let here = match absence_entry(t@, was) {
                Some(e) => seq![e],
                None => Seq::<EntryView>::empty(),
            };
            assert(out@.map_values(|e: RawAttendanceEntry| e@) =~= before.map_values(
                |e: RawAttendanceEntry| e@,
            ) + here);
        }
        i = i + 1;
    }
    assert(out@.map_values(|e: RawAttendanceEntry| e@) + absence_entries_from(
        views(ls@),
        i as int,
        inside,
    ) =~= out@.map_values(|e: RawAttendanceEntry| e@));
    out
}

/// Parses an attendance log: one absence metric for each entry of the `## Absences`
/// section whose date parses, in order.
pub fn read_attendance_absences(content: &str) -> (r: Vec<DayMetric>)
    ensures
        r@ == absence_metrics(absence_entries(content@)),
        forall|i: int| 0 <= i < r@.len() ==> (#[trigger] r@[i]).date.wf(),
{
    let entries = read_absence_entries(content);
    let ghost es = entries@.map_values(|e: RawAttendanceEntry| e@);
    let mut out: Vec<DayMetric> = Vec::new();
    let mut i: usize = 0;
    while i < entries.len()
        invariant
            i <= entries@.len(),
            es == entries@.map_values(|e: RawAttendanceEntry| e@),
            out@ == absence_metrics(es.take(i as int)),
            forall|j: int| 0 <= j < out@.len() ==> (#[trigger] out@[j]).date.wf(),
        decreases entries.len() - i,
    {
        proof {
            assert(es.take(i + 1).drop_last() =~= es.take(i as int));
            assert(es.take(i + 1).last() == entries@[i as int]@);
        }
        match crate::data::date::parse_date(entries[i].date_str.as_str(), "%Y-%m-%d") {
            Ok(date) => {
                out.push(DayMetric { date, kind: MetricKind::Attendance, value: 1 });
            },
            Err(_) => {},
        }
        i = i + 1;
    }
    assert(es.take(i as int) =~= es);
    out
}

// ---------------------------------------------------------------------------
// Counting absences per course

/// Adds one absence of `course` (lab or lecture) to per-course counts kept in order of
/// first appearance.
pub open spec fn add_absence(counts: Seq<(Seq<char>, int, int)>, course: Seq<char>, lab: bool) -> Seq<(Seq<char>, int, int)> {
    if exists|k: int| 0 <= k < counts.len() && counts[k].0 == course {
        let k = choose|k: int| 0 <= k < counts.len() && counts[k].0 == course;
        let c = counts[k];
        counts.update(k, if lab { (c.0, c.1, c.2 + 1) } else { (c.0, c.1 + 1, c.2) })
    } else {
        counts.push(if lab { (course, 0, 1) } else { (course, 1, 0) })
    }
}

/// An entry counts as a lab absence when its component mentions `lab`.
pub open spec fn is_lab_component(component: Seq<char>) -> bool {
    contains(lower_text(component), "lab"@)
}

/// Absences per normalised course, in order of first appearance: lecture absences,
/// then lab absences.
pub open spec fn absence_counts(es: Seq<EntryView>) -> Seq<(Seq<char>, int, int)>
    decreases es.len(),
{
    if es.len() == 0 {
        seq![]
    } else {
        add_absence(
            absence_counts(es.drop_last()),
            normalized_course(es.last().course),
            is_lab_component(es.last().component),
        )
    }
}

pub open spec fn counts_view(v: Seq<CourseAbsences>) -> Seq<(Seq<char>, int, int)> {
    v.map_values(|c: CourseAbsences| (c.course@, c.lecture as int, c.lab as int))
}

/// Per-course counts whose courses are distinct and whose counts add up to at most `n`.
pub open spec fn counts_ok(counts: Seq<(Seq<char>, int, int)>, n: int) -> bool {
    &&& forall|a: int, b: int| 0 <= a < b < counts.len() ==> counts[a].0 != counts[b].0
    &&& forall|a: int|
        0 <= a < counts.len() ==> counts[a].1 >= 0 && counts[a].2 >= 0 && counts[a].1
            + counts[a].2 <= n
}

proof fn lemma_add_absence(counts: Seq<(Seq<char>, int, int)>, course: Seq<char>, lab: bool, n: int)
    requires
        counts_ok(counts, n),
        n >= 0,
    ensures
        counts_ok(add_absence(counts, course, lab), n + 1),
{
}

proof fn lemma_counts_ok(es: Seq<EntryView>)
    ensures
        counts_ok(absence_counts(es), es.len() as int),
    decreases es.len(),
{
    if es.len() > 0 {
        lemma_counts_ok(es.drop_last());
        lemma_add_absence(
            absence_counts(es.drop_last()),
            normalized_course(es.last().course),
            is_lab_component(es.last().component),
            es.len() - 1,
        );
    }
}

/// Counts the absences of an attendance log per normalised course; `None` when some
/// course's count would not fit a `u32`.
fn absence_tally(content: &str) -> (r: Option<Vec<CourseAbsences>>)
    ensures
        match r {
            Some(v) => counts_view(v@) == absence_counts(absence_entries(content@)),
            None => !counts_fit_u32(absence_counts(absence_entries(content@))),
        },
{
    let entries = read_absence_entries(content);
    let ghost es = entries@.map_values(|e: RawAttendanceEntry| e@);
    let mut out: Vec<CourseAbsences> = Vec::new();
    let mut i: usize = 0;
    while i < entries.len()
        invariant
            i <= entries@.len(),
            es == entries@.map_values(|e: RawAttendanceEntry| e@),
            es == absence_entries(content@),
            counts_view(out@) == absence_counts(es.take(i as int)),
        decreases entries.len() - i,
    {
        let ghost prefix = es.take(i as int);
        proof {
            assert(es.take(i + 1).drop_last() =~= prefix);
            assert(es.take(i + 1).last() == entries@[i as int]@);
            lemma_counts_ok(prefix);
        }
        let norm = normalize_course(entries[i].course.as_str());
        let comp = lower_chars(&chars_of(entries[i].component.as_str()));
        let lab = contains_str(&comp, "lab");
        let nc = chars_of(norm.as_str());
        let mut k: usize = 0;
        let mut found = false;
        while k < out.len() && !found
            invariant
                k <= out@.len(),
                nc@ == norm@,
                forall|j: int| 0 <= j < k ==> out@[j].course@ != norm@,
                found ==> k < out@.len() && out@[k as int].course@ == norm@,
            decreases out.len() - k + (if found { 0int } else { 1int }),
        {
            let oc = chars_of(out[k].course.as_str());
            proof {
                if oc@.len() == nc@.len() {
                    assert(oc@.subrange(0, nc@.len() as int) =~= oc@);
                }
            }
            if oc.len() == nc.len() && crate::data::text::matches_at(&oc, 0, &nc) {
                found = true;
            } else {
                k = k + 1;
            }
        }
        let ghost before = out@;
        if found {
            let full = if lab {
                out[k].lab == u32::MAX
            } else {
                out[k].lecture == u32::MAX
            };
            if full {
                proof {
                    let cv = counts_view(before);
                    assert(cv[k as int].0 == norm@);
                    let kk = choose|j: int| 0 <= j < cv.len() && cv[j].0 == norm@;
                    assert(kk == k);
                    let grown = add_absence(cv, norm@, lab);
                    assert(grown =~= absence_counts(es.take(i + 1)));
                    lemma_counts_grow(es, i + 1, es.len() as int);
                    assert(es.take(es.len() as int) =~= es);
                    let fin = absence_counts(es);
                    assert(!(fin[k as int].1 <= u32::MAX && fin[k as int].2 <= u32::MAX));
                }
                return None;
            }
            proof {
                assert(counts_view(before)[k as int].0 == norm@);
            }
            let mut entry = out.remove(k);
            if lab {
                entry.lab = entry.lab + 1;
            } else {
                entry.lecture = entry.lecture + 1;
            }
            out.insert(k, entry);
            proof {
                let cv = counts_view(before);
                assert(exists|j: int| 0 <= j < cv.len() && cv[j].0 == norm@);
                let kk = choose|j: int| 0 <= j < cv.len() && cv[j].0 == norm@;
                assert(kk == k);
                assert(counts_view(out@) =~= add_absence(cv, norm@, lab));
            }
        } else {
            out.push(CourseAbsences { course: norm, lecture: if lab { 0 } else { 1 }, lab: if lab { 1 } else { 0 } });
            proof {
                let cv = counts_view(before);
                assert(!exists|j: int| 0 <= j < cv.len() && cv[j].0 == norm@);
                assert(counts_view(out@) =~= add_absence(cv, norm@, lab));
            }
        }
        i = i + 1;
    }
    assert(es.take(i as int) =~= es);
    Some(out)
}

/// Counts the absences of an attendance log per normalised course (see
/// `absence_counts`). No course may count more than `u32::MAX` lecture or lab
/// absences.
pub fn course_absence_counts(content: &str) -> (r: Vec<CourseAbsences>)
    requires
        counts_fit_u32(absence_counts(absence_entries(content@))),
    ensures
        counts_view(r@) == absence_counts(absence_entries(content@)),
        forall|a: int, b: int|
            0 <= a < b < r@.len() ==> (#[trigger] r@[a]).course@ != (#[trigger] r@[b]).course@,
        forall|a: int|
            0 <= a < r@.len() ==> {
                &&& (#[trigger] r@[a]).lecture == course_entries(absence_entries(content@), r@[a].course@, false)
                &&& r@[a].lab == course_entries(absence_entries(content@), r@[a].course@, true)
            },
        forall|j: int|
            0 <= j < absence_entries(content@).len() ==> exists|a: int|
                0 <= a < r@.len() && (#[trigger] r@[a]).course@ == normalized_course(
                    (#[trigger] absence_entries(content@)[j]).course,
                ),
{
    proof {
        let es = absence_entries(content@);
        law_absence_counts(es);
        law_course_counts(es);
    }
    match absence_tally(content) {
        Some(v) => {
            proof {
                let es = absence_entries(content@);
                let c = absence_counts(es);
                assert forall|a: int, b: int| 0 <= a < b < v@.len() implies (#[trigger] v@[a]).course@ != (
                #[trigger] v@[b]).course@ by {
                    assert(counts_view(v@)[a].0 == v@[a].course@);
                    assert(counts_view(v@)[b].0 == v@[b].course@);
                }
                assert forall|a: int| 0 <= a < v@.len() implies {
                    &&& (#[trigger] v@[a]).lecture == course_entries(es, v@[a].course@, false)
                    &&& v@[a].lab == course_entries(es, v@[a].course@, true)
                } by {
                    assert(counts_view(v@)[a] == c[a]);
                }
                assert forall|j: int| 0 <= j < es.len() implies exists|a: int|
                    0 <= a < v@.len() && (#[trigger] v@[a]).course@ == normalized_course((#[trigger] es[j]).course) by {
                    let a = choose|a: int| 0 <= a < c.len() && (#[trigger] c[a]).0 == normalized_course(es[j].course);
                    assert(counts_view(v@)[a] == c[a]);
                }
            }
            v
        },
        None => {
            assert(false);
            Vec::new()
        },
    }
}

/// `course_absence_counts` for any attendance log: `None` exactly when some course
/// counts more than `u32::MAX` lecture or lab absences.
pub fn course_absence_counts_checked(content: &str) -> (r: Option<Vec<CourseAbsences>>)
    ensures
        r is Some <==> counts_fit_u32(absence_counts(absence_entries(content@))),
        r matches Some(v) ==> counts_view(v@) == absence_counts(absence_entries(content@)),
{
    let n = chars_of(content).len();
    if n < u32::MAX as usize {
        proof {
            lemma_entries_bound(content@);
            lemma_counts_ok(absence_entries(content@));
        }
        return Some(course_absence_counts(content));
    }
    let r = absence_tally(content);
    proof {
        if r is Some {
            let cv = counts_view(r.unwrap()@);
            assert forall|a: int| 0 <= a < cv.len() implies (#[trigger] cv[a]).1 <= u32::MAX
                && cv[a].2 <= u32::MAX by {
                assert(cv[a] == (r.unwrap()@[a].course@, r.unwrap()@[a].lecture as int, r.unwrap()@[a].lab as int));
            }
        }
    }
    r
}

/// Every course's lecture and lab counts fit a `u32`.
pub open spec fn counts_fit_u32(counts: Seq<(Seq<char>, int, int)>) -> bool {
    forall|a: int| 0 <= a < counts.len() ==> (#[trigger] counts[a]).1 <= u32::MAX && counts[a].2 <= u32::MAX
}

/// `b` keeps every course of `a` at its place, with counts no lower.
pub open spec fn counts_grow(a: Seq<(Seq<char>, int, int)>, b: Seq<(Seq<char>, int, int)>) -> bool {
    &&& a.len() <= b.len()
    &&& forall|k: int|
        0 <= k < a.len() ==> (#[trigger] b[k]).0 == a[k].0 && a[k].1 <= b[k].1 && a[k].2 <= b[k].2
}

/// Counting the absences of more entries keeps every course and lowers no count.
proof fn lemma_counts_grow(es: Seq<EntryView>, i: int, j: int)
    requires
        0 <= i <= j <= es.len(),
    ensures
        counts_grow(absence_counts(es.take(i)), absence_counts(es.take(j))),
    decreases j - i,
{
    if i < j {
        lemma_counts_grow(es, i, j - 1);
        assert(es.take(j).drop_last() =~= es.take(j - 1));
        let a = absence_counts(es.take(i));
        let b = absence_counts(es.take(j - 1));
        let c = absence_counts(es.take(j));
        assert(c == add_absence(b, normalized_course(es[j - 1].course), is_lab_component(es[j - 1].component)));
        assert forall|k: int| 0 <= k < a.len() implies (#[trigger] c[k]).0 == a[k].0 && a[k].1 <= c[k].1
            && a[k].2 <= c[k].2 by {
            assert(b[k].0 == a[k].0);
        }
    }
}

proof fn lemma_entries_bound(content: Seq<char>)
    ensures
        absence_entries(content).len() <= content.len(),
{
    crate::data::text::lemma_lines_count(content);
    lemma_entries_from_bound(lines(content), 0, false);
}

proof fn lemma_entries_from_bound(ls: Seq<Seq<char>>, i: int, inside: bool)
    requires
        0 <= i,
    ensures
        absence_entries_from(ls, i, inside).len() <= if i < ls.len() {
            ls.len() - i
        } else {
            0
        },
    decreases ls.len() - i,
{
    if i < ls.len() {
        lemma_entries_from_bound(ls, i + 1, section_after(trim(ls[i]), inside));
    }
}

// ---------------------------------------------------------------------------
// Absence limits

/// A limit statement at `i` (`(?i)([≥>]\s*)?(\d+)\s*(lecture|lab)`): whether it is
/// introduced by `>`, its number, and whether it is about lectures.
pub open spec fn limit_at(t: Seq<char>, i: int) -> Option<(bool, Seq<char>, bool)> {
    if i < 0 || i >= t.len() {
        None
    } else {
        let has_mark = t[i] == '≥' || t[i] == '>';
        let ds = if has_mark {
            ws_end(t, i + 1, t.len() as int)
        } else {
            i
        };
        let de = digits_end(t, ds);
        let w = ws_end(t, de, t.len() as int);
        if de > ds && ci_word_at(t, w, seq!['l', 'e', 'c', 't', 'u', 'r', 'e']) {
            Some((t[i] == '>', t.subrange(ds, de), true))
        } else if de > ds && ci_word_at(t, w, seq!['l', 'a', 'b']) {
            Some((t[i] == '>', t.subrange(ds, de), false))
        } else {
            None
        }
    }
}

/// The ASCII letters `word` occur at `i`, in any case.
pub open spec fn ci_word_at(t: Seq<char>, i: int, word: Seq<char>) -> bool {
    0 <= i && i + word.len() <= t.len() && forall|k: int|
        0 <= k < word.len() ==> ascii_lower(#[trigger] t[i + k]) == word[k] as u32
}

/// The leftmost limit statement at or after `i`.
pub open spec fn first_limit(t: Seq<char>, i: int) -> Option<(bool, Seq<char>, bool)>
    decreases t.len() + 1 - i,
{
    if i < 0 || i > t.len() {
        None
    } else if limit_at(t, i) is Some {
        limit_at(t, i)
    } else {
        first_limit(t, i + 1)
    }
}

/// The limit a statement sets: its number (4 when it does not fit a `u32`), one more
/// when introduced by `>`.
pub open spec fn limit_value(m: (bool, Seq<char>, bool)) -> int {
    let n = match parse_u32(m.1) {
        Ok(v) => v,
        Err(_) => 4,
    };
    if m.0 {
        n + 1
    } else {
        n
    }
}

/// A line of a grading note that mentions absences or attendance (in any case).
pub open spec fn mentions_absences(line: Seq<char>) -> bool {
    let lo = lower_text(line);
    contains(lo, "absence"@) || contains(lo, "attendance"@)
}

/// The limit a line of a grading note sets, and whether it is the lecture limit:
/// lines that mention absences or attendance may carry a limit statement.
pub open spec fn line_limit(line: Seq<char>) -> Option<(int, bool)> {
    if mentions_absences(line) {
        match first_limit(line, 0) {
            Some(m) => Some((limit_value(m), m.2)),
            None => None,
        }
    } else {
        None
    }
}

/// The limits after one line of a grading note (see `line_limit`).
pub open spec fn limits_after_line(line: Seq<char>, lim: (int, int)) -> (int, int) {
    match line_limit(line) {
        Some((v, lec)) => if lec {
            (v, lim.1)
        } else {
            (lim.0, v)
        },
        None => lim,
    }
}

pub open spec fn limits_from(ls: Seq<Seq<char>>, i: int, lim: (int, int)) -> (int, int)
    decreases ls.len() - i,
{
    if i < 0 || i >= ls.len() {
        lim
    } else {
        limits_from(ls, i + 1, limits_after_line(ls[i], lim))
    }
}

/// The lecture and lab absence limits a course's grading note sets; 4 and 4 when it
/// has none, or when the note is absent.
pub open spec fn attendance_limits_of(grading: Option<Seq<char>>) -> (int, int) {
    match grading {
        Some(c) => limits_from(lines(c), 0, (4, 4)),
        None => (4, 4),
    }
}

/// Every limit the note sets fits a `u32` (one introduced by `>` is one more than
/// its number, which overflows for the largest `u32`).
pub open spec fn limits_fit(c: Seq<char>) -> bool {
    forall|i: int|
        0 <= i < lines(c).len() ==> match line_limit(#[trigger] lines(c)[i]) {
            Some((v, _)) => v <= u32::MAX,
            None => true,
        }
}

fn ci_word_exec(t: &[char], i: usize, word: &[char]) -> (r: bool)
    ensures
        r == ci_word_at(t@, i as int, word@),
{
    if i > t.len() || word.len() > t.len() - i {
        return false;
    }
    let n = t.len();
    let mut k: usize = 0;
    while k < word.len()
        invariant
            n == t@.len(),
            i + word@.len() <= t@.len(),
            k <= word@.len(),
            forall|j: int| 0 <= j < k ==> ascii_lower(#[trigger] t@[i + j]) == word@[j] as u32,
        decreases word.len() - k,
    {
        let c = t[i + k];
        if crate::data::text::ascii_lower_code(c) != word[k] as u32 {
            return false;
        }
        k = k + 1;
    }
    true
}

fn limit_exec(t: &[char], i: usize) -> (r: Option<(bool, Vec<char>, bool)>)
    ensures
        match limit_at(t@, i as int) {
            Some((g, d, lec)) => r matches Some((rg, rd, rl)) && rg == g && rd@ == d && rl == lec,
            None => r is None,
        },
{
    if i >= t.len() {
        return None;
    }
    let has_mark = t[i] == '≥' || t[i] == '>';
    let mut ds = i;
    if has_mark {
        ds = i + 1;
        while ds < t.len() && is_whitespace(t[ds])
            invariant
                i + 1 <= ds <= t@.len(),
                ws_end(t@, i + 1, t@.len() as int) == ws_end(t@, ds as int, t@.len() as int),
            decreases t.len() - ds,
        {
            ds = ds + 1;
        }
    }
    let mut de = ds;
    while de < t.len() && is_regex_digit(t[de])
        invariant
            ds <= de <= t@.len(),
            digits_end(t@, ds as int) == digits_end(t@, de as int),
        decreases t.len() - de,
    {
        de = de + 1;
    }
    let mut w = de;
    while w < t.len() && is_whitespace(t[w])
        invariant
            de <= w <= t@.len(),
            ws_end(t@, de as int, t@.len() as int) == ws_end(t@, w as int, t@.len() as int),
        decreases t.len() - w,
    {
        w = w + 1;
    }
    let lecture = vec!['l', 'e', 'c', 't', 'u', 'r', 'e'];
    let lab = vec!['l', 'a', 'b'];
    assert(lecture@ =~= seq!['l', 'e', 'c', 't', 'u', 'r', 'e']);
    assert(lab@ =~= seq!['l', 'a', 'b']);
    if de > ds && ci_word_exec(t, w, &lecture) {
        Some((t[i] == '>', slice_chars(t, ds, de), true))
    } else if de > ds && ci_word_exec(t, w, &lab) {
        Some((t[i] == '>', slice_chars(t, ds, de), false))
    } else {
        None
    }
}

/// The limit a line of a grading note sets (see `line_limit`).
fn line_limit_exec(line: &[char]) -> (r: Option<(u64, bool)>)
    ensures
        match line_limit(line@) {
            Some((v, lec)) => r == Some((v as u64, lec)) && 0 <= v <= u32::MAX + 1,
            None => r is None,
        },
{
    let lo = lower_chars(line);
    if !(contains_str(&lo, "absence") || contains_str(&lo, "attendance")) {
        return None;
    }
    let mut j: usize = 0;
    let mut found: Option<(bool, Vec<char>, bool)> = None;
    while j < line.len() && found.is_none()
        invariant
            j <= line@.len(),
            found is None ==> first_limit(line@, 0) == first_limit(line@, j as int),
            found matches Some(m) ==> first_limit(line@, 0) == Some((m.0, m.1@, m.2)),
        decreases line.len() - j + (if found is None { 1int } else { 0int }),
    {
        let m = limit_exec(line, j);
        if m.is_some() {
            found = m;
        } else {
            j = j + 1;
        }
    }
    proof {
        if found is None {
            assert(limit_at(line@, j as int) is None);
            assert(first_limit(line@, j + 1) is None);
        }
    }
    match found {
        Some((greater, digits, lec)) => {
            assert(digits@.subrange(0, digits@.len() as int) =~= digits@);
            let n: u64 = match parse_u32_chars(&digits, 0, digits.len()) {
                Ok(v) => v as u64,
                Err(_) => 4,
            };
            let v = if greater {
                n + 1
            } else {
                n
            };
            Some((v, lec))
        },
        None => None,
    }
}

/// Whether every limit a grading note sets fits a `u32` (see `limits_fit`).
pub fn grading_limits_fit(content: &str) -> (r: bool)
    ensures
        r == limits_fit(content@),
{
    let text = chars_of(content);
    let ls = split_lines(&text);
    let mut i: usize = 0;
    while i < ls.len()
        invariant
            i <= ls@.len(),
            views(ls@) == lines(content@),
            forall|k: int|
                0 <= k < i ==> match line_limit(#[trigger] lines(content@)[k]) {
                    Some((v, _)) => v <= u32::MAX,
                    None => true,
                },
        decreases ls.len() - i,
    {
        assert(ls@[i as int]@ == lines(content@)[i as int]);
        match line_limit_exec(&ls[i]) {
            Some((v, _)) => {
                if v > u32::MAX as u64 {
                    proof {
                        let l = lines(content@)[i as int];
                        assert(!(match line_limit(l) {
                            Some((v, _)) => v <= u32::MAX,
                            None => true,
                        }));
                    }
                    return false;
                }
            },
            None => {},
        }
        i = i + 1;
    }
    true
}

/// The lecture and lab absence limits set by a course's grading note (`None` when the
/// course has no readable grading note); see `attendance_limits_of`.
pub fn attendance_limits(grading: Option<&str>) -> (r: (u32, u32))
    requires
        grading matches Some(c) ==> limits_fit(c@),
    ensures
        r.0 == attendance_limits_of(
            match grading {
                Some(c) => Some(c@),
                None => None,
            },
        ).0,
        r.1 == attendance_limits_of(
            match grading {
                Some(c) => Some(c@),
                None => None,
            },
        ).1,
{
    let mut lecture_limit: u32 = 4;
    let mut lab_limit: u32 = 4;
    let content = match grading {
        Some(c) => c,
        None => {
            return (4, 4);
        },
    };
    let text = chars_of(content);
    let ls = split_lines(&text);
    let mut i: usize = 0;
    while i < ls.len()
        invariant
            i <= ls@.len(),
            views(ls@) == lines(content@),
            limits_fit(content@),
            limits_from(views(ls@), i as int, (lecture_limit as int, lab_limit as int))
                == limits_from(views(ls@), 0, (4, 4)),
        decreases ls.len() - i,
    {
        let ghost vs = views(ls@);
        let line = &ls[i];
        assert(line@ == vs[i as int]);
        match line_limit_exec(line) {
            Some((v, lec)) => {
                proof {
                    assert(vs[i as int] == lines(content@)[i as int]);
                    assert(line_limit(vs[i as int]) is Some);
                }
                if lec {
                    lecture_limit = v as u32;
                } else {
                    lab_limit = v as u32;
                }
            },
            None => {},
        }
        i = i + 1;
    }
    (lecture_limit, lab_limit)
}

/// The directory of a course's notes: its normalised name without spaces.
pub open spec fn course_dir_of(course: Seq<char>) -> Seq<char> {
    without_spaces(normalized_course(course))
}

/// A text with its space characters removed.
pub open spec fn without_spaces(s: Seq<char>) -> Seq<char>
    decreases s.len(),
{
    if s.len() == 0 {
        s
    } else if s.last() == ' ' {
        without_spaces(s.drop_last())
    } else {
        without_spaces(s.drop_last()).push(s.last())
    }
}

/// The directory (under the academics folder) that holds a course's grading note.
pub fn course_grading_dir(course: &str) -> (r: String)
    ensures
        r@ == course_dir_of(course@),
{
    let norm = normalize_course(course);
    let t = chars_of(norm.as_str());
    let mut out: Vec<char> = Vec::new();
    let mut i: usize = 0;
    while i < t.len()
        invariant
            i <= t@.len(),
            out@ == without_spaces(t@.take(i as int)),
        decreases t.len() - i,
    {
        proof {
            assert(t@.take(i + 1).drop_last() =~= t@.take(i as int));
        }
        if t[i] != ' ' {
            out.push(t[i]);
        }
        i = i + 1;
    }
    assert(t@.take(i as int) =~= t@);
    string_of(&out)
}

/// The attendance status of each course: its absence counts and the limits its
/// grading note sets. `gradings[i]` holds the grading note of `counts[i].course`
/// (under `course_grading_dir`), when there is one.
pub fn get_attendance_status(counts: &Vec<CourseAbsences>, gradings: &Vec<Option<String>>) -> (r: Vec<CourseAttendanceStatus>)
    requires
        counts@.len() == gradings@.len(),
        forall|i: int| 0 <= i < gradings@.len() ==> (#[trigger] gradings@[i] matches Some(c) ==> limits_fit(c@)),
    ensures
        r@.len() == counts@.len(),
        forall|i: int| 0 <= i < r@.len() ==> {
            let lim = attendance_limits_of(
                match #[trigger] gradings@[i] {
                    Some(c) => Some(c@),
                    None => None,
                },
            );
            &&& r@[i].course@ == counts@[i].course@
            &&& r@[i].lecture_absences == counts@[i].lecture
            &&& r@[i].lab_absences == counts@[i].lab
            &&& r@[i].lecture_limit == lim.0
            &&& r@[i].lab_limit == lim.1
        },
{
    let mut out: Vec<CourseAttendanceStatus> = Vec::new();
    let mut i: usize = 0;
    while i < counts.len()
        invariant
            i <= counts@.len(),
            counts@.len() == gradings@.len(),
            forall|i: int| 0 <= i < gradings@.len() ==> (#[trigger] gradings@[i] matches Some(c) ==> limits_fit(c@)),
            out@.len() == i,
            forall|k: int| 0 <= k < i ==> {
                let lim = attendance_limits_of(
                    match #[trigger] gradings@[k] {
                        Some(c) => Some(c@),
                        None => None,
                    },
                );
                &&& out@[k].course@ == counts@[k].course@
                &&& out@[k].lecture_absences == counts@[k].lecture
                &&& out@[k].lab_absences == counts@[k].lab
                &&& out@[k].lecture_limit == lim.0
                &&& out@[k].lab_limit == lim.1
            },
        decreases counts.len() - i,
    {
        let g: Option<&str> = match &gradings[i] {
            Some(c) => Some(c.as_str()),
            None => None,
        };
        let (lec_limit, lab_limit) = attendance_limits(g);
        let c = &counts[i];
        out.push(
            CourseAttendanceStatus {
                course: c.course.clone(),
                lecture_absences: c.lecture,
                lab_absences: c.lab,
                lecture_limit: lec_limit,
                lab_limit,
            },
        );
        i = i + 1;
    }
    out
}

/// The attendance status of each course (see `get_attendance_status`), or `None` when
/// some grading note sets a limit that does not fit a `u32` (see `limits_fit`).
pub fn attendance_status_checked(counts: &Vec<CourseAbsences>, gradings: &Vec<Option<String>>) -> (r: Option<Vec<CourseAttendanceStatus>>)
    requires
        counts@.len() == gradings@.len(),
    ensures
        r is Some <==> forall|i: int|
            0 <= i < gradings@.len() ==> (#[trigger] gradings@[i] matches Some(c) ==> limits_fit(c@)),
        r matches Some(v) ==> v@.len() == counts@.len() && forall|i: int|
            0 <= i < v@.len() ==> {
                let lim = attendance_limits_of(
                    match #[trigger] gradings@[i] {
                        Some(c) => Some(c@),
                        None => None,
                    },
                );
                &&& v@[i].course@ == counts@[i].course@
                &&& v@[i].lecture_absences == counts@[i].lecture
                &&& v@[i].lab_absences == counts@[i].lab
                &&& v@[i].lecture_limit == lim.0
                &&& v@[i].lab_limit == lim.1
            },
{
    let mut i: usize = 0;
    while i < gradings.len()
        invariant
            i <= gradings@.len(),
            forall|k: int| 0 <= k < i ==> (#[trigger] gradings@[k] matches Some(c) ==> limits_fit(c@)),
        decreases gradings.len() - i,
    {
        match &gradings[i] {
            Some(c) => {
                if !grading_limits_fit(c.as_str()) {
                    return None;
                }
            },
            None => {},
        }
        i = i + 1;
    }
    Some(get_attendance_status(counts, gradings))
}

// ---------------------------------------------------------------------------
// Laws

/// The number of absences the per-course counts hold.
pub open spec fn counts_total(c: Seq<(Seq<char>, int, int)>) -> int
    decreases c.len(),
{
    if c.len() == 0 {
        0
    } else {
        counts_total(c.drop_last()) + c.last().1 + c.last().2
    }
}

proof fn lemma_counts_total_update(c: Seq<(Seq<char>, int, int)>, k: int, x: (Seq<char>, int, int))
    requires
        0 <= k < c.len(),
    ensures
        counts_total(c.update(k, x)) == counts_total(c) - c[k].1 - c[k].2 + x.1 + x.2,
    decreases c.len(),
{
    if k < c.len() - 1 {
        lemma_counts_total_update(c.drop_last(), k, x);
        assert(c.update(k, x).drop_last() =~= c.drop_last().update(k, x));
    } else {
        assert(c.update(k, x).drop_last() =~= c.drop_last());
    }
}

proof fn lemma_counts_total_push(c: Seq<(Seq<char>, int, int)>, x: (Seq<char>, int, int))
    ensures
        counts_total(c.push(x)) == counts_total(c) + x.1 + x.2,
{
    assert(c.push(x).drop_last() =~= c);
}

/// Counting absences per course keeps every absence: the counts add up to the number
/// of entries, and each course is counted under one name only once.
pub proof fn law_absence_counts(es: Seq<EntryView>)
    ensures
        counts_total(absence_counts(es)) == es.len(),
        forall|a: int, b: int|
            0 <= a < b < absence_counts(es).len() ==> (#[trigger] absence_counts(es)[a]).0 != (
            #[trigger] absence_counts(es)[b]).0,
    decreases es.len(),
{
    lemma_counts_ok(es);
    if es.len() > 0 {
        law_absence_counts(es.drop_last());
        let c = absence_counts(es.drop_last());
        let course = normalized_course(es.last().course);
        let lab = is_lab_component(es.last().component);
        if exists|k: int| 0 <= k < c.len() && c[k].0 == course {
            let k = choose|k: int| 0 <= k < c.len() && c[k].0 == course;
            let x = c[k];
            lemma_counts_total_update(
                c,
                k,
                if lab {
                    (x.0, x.1, x.2 + 1)
                } else {
                    (x.0, x.1 + 1, x.2)
                },
            );
        } else {
            lemma_counts_total_push(
                c,
                if lab {
                    (course, 0, 1)
                } else {
                    (course, 1, 0)
                },
            );
        }
    }
}

/// How many of the entries are absences of the normalised course `course`, counting
/// lab absences when `lab` holds and lecture absences otherwise.
pub open spec fn course_entries(es: Seq<EntryView>, course: Seq<char>, lab: bool) -> int
    decreases es.len(),
{
    if es.len() == 0 {
        0
    } else {
        course_entries(es.drop_last(), course, lab) + if normalized_course(es.last().course) == course
            && is_lab_component(es.last().component) == lab {
            1int
        } else {
            0int
        }
    }
}

proof fn lemma_course_entries_none(es: Seq<EntryView>, course: Seq<char>, lab: bool)
    requires
        forall|j: int| 0 <= j < es.len() ==> normalized_course((#[trigger] es[j]).course) != course,
    ensures
        course_entries(es, course, lab) == 0,
    decreases es.len(),
{
    if es.len() > 0 {
        assert forall|j: int| 0 <= j < es.drop_last().len() implies normalized_course(
            (#[trigger] es.drop_last()[j]).course,
        ) != course by {
            assert(es.drop_last()[j] == es[j]);
        }
        lemma_course_entries_none(es.drop_last(), course, lab);
        assert(es[es.len() - 1] == es.last());
    }
}

/// Each course's counts are exactly its lecture and lab absences among the entries,
/// and every entry's course has its counts.
pub proof fn law_course_counts(es: Seq<EntryView>)
    ensures
        forall|a: int|
            0 <= a < absence_counts(es).len() ==> {
                let c = #[trigger] absence_counts(es)[a];
                &&& c.1 == course_entries(es, c.0, false)
                &&& c.2 == course_entries(es, c.0, true)
            },
        forall|j: int|
            0 <= j < es.len() ==> exists|a: int|
                0 <= a < absence_counts(es).len() && (#[trigger] absence_counts(es)[a]).0
                    == normalized_course((#[trigger] es[j]).course),
    decreases es.len(),
{
    if es.len() > 0 {
        let p = es.drop_last();
        law_course_counts(p);
        law_absence_counts(p);
        let c = absence_counts(p);
        let x = es.last();
        let course = normalized_course(x.course);
        let lab = is_lab_component(x.component);
        let n = absence_counts(es);
        assert(n == add_absence(c, course, lab));
        if exists|k: int| 0 <= k < c.len() && c[k].0 == course {
            let k = choose|k: int| 0 <= k < c.len() && c[k].0 == course;
            assert forall|a: int| 0 <= a < n.len() implies {
                let m = #[trigger] n[a];
                &&& m.1 == course_entries(es, m.0, false)
                &&& m.2 == course_entries(es, m.0, true)
            } by {
                assert(c[a].1 == course_entries(p, c[a].0, false));
                assert(c[a].2 == course_entries(p, c[a].0, true));
            }
            assert forall|j: int| 0 <= j < es.len() implies exists|a: int|
                0 <= a < n.len() && (#[trigger] n[a]).0 == normalized_course((#[trigger] es[j]).course) by {
                if j < p.len() {
                    assert(es[j] == p[j]);
                    let a = choose|a: int| 0 <= a < c.len() && (#[trigger] c[a]).0 == normalized_course(p[j].course);
                    assert(n[a].0 == c[a].0);
                } else {
                    assert(n[k].0 == course);
                }
            }
        } else {
            assert forall|j: int| 0 <= j < p.len() implies normalized_course((#[trigger] p[j]).course) != course by {
                let a = choose|a: int| 0 <= a < c.len() && (#[trigger] c[a]).0 == normalized_course(p[j].course);
            }
            lemma_course_entries_none(p, course, true);
            lemma_course_entries_none(p, course, false);
            assert forall|a: int| 0 <= a < n.len() implies {
                let m = #[trigger] n[a];
                &&& m.1 == course_entries(es, m.0, false)
                &&& m.2 == course_entries(es, m.0, true)
            } by {
                if a < c.len() {
                    assert(n[a] == c[a]);
                    assert(c[a].1 == course_entries(p, c[a].0, false));
                    assert(c[a].2 == course_entries(p, c[a].0, true));
                }
            }
            assert forall|j: int| 0 <= j < es.len() implies exists|a: int|
                0 <= a < n.len() && (#[trigger] n[a]).0 == normalized_course((#[trigger] es[j]).course) by {
                if j < p.len() {
                    assert(es[j] == p[j]);
                    let a = choose|a: int| 0 <= a < c.len() && (#[trigger] c[a]).0 == normalized_course(p[j].course);
                    assert(n[a].0 == c[a].0);
                } else {
                    assert(n[c.len() as int].0 == course);
                }
            }
        }
    }
}

/// An absences line with its HTML comment dropped, trimmed.
pub open spec fn line_without_comment(line: Seq<char>) -> Seq<char> {
    match find(line, "<!--"@) {
        Some(i) => trim(line.subrange(0, i)),
        None => trim(line),
    }
}

/// An absences line describes an entry exactly when, its comment dropped, it starts
/// with `- ` and the rest has at least three `|`-separated fields; the entry's fields
/// are then those fields, trimmed, the detail empty when there is no fourth.
pub proof fn law_attendance_line(line: Seq<char>)
    ensures
        attendance_line(line) is Some <==> {
            let c = line_without_comment(line);
            &&& starts_with(c, "- "@)
            &&& split(trim(c.subrange(2, c.len() as int)), '|').len() >= 3
        },
        attendance_line(line) matches Some(e) ==> {
            let c = line_without_comment(line);
            let parts = split(trim(c.subrange(2, c.len() as int)), '|');
            &&& e.date_str == trim(parts[0])
            &&& e.course == trim(parts[1])
            &&& e.component == trim(parts[2])
            &&& e.detail == (if parts.len() > 3 { trim(parts[3]) } else { Seq::<char>::empty() })
        },
{
}

/// Whether an entry's date parses as `%Y-%m-%d`.
pub open spec fn entry_dated(e: EntryView) -> bool {
    chrono_parse_date(e.date_str, ymd_format()) is Ok
}

/// The absence an entry with a parsable date gives: one, on that date.
pub open spec fn entry_metric(e: EntryView) -> DayMetric {
    let t = chrono_parse_date(e.date_str, ymd_format())->Ok_0;
    DayMetric {
        date: Date { year: t.0 as i32, month: t.1 as u32, day: t.2 as u32 },
        kind: MetricKind::Attendance,
        value: 1,
    }
}

/// An absence list gives one absence for each entry whose date parses, on that date,
/// in entry order; entries whose date does not parse give nothing.
pub proof fn law_absence_metrics(es: Seq<EntryView>)
    ensures
        absence_metrics(es) == es.filter(|e: EntryView| entry_dated(e)).map_values(
            |e: EntryView| entry_metric(e),
        ),
    decreases es.len(),
{
    reveal_with_fuel(Seq::filter, 1);
    if es.len() > 0 {
        law_absence_metrics(es.drop_last());
        let f = es.drop_last().filter(|e: EntryView| entry_dated(e));
        if entry_dated(es.last()) {
            assert(f.push(es.last()).map_values(|e: EntryView| entry_metric(e)) =~= f.map_values(
                |e: EntryView| entry_metric(e),
            ).push(entry_metric(es.last())));
        }
    } else {
        assert(es.filter(|e: EntryView| entry_dated(e)).map_values(|e: EntryView| entry_metric(e))
            =~= Seq::<DayMetric>::empty());
    }
}

} // verus!
