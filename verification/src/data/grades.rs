//! Grading notes (`Grading.md`) and returned grades.
use vstd::prelude::*;

use crate::data::date::{chrono_parse_date, date_of, parse_date};
use crate::data::exams::lemma_bar_cell_end;
use crate::data::github::parse_error;
use crate::data::gradejoin::{digits_end, normalize_course, normalized_course, GradingComponent};
use crate::data::streak::ymd_format;
use crate::data::text::{
    all_matches, bar_cell, bar_cell_exec, chars_of, is_line_start, is_regex_digit, is_whitespace, is_ws,
    lemma_all_matches_skip, lemma_all_matches_take, lemma_ws_end_bounds, line_start_exec,
    matches_at, occurs_at, push_str, slice_chars, string_of, trim, trim_chars, ws_end,
};
use crate::data::{DayMetric, MetricKind, ReaderError};

verus! {

/// A course's grading scheme.
pub struct CourseGrading {
    pub course_name: String,
    pub components: Vec<GradingComponent>,
}

/// A grading component as text: name, weight (decimal text) and category.
pub open spec fn component_view(c: GradingComponent) -> (Seq<char>, Seq<char>, Seq<char>) {
    (c.name@, c.weight_percent@, c.category@)
}

pub struct CourseGradingView {
    pub course_name: Seq<char>,
    pub components: Seq<(Seq<char>, Seq<char>, Seq<char>)>,
}

impl View for CourseGrading {
    type V = CourseGradingView;

    open spec fn view(&self) -> CourseGradingView {
        CourseGradingView {
            course_name: self.course_name@,
            components: self.components@.map_values(|c: GradingComponent| component_view(c)),
        }
    }
}

// ---------------------------------------------------------------------------
// The course named in the front matter

pub open spec fn is_quote(c: char) -> bool {
    c == '"' || c == '\''
}

/// First position at or after `i` holding a quote or a line feed, or the length.
pub open spec fn name_end(t: Seq<char>, i: int) -> int
    decreases t.len() - i,
{
    if 0 <= i < t.len() && !is_quote(t[i]) && t[i] != '\n' {
        name_end(t, i + 1)
    } else {
        i
    }
}

/// The last position in `[p, j)` that holds no line feed.
pub open spec fn last_non_newline(t: Seq<char>, p: int, j: int) -> Option<int>
    decreases j - p,
{
    if j <= p {
        None
    } else if t[j - 1] != '\n' {
        Some(j - 1)
    } else {
        last_non_newline(t, p, j - 1)
    }
}

pub open spec fn course_key() -> Seq<char> {
    seq!['c', 'o', 'u', 'r', 's', 'e', ':']
}

/// The course name that `(?m)^course:\s*["']?([^"'\n]+)["']?` captures at `s`. The
/// whitespace after `course:` may span lines; after an optional quote the name runs
/// up to the next quote or line feed. When no name follows, the pattern falls back on
/// the last whitespace character before it that is not a line feed.
pub open spec fn course_at(t: Seq<char>, s: int) -> Option<Seq<char>> {
    if !(is_line_start(t, s) && occurs_at(t, s, course_key())) {
        None
    } else {
        let p = s + 7;
        let e = ws_end(t, p, t.len() as int);
        if e < t.len() && is_quote(t[e]) && e + 1 < t.len() && !is_quote(t[e + 1]) && t[e + 1]
            != '\n' {
            Some(t.subrange(e + 1, name_end(t, e + 1)))
        } else if e < t.len() && !is_quote(t[e]) {
            Some(t.subrange(e, name_end(t, e)))
        } else {
            match last_non_newline(t, p, e) {
                Some(k) => Some(t.subrange(k, name_end(t, k))),
                None => None,
            }
        }
    }
}

/// The leftmost course name at or after `s`.
pub open spec fn first_course(t: Seq<char>, s: int) -> Option<Seq<char>>
    decreases t.len() + 1 - s,
{
    if s < 0 || s > t.len() {
        None
    } else if course_at(t, s) is Some {
        course_at(t, s)
    } else {
        first_course(t, s + 1)
    }
}

/// The course a grading note is about: the front matter's `course:` value, trimmed;
/// else the name of the note's directory; else `UNKNOWN`.
pub open spec fn grading_course(t: Seq<char>, dir_name: Option<Seq<char>>) -> Seq<char> {
    match first_course(t, 0) {
        Some(g) => trim(g),
        None => match dir_name {
            Some(d) => d,
            None => "UNKNOWN"@,
        },
    }
}

// ---------------------------------------------------------------------------
// The components table

/// The end of a weight `\d+(?:\.\d+)?` that starts at `w` (or `w` when there is none).
pub open spec fn weight_end(t: Seq<char>, w: int) -> int {
    let d = digits_end(t, w);
    if d > w && d < t.len() && t[d] == '.' && digits_end(t, d + 1) > d + 1 {
        digits_end(t, d + 1)
    } else {
        d
    }
}

/// A component row at line start `p`
/// (`(?m)^\s*\|\s*([^|]+?)\s*\|\s*(\d+(?:\.\d+)?)%\s*\|\s*([^|]+?)\s*\|`): its name,
/// weight and category, and the position after its last `|`.
pub open spec fn component_row_at(t: Seq<char>, p: int) -> Option<((Seq<char>, Seq<char>, Seq<char>), int)> {
    if p < 0 || p > t.len() {
        None
    } else {
        let q = ws_end(t, p, t.len() as int);
        if q >= t.len() || t[q] != '|' {
            None
        } else {
            match bar_cell(t, q + 1) {
                None => None,
                Some((name, e1)) => {
                    let w = ws_end(t, e1, t.len() as int);
                    let we = weight_end(t, w);
                    if we <= w || we >= t.len() || t[we] != '%' {
                        None
                    } else {
                        let b = ws_end(t, we + 1, t.len() as int);
                        if b >= t.len() || t[b] != '|' {
                            None
                        } else {
                            match bar_cell(t, b + 1) {
                                None => None,
                                Some((cat, e3)) => Some(
                                    ((trim(name), t.subrange(w, we), trim(cat)), e3),
                                ),
                            }
                        }
                    }
                },
            }
        }
    }
}

/// The components of a grading note, in table order.
pub open spec fn grading_components(t: Seq<char>) -> Seq<(Seq<char>, Seq<char>, Seq<char>)> {
    all_matches(t, 0, |p: int| component_row_at(t, p))
}

/// The grading scheme a note gives (see `grading_course` and `grading_components`).
pub open spec fn grading_of(t: Seq<char>, dir_name: Option<Seq<char>>) -> CourseGradingView {
    CourseGradingView {
        course_name: grading_course(t, dir_name),
        components: grading_components(t),
    }
}

fn course_at_exec(t: &[char], s: usize, key: &[char]) -> (r: Option<Vec<char>>)
    requires
        s <= t@.len(),
        key@ == course_key(),
    ensures
        match course_at(t@, s as int) {
            Some(g) => r matches Some(v) && v@ == g,
            None => r is None,
        },
{
    let n = t.len();
    if !(line_start_exec(t, s) && matches_at(t, s, key)) {
        return None;
    }
    let p = s + 7;
    let mut e = p;
    while e < n && is_whitespace(t[e])
        invariant
            n == t@.len(),
            p <= e <= n,
            ws_end(t@, p as int, n as int) == ws_end(t@, e as int, n as int),
        decreases n - e,
    {
        e = e + 1;
    }
    let start: usize;
    if e < n && (t[e] == '"' || t[e] == '\'') && e + 1 < n && !(t[e + 1] == '"' || t[e + 1]
        == '\'') && t[e + 1] != '\n' {
        start = e + 1;
    } else if e < n && !(t[e] == '"' || t[e] == '\'') {
        start = e;
    } else {
        let mut j = e;
        while j > p && t[j - 1] == '\n'
            invariant
                n == t@.len(),
                p <= j <= e <= n,
                last_non_newline(t@, p as int, e as int) == last_non_newline(
                    t@,
                    p as int,
                    j as int,
                ),
            decreases j,
        {
            j = j - 1;
        }
        if j <= p {
            return None;
        }
        start = j - 1;
    }
    let mut k = start;
    while k < n && !(t[k] == '"' || t[k] == '\'') && t[k] != '\n'
        invariant
            n == t@.len(),
            start <= k <= n,
            name_end(t@, start as int) == name_end(t@, k as int),
        decreases n - k,
    {
        k = k + 1;
    }
    Some(slice_chars(t, start, k))
}

fn component_row_exec(t: &[char], p: usize) -> (r: Option<(Vec<char>, Vec<char>, Vec<char>, usize)>)
    requires
        p <= t@.len(),
    ensures
        match component_row_at(t@, p as int) {
            Some((c, e)) => r matches Some((a, w, k, re)) && a@ == c.0 && w@ == c.1 && k@ == c.2
                && re == e,
            None => r is None,
        },
{
    let n = t.len();
    let mut q = p;
    while q < n && is_whitespace(t[q])
        invariant
            n == t@.len(),
            p <= q <= n,
            ws_end(t@, p as int, n as int) == ws_end(t@, q as int, n as int),
        decreases n - q,
    {
        q = q + 1;
    }
    if q >= n || t[q] != '|' {
        return None;
    }
    let (name, e1) = match bar_cell_exec(t, q + 1) {
        Some(x) => x,
        None => {
            return None;
        },
    };
    proof {
        lemma_bar_cell_end(t@, q + 1);
    }
    let mut w = e1;
    while w < n && is_whitespace(t[w])
        invariant
            n == t@.len(),
            e1 <= w <= n,
            ws_end(t@, e1 as int, n as int) == ws_end(t@, w as int, n as int),
        decreases n - w,
    {
        w = w + 1;
    }
    let mut d = w;
    while d < n && is_regex_digit(t[d])
        invariant
            n == t@.len(),
            w <= d <= n,
            digits_end(t@, w as int) == digits_end(t@, d as int),
        decreases n - d,
    {
        d = d + 1;
    }
    let mut we = d;
    if d > w && d < n && t[d] == '.' {
        let mut f = d + 1;
        while f < n && is_regex_digit(t[f])
            invariant
                n == t@.len(),
                d + 1 <= f <= n,
                digits_end(t@, d + 1) == digits_end(t@, f as int),
            decreases n - f,
        {
            f = f + 1;
        }
        if f > d + 1 {
            we = f;
        }
    }
    if we <= w || we >= n || t[we] != '%' {
        return None;
    }
    let mut b = we + 1;
    while b < n && is_whitespace(t[b])
        invariant
            n == t@.len(),
            we + 1 <= b <= n,
            ws_end(t@, we + 1, n as int) == ws_end(t@, b as int, n as int),
        decreases n - b,
    {
        b = b + 1;
    }
    if b >= n || t[b] != '|' {
        return None;
    }
    let (cat, e3) = match bar_cell_exec(t, b + 1) {
        Some(x) => x,
        None => {
            return None;
        },
    };
    Some((trim_chars(&name), slice_chars(t, w, we), trim_chars(&cat), e3))
}

proof fn lemma_component_row_end(t: Seq<char>, p: int)
    ensures
        component_row_at(t, p) matches Some((c, e)) ==> p < e <= t.len(),
{
    if 0 <= p <= t.len() {
        lemma_ws_end_bounds(t, p, t.len() as int);
        let q = ws_end(t, p, t.len() as int);
        lemma_bar_cell_end(t, q + 1);
        if let Some((c1, e1)) = bar_cell(t, q + 1) {
            lemma_ws_end_bounds(t, e1, t.len() as int);
            let w = ws_end(t, e1, t.len() as int);
            let we = weight_end(t, w);
            if we > w && we < t.len() {
                lemma_ws_end_bounds(t, we + 1, t.len() as int);
                let b = ws_end(t, we + 1, t.len() as int);
                lemma_bar_cell_end(t, b + 1);
            }
        }
    }
}

/// Parses a grading note. `dir_name` is the name of the directory that holds it,
/// used when the front matter names no course (see `grading_of`).
pub fn parse_grading_md(content: &str, dir_name: Option<&str>) -> (r: CourseGrading)
    ensures
        r@ == grading_of(
            content@,
            match dir_name {
                Some(d) => Some(d@),
                None => None,
            },
        ),
{
    let t = chars_of(content);
    let key = vec!['c', 'o', 'u', 'r', 's', 'e', ':'];
    assert(key@ =~= course_key());
    let mut s: usize = 0;
    let mut found: Option<Vec<char>> = None;
    while s < t.len() && found.is_none()
        invariant
            s <= t@.len(),
            t@ == content@,
            key@ == course_key(),
            found is None ==> first_course(t@, 0) == first_course(t@, s as int),
            found matches Some(g) ==> first_course(t@, 0) == Some(g@),
        decreases t.len() + 1 - s + (if found is None { 1int } else { 0int }),
    {
        let g = course_at_exec(&t, s, &key);
        if g.is_some() {
            found = g;
        } else {
            s = s + 1;
        }
    }
    if found.is_none() {
        found = course_at_exec(&t, s, &key);
        proof {
            assert(first_course(t@, s + 1) is None);
        }
    }
    let course_name = match found {
        Some(g) => string_of(&trim_chars(&g)),
        None => match dir_name {
            Some(d) => d.to_owned(),
            None => "UNKNOWN".to_owned(),
        },
    };
    let ghost m = |p: int| component_row_at(t@, p);
    let mut components: Vec<GradingComponent> = Vec::new();
    let ghost done: Seq<(Seq<char>, Seq<char>, Seq<char>)> = seq![];
    let mut p: usize = 0;
    while p < t.len()
        invariant
            p <= t@.len(),
            t@ == content@,
            m == (|q: int| component_row_at(t@, q)),
            done + all_matches(t@, p as int, m) == grading_components(t@),
            components@.map_values(|c: GradingComponent| component_view(c)) == done,
        decreases t.len() - p,
    {
        let row = if line_start_exec(&t, p) {
            component_row_exec(&t, p)
        } else {
            None
        };
        match row {
            Some((name, weight, cat, e)) => {
                proof {
                    lemma_component_row_end(t@, p as int);
                    lemma_all_matches_take(t@, p as int, m);
                }
                let c = GradingComponent {
                    name: string_of(&name),
                    weight_percent: string_of(&weight),
                    category: string_of(&cat),
                };
                let ghost cv = component_view(c);
                components.push(c);
                proof {
                    assert(components@.map_values(|c: GradingComponent| component_view(c))
                        =~= done.push(cv));
                    assert(done + all_matches(t@, p as int, m) =~= done.push(cv) + all_matches(
                        t@,
                        e as int,
                        m,
                    ));
                    done = done.push(cv);
                }
                p = e;
            },
            None => {
                proof {
                    lemma_all_matches_skip(t@, p as int, m);
                }
                p = p + 1;
            },
        }
    }
    proof {
        assert(component_row_at(t@, p as int) is None);
        lemma_all_matches_skip(t@, p as int, m);
        assert(all_matches(t@, p + 1, m) == Seq::<(Seq<char>, Seq<char>, Seq<char>)>::empty());
        assert(done + all_matches(t@, p as int, m) =~= done);
    }
    CourseGrading { course_name, components }
}

// ---------------------------------------------------------------------------
// All grading notes

/// The grading schemes of a set of notes (each given by the name of its directory,
/// when known, and its text), keyed by normalised course name; a later note of the
/// same course replaces an earlier one.
pub open spec fn gradings_map(notes: Seq<(Option<Seq<char>>, Seq<char>)>) -> Map<Seq<char>, CourseGradingView>
    decreases notes.len(),
{
    if notes.len() == 0 {
        Map::empty()
    } else {
        let g = grading_of(notes.last().1, notes.last().0);
        gradings_map(notes.drop_last()).insert(normalized_course(g.course_name), g)
    }
}

pub open spec fn note_view(n: (Option<String>, String)) -> (Option<Seq<char>>, Seq<char>) {
    (
        match n.0 {
            Some(d) => Some(d@),
            None => None,
        },
        n.1@,
    )
}

pub open spec fn notes_view(ns: Seq<(Option<String>, String)>) -> Seq<(Option<Seq<char>>, Seq<char>)> {
    ns.map_values(|n: (Option<String>, String)| note_view(n))
}

/// `r` lists the map `m`: each key once, with its value.
pub open spec fn lists_map(r: Seq<(String, CourseGrading)>, m: Map<Seq<char>, CourseGradingView>) -> bool {
    &&& forall|a: int, b: int| 0 <= a < b < r.len() ==> (#[trigger] r[a]).0@ != (#[trigger] r[b]).0@
    &&& forall|i: int|
        0 <= i < r.len() ==> m.contains_key((#[trigger] r[i]).0@) && m[r[i].0@] == r[i].1@
    &&& forall|k: Seq<char>| #[trigger] m.contains_key(k) ==> exists|i: int| 0 <= i < r.len() && (#[trigger] r[i]).0@ == k
}

/// Parses the grading notes of all courses (see `gradings_map`); the result lists
/// each normalised course name once, with its grading scheme.
pub fn load_all_gradings(notes: &Vec<(Option<String>, String)>) -> (r: Vec<(String, CourseGrading)>)
    ensures
        lists_map(r@, gradings_map(notes_view(notes@))),
{
    let ghost nv = notes_view(notes@);
    let mut out: Vec<(String, CourseGrading)> = Vec::new();
    let mut i: usize = 0;
    while i < notes.len()
        invariant
            i <= notes@.len(),
            nv == notes_view(notes@),
            lists_map(out@, gradings_map(nv.take(i as int))),
        decreases notes.len() - i,
    {
        proof {
            assert(nv.take(i + 1).drop_last() =~= nv.take(i as int));
            assert(nv.take(i + 1).last() == note_view(notes@[i as int]));
        }
        let dir: Option<&str> = match &notes[i].0 {
            Some(d) => Some(d.as_str()),
            None => None,
        };
        let g = parse_grading_md(notes[i].1.as_str(), dir);
        let key = normalize_course(g.course_name.as_str());
        let kc = chars_of(key.as_str());
        let mut k: usize = 0;
        let mut found = false;
        while k < out.len() && !found
            invariant
                k <= out@.len(),
                kc@ == key@,
                forall|j: int| 0 <= j < k ==> out@[j].0@ != key@,
                found ==> k < out@.len() && out@[k as int].0@ == key@,
            decreases out.len() - k + (if found { 0int } else { 1int }),
        {
            let oc = chars_of(out[k].0.as_str());
            proof {
                if oc@.len() == kc@.len() {
                    assert(oc@.subrange(0, kc@.len() as int) =~= oc@);
                }
            }
            if oc.len() == kc.len() && matches_at(&oc, 0, &kc) {
                found = true;
            } else {
                k = k + 1;
            }
        }
        let ghost before = out@;
        let ghost m0 = gradings_map(nv.take(i as int));
        let ghost gv = g@;
        let ghost m1 = m0.insert(key@, gv);
        if found {
            out.set(k, (key, g));
            proof {
                assert forall|a: int, b: int| 0 <= a < b < out@.len() implies (#[trigger] out@[a]).0@
                    != (#[trigger] out@[b]).0@ by {
                    assert(before[a].0@ != before[b].0@);
                }
                assert forall|x: int| 0 <= x < out@.len() implies m1.contains_key(
                    (#[trigger] out@[x]).0@,
                ) && m1[out@[x].0@] == out@[x].1@ by {
                    if x != k {
                        if x < k {
                            assert(before[x].0@ != before[k as int].0@);
                        } else {
                            assert(before[k as int].0@ != before[x].0@);
                        }
                    }
                }
                assert forall|kk: Seq<char>| #[trigger] m1.contains_key(kk) implies exists|x: int|
                    0 <= x < out@.len() && (#[trigger] out@[x]).0@ == kk by {
                    if kk == key@ {
                        assert(out@[k as int].0@ == kk);
                    } else {
                        let x = choose|x: int| 0 <= x < before.len() && (#[trigger] before[x]).0@ == kk;
                        assert(out@[x].0@ == kk);
                    }
                }
            }
        } else {
            out.push((key, g));
            proof {
                assert forall|a: int, b: int| 0 <= a < b < out@.len() implies (#[trigger] out@[a]).0@
                    != (#[trigger] out@[b]).0@ by {
                    if b < before.len() {
                        assert(before[a].0@ != before[b].0@);
                    }
                }
                assert forall|x: int| 0 <= x < out@.len() implies m1.contains_key(
                    (#[trigger] out@[x]).0@,
                ) && m1[out@[x].0@] == out@[x].1@ by {
                    if x < before.len() {
                        assert(out@[x] == before[x]);
                    }
                }
                assert forall|kk: Seq<char>| #[trigger] m1.contains_key(kk) implies exists|x: int|
                    0 <= x < out@.len() && (#[trigger] out@[x]).0@ == kk by {
                    if kk == key@ {
                        assert(out@[before.len() as int].0@ == kk);
                    } else {
                        let x = choose|x: int| 0 <= x < before.len() && (#[trigger] before[x]).0@ == kk;
                        assert(out@[x].0@ == kk);
                    }
                }
            }
        }
        i = i + 1;
    }
    assert(nv.take(i as int) =~= nv);
    out
}

// ---------------------------------------------------------------------------
// Returned grades

/// A returned grade as the returns file lists it (the scores are not needed here).
pub struct GradeReturnEntry {
    pub course: String,
    pub assignment: String,
    pub detected_at: String,
}

/// The date part of an ISO timestamp: the text before the first `T`.
pub open spec fn date_part(s: Seq<char>) -> Seq<char> {
    s.subrange(0, crate::data::text::next_char(s, 'T', 0))
}

/// One grade metric per return, from index `i` on, or the reason the first return
/// whose date part does not parse as `%Y-%m-%d` gives.
pub open spec fn grade_metrics_from(stamps: Seq<Seq<char>>, i: int) -> Result<Seq<DayMetric>, Seq<char>>
    decreases stamps.len() - i,
{
    if i < 0 || i >= stamps.len() {
        Ok(seq![])
    } else {
        let ds = date_part(stamps[i]);
        match chrono_parse_date(ds, ymd_format()) {
            Err(pe) => Err("Failed to parse date '"@ + ds + "': "@ + pe),
            Ok(t) => match grade_metrics_from(stamps, i + 1) {
                Ok(ms) => Ok(
                    seq![DayMetric { date: date_of(t), kind: MetricKind::Grade, value: 1 }] + ms,
                ),
                Err(e) => Err(e),
            },
        }
    }
}

pub open spec fn stamps_of(rs: Seq<GradeReturnEntry>) -> Seq<Seq<char>> {
    rs.map_values(|r: GradeReturnEntry| r.detected_at@)
}

/// Turns the returned grades of the returns file `file` into one grade metric each,
/// dated by the day they were detected, in order; a detection time whose date part
/// does not parse makes the whole file fail (see `grade_metrics_from`).
pub fn read_grade_returns(file: &str, entries: &Vec<GradeReturnEntry>) -> (r: Result<Vec<DayMetric>, ReaderError>)
    ensures
        crate::data::github::reader_outcome(r, grade_metrics_from(stamps_of(entries@), 0), file@),
        r matches Ok(v) ==> forall|i: int| 0 <= i < v@.len() ==> (#[trigger] v@[i]).date.wf(),
{
    let ghost st = stamps_of(entries@);
    let mut out: Vec<DayMetric> = Vec::new();
    let mut i: usize = 0;
    while i < entries.len()
        invariant
            i <= entries@.len(),
            st == stamps_of(entries@),
            match grade_metrics_from(st, i as int) {
                Ok(ms) => grade_metrics_from(st, 0) == Ok::<Seq<DayMetric>, Seq<char>>(out@ + ms),
                Err(e) => grade_metrics_from(st, 0) == Err::<Seq<DayMetric>, Seq<char>>(e),
            },
            forall|k: int| 0 <= k < out@.len() ==> (#[trigger] out@[k]).date.wf(),
        decreases entries.len() - i,
    {
        let stamp = chars_of(entries[i].detected_at.as_str());
        assert(stamp@ == st[i as int]);
        let mut e: usize = 0;
        while e < stamp.len() && stamp[e] != 'T'
            invariant
                e <= stamp@.len(),
                crate::data::text::next_char(stamp@, 'T', 0) == crate::data::text::next_char(
                    stamp@,
                    'T',
                    e as int,
                ),
            decreases stamp.len() - e,
        {
            e = e + 1;
        }
        let ds = string_of(&slice_chars(&stamp, 0, e));
        proof {
            reveal_strlit("%Y-%m-%d");
            assert("%Y-%m-%d"@ =~= ymd_format());
        }
        match parse_date(ds.as_str(), "%Y-%m-%d") {
            Ok(date) => {
                let ghost before = out@;
                let md = DayMetric { date, kind: MetricKind::Grade, value: 1 };
                out.push(md);
                proof {
                    match grade_metrics_from(st, i + 1) {
                        Ok(ms) => {
                            assert(before + (seq![md] + ms) =~= out@ + ms);
                        },
                        Err(_) => {},
                    }
                }
            },
            Err(pe) => {
                let mut m: Vec<char> = Vec::new();
                push_str(&mut m, "Failed to parse date '");
                push_str(&mut m, ds.as_str());
                push_str(&mut m, "': ");
                push_str(&mut m, pe.as_str());
                return Err(parse_error(file, &m));
            },
        }
        i = i + 1;
    }
    Ok(out)
}

/// The grade a return with a parsable detection date gives: one, on that day.
pub open spec fn grade_metric_of(stamp: Seq<char>) -> DayMetric {
    DayMetric {
        date: date_of(chrono_parse_date(date_part(stamp), ymd_format())->Ok_0),
        kind: MetricKind::Grade,
        value: 1,
    }
}

/// The normalised course a grading note is filed under.
pub open spec fn note_key(n: (Option<Seq<char>>, Seq<char>)) -> Seq<char> {
    normalized_course(grading_of(n.1, n.0).course_name)
}

proof fn lemma_grade_metrics_from(stamps: Seq<Seq<char>>, i: int)
    requires
        0 <= i <= stamps.len(),
    ensures
        grade_metrics_from(stamps, i) is Ok <==> forall|k: int|
            i <= k < stamps.len() ==> chrono_parse_date(date_part(#[trigger] stamps[k]), ymd_format()) is Ok,
        grade_metrics_from(stamps, i) matches Ok(ms) ==> ms.len() == stamps.len() - i && forall|k: int|
            0 <= k < ms.len() ==> (#[trigger] ms[k]) == grade_metric_of(stamps[i + k]),
    decreases stamps.len() - i,
{
    if i < stamps.len() {
        lemma_grade_metrics_from(stamps, i + 1);
        if let Ok(ms) = grade_metrics_from(stamps, i) {
            let rest = grade_metrics_from(stamps, i + 1)->Ok_0;
            assert forall|k: int| 0 <= k < ms.len() implies (#[trigger] ms[k]) == grade_metric_of(stamps[i + k]) by {
                if k > 0 {
                    assert(ms[k] == rest[k - 1]);
                }
            }
        }
        if chrono_parse_date(date_part(stamps[i]), ymd_format()) is Ok && forall|k: int|
            i + 1 <= k < stamps.len() ==> chrono_parse_date(date_part(#[trigger] stamps[k]), ymd_format()) is Ok {
            assert forall|k: int| i <= k < stamps.len() implies chrono_parse_date(
                date_part(#[trigger] stamps[k]),
                ymd_format(),
            ) is Ok by {}
        }
    }
}

/// Returned grades are all counted or none: the file gives metrics exactly when every
/// detection time's date part parses, and then one grade on that day per return, in
/// order, whether or not the grade matches a component.
pub proof fn law_grade_returns_all_or_nothing(stamps: Seq<Seq<char>>)
    ensures
        grade_metrics_from(stamps, 0) is Ok <==> forall|k: int|
            0 <= k < stamps.len() ==> chrono_parse_date(date_part(#[trigger] stamps[k]), ymd_format()) is Ok,
        grade_metrics_from(stamps, 0) matches Ok(ms) ==> ms.len() == stamps.len() && forall|k: int|
            0 <= k < ms.len() ==> (#[trigger] ms[k]) == grade_metric_of(stamps[k]),
{
    lemma_grade_metrics_from(stamps, 0);
    if let Ok(ms) = grade_metrics_from(stamps, 0) {
        assert forall|k: int| 0 <= k < ms.len() implies (#[trigger] ms[k]) == grade_metric_of(stamps[k]) by {
            assert(stamps[0 + k] == stamps[k]);
        }
    }
}

/// The grading map holds one scheme per normalised course name that some note names,
/// and that scheme is the one of the last note naming the course.
pub proof fn law_gradings_map(notes: Seq<(Option<Seq<char>>, Seq<char>)>, k: Seq<char>)
    ensures
        gradings_map(notes).contains_key(k) <==> exists|i: int|
            0 <= i < notes.len() && note_key(#[trigger] notes[i]) == k,
        gradings_map(notes).contains_key(k) ==> exists|i: int|
            0 <= i < notes.len() && note_key(#[trigger] notes[i]) == k && gradings_map(notes)[k]
                == grading_of(notes[i].1, notes[i].0) && forall|j: int|
                i < j < notes.len() ==> note_key(#[trigger] notes[j]) != k,
    decreases notes.len(),
{
    if notes.len() > 0 {
        let p = notes.drop_last();
        law_gradings_map(p, k);
        let n = notes.len() - 1;
        assert(notes.last() == notes[n]);
        assert forall|i: int| 0 <= i < p.len() implies notes[i] == #[trigger] p[i] by {}
        if note_key(notes[n]) != k {
            if gradings_map(p).contains_key(k) {
                let i = choose|i: int|
                    0 <= i < p.len() && note_key(#[trigger] p[i]) == k && gradings_map(p)[k]
                        == grading_of(p[i].1, p[i].0) && forall|j: int|
                        i < j < p.len() ==> note_key(#[trigger] p[j]) != k;
                assert(notes[i] == p[i]);
                assert forall|j: int| i < j < notes.len() implies note_key(#[trigger] notes[j]) != k by {
                    if j < n {
                        assert(notes[j] == p[j]);
                    }
                }
            }
            if exists|i: int| 0 <= i < notes.len() && note_key(#[trigger] notes[i]) == k {
                let i = choose|i: int| 0 <= i < notes.len() && note_key(#[trigger] notes[i]) == k;
                assert(notes[i] == p[i]);
            }
        }
    }
}

} // verus!
