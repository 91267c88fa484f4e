//! Organisation events from the recruitment timeline table.
use vstd::prelude::*;

use crate::data::date::{day_number, valid_ymd, Date};
use crate::data::exams::{lemma_bar_cell_end, window_date};

pub use crate::data::exams::month_abbrev_to_num;
use crate::data::sort::{lemma_stable_sorted_elements, lemma_stable_sorted_map, stable_sort, stable_sorted_by, SortKey};
use crate::data::text::{
    all_matches, bar_cell, bar_cell_exec, chars_of, is_line_start, is_regex_digit, is_regex_word,
    is_whitespace, decimal_digit, word_char, lemma_all_matches_skip, lemma_all_matches_take,
    lemma_ws_end_bounds, line_start_exec, next_char, occurs_at, matches_at, push_chars, push_str,
    slice_chars, string_of, trim, trim_chars, utf8_len, utf8_width, ws_end,
};

verus! {

/// The file of the events directory that holds the dated recruitment timeline.
pub const RECRUITMENT_FILE: &'static str = "RecruitmentCycle-2026-27.md";

/// An org-side event or deadline extracted from the organisation's notes.
#[derive(Debug, Clone)]
pub struct OrgEvent {
    pub date: Date,
    /// Short label for display.
    pub label: String,
    /// Source file it came from (for drill-down).
    pub source: String,
}

/// What an org event holds, with the date as its day number.
pub struct OrgEventView {
    pub date: int,
    pub label: Seq<char>,
    pub source: Seq<char>,
}

impl View for OrgEvent {
    type V = OrgEventView;

    open spec fn view(&self) -> OrgEventView {
        OrgEventView { date: self.date.dn(), label: self.label@, source: self.source@ }
    }
}

impl SortKey for OrgEvent {
    open spec fn key(&self) -> int {
        self.date.dn()
    }

    fn sort_key(&self) -> (k: i128) {
        self.date.dn_wide()
    }
}

// ---------------------------------------------------------------------------
// The timeline table

pub open spec fn cs3_at(t: Seq<char>, i: int, a: char, b: char, c: char) -> bool {
    0 <= i && i + 3 <= t.len() && t[i] == a && t[i + 1] == b && t[i + 2] == c
}

/// A capitalised three-letter month abbreviation starts at `i`.
pub open spec fn month_cs_at(t: Seq<char>, i: int) -> bool {
    ||| cs3_at(t, i, 'J', 'a', 'n')
    ||| cs3_at(t, i, 'F', 'e', 'b')
    ||| cs3_at(t, i, 'M', 'a', 'r')
    ||| cs3_at(t, i, 'A', 'p', 'r')
    ||| cs3_at(t, i, 'M', 'a', 'y')
    ||| cs3_at(t, i, 'J', 'u', 'n')
    ||| cs3_at(t, i, 'J', 'u', 'l')
    ||| cs3_at(t, i, 'A', 'u', 'g')
    ||| cs3_at(t, i, 'S', 'e', 'p')
    ||| cs3_at(t, i, 'O', 'c', 't')
    ||| cs3_at(t, i, 'N', 'o', 'v')
    ||| cs3_at(t, i, 'D', 'e', 'c')
}

/// A word character: one of the `regex` crate's `\w` class.
pub open spec fn is_word(c: char) -> bool {
    word_char(c)
}

/// End of the run of characters satisfying `p` that starts at `i`.
pub open spec fn run_end(t: Seq<char>, i: int, p: spec_fn(char) -> bool) -> int
    decreases t.len() - i,
{
    if 0 <= i < t.len() && p(t[i]) {
        run_end(t, i + 1, p)
    } else {
        i
    }
}

proof fn lemma_run_end(t: Seq<char>, i: int, p: spec_fn(char) -> bool)
    requires
        0 <= i <= t.len(),
    ensures
        i <= run_end(t, i, p) <= t.len(),
    decreases t.len() - i,
{
    if i < t.len() && p(t[i]) {
        lemma_run_end(t, i + 1, p);
    }
}

/// A timeline row at line start `p`: a date cell (month name, whitespace and one or
/// two digits), a day-name cell of word characters, and an activities cell
/// (`(?m)^\s*\|\s*((?:Jan|...|Dec)\s+\d{1,2})\s*\|\s*\w+\s*\|\s*([^|]+?)\s*\|`). It
/// yields the date cell, the activities cell, and the position after the last `|`.
pub open spec fn timeline_row_at(t: Seq<char>, p: int) -> Option<((Seq<char>, Seq<char>), int)> {
    if p < 0 || p > t.len() {
        None
    } else {
        let q = ws_end(t, p, t.len() as int);
        let a = ws_end(t, q + 1, t.len() as int);
        let w = ws_end(t, a + 3, t.len() as int);
        let de = run_end(t, w, |c: char| decimal_digit(c));
        let x = ws_end(t, de, t.len() as int);
        let y = ws_end(t, x + 1, t.len() as int);
        let we = run_end(t, y, |c: char| is_word(c));
        let z = ws_end(t, we, t.len() as int);
        if q < t.len() && t[q] == '|' && month_cs_at(t, a) && w > a + 3 && 1 <= de - w <= 2
            && x < t.len() && t[x] == '|' && we > y && z < t.len() && t[z] == '|' {
            match bar_cell(t, z + 1) {
                Some((g, e)) => Some(((t.subrange(a, de), g), e)),
                None => None,
            }
        } else {
            None
        }
    }
}

/// The timeline rows of a note, in order.
pub open spec fn timeline_rows(t: Seq<char>) -> Seq<(Seq<char>, Seq<char>)> {
    all_matches(t, 0, |p: int| timeline_row_at(t, p))
}

/// `s` with every `**` removed (left to right, without overlaps).
pub open spec fn strip_bold_from(s: Seq<char>, i: int) -> Seq<char>
    decreases s.len() - i,
{
    if i < 0 || i >= s.len() {
        seq![]
    } else if occurs_at(s, i, seq!['*', '*']) {
        strip_bold_from(s, i + 2)
    } else {
        seq![s[i]] + strip_bold_from(s, i + 1)
    }
}

/// The short label of an activities cell before shortening: bold markers removed, the
/// text before the first comma, trimmed.
pub open spec fn label_text(raw: Seq<char>) -> Seq<char> {
    let nb = strip_bold_from(trim(raw), 0);
    trim(nb.subrange(0, next_char(nb, ',', 0)))
}

/// A label may be shortened: when it is longer than 32 bytes, its first 31 bytes end
/// on a character boundary.
pub open spec fn label_cut_ok(l: Seq<char>) -> bool {
    utf8_len(l) > 32 ==> exists|k: int| 0 <= k <= l.len() && utf8_len(l.take(k)) == 31
}

/// The displayed label: labels longer than 32 bytes are cut to their first 31 bytes
/// and end in `…`.
pub open spec fn short_label(l: Seq<char>) -> Seq<char> {
    if utf8_len(l) > 32 {
        let k = choose|k: int| 0 <= k <= l.len() && utf8_len(l.take(k)) == 31;
        l.take(k) + seq!['…']
    } else {
        l
    }
}

/// The event a timeline row describes, if its date exists in 2026.
pub open spec fn org_event_of(row: (Seq<char>, Seq<char>), source: Seq<char>) -> Option<OrgEventView> {
    match window_date(trim(row.0)) {
        Some(n) => Some(OrgEventView { date: n, label: short_label(label_text(row.1)), source }),
        None => None,
    }
}

pub open spec fn org_events_of_rows(rows: Seq<(Seq<char>, Seq<char>)>, source: Seq<char>) -> Seq<OrgEventView>
    decreases rows.len(),
{
    if rows.len() == 0 {
        seq![]
    } else {
        let earlier = org_events_of_rows(rows.drop_last(), source);
        match org_event_of(rows.last(), source) {
            Some(e) => earlier.push(e),
            None => earlier,
        }
    }
}

/// The label of every row whose date exists can be shortened without cutting a
/// character.
pub open spec fn timeline_labels_ok(t: Seq<char>) -> bool {
    forall|i: int|
        0 <= i < timeline_rows(t).len() ==> (window_date(trim((#[trigger] timeline_rows(t)[i]).0))
            is Some ==> label_cut_ok(label_text(timeline_rows(t)[i].1)))
}

fn cs3(t: &[char], i: usize, a: char, b: char, c: char) -> (r: bool)
    ensures
        r == cs3_at(t@, i as int, a, b, c),
{
    i <= t.len() && 3 <= t.len() - i && t[i] == a && t[i + 1] == b && t[i + 2] == c
}

fn month_cs_exec(t: &[char], i: usize) -> (r: bool)
    ensures
        r == month_cs_at(t@, i as int),
{
    cs3(t, i, 'J', 'a', 'n') || cs3(t, i, 'F', 'e', 'b') || cs3(t, i, 'M', 'a', 'r') || cs3(
        t,
        i,
        'A',
        'p',
        'r',
    ) || cs3(t, i, 'M', 'a', 'y') || cs3(t, i, 'J', 'u', 'n') || cs3(t, i, 'J', 'u', 'l') || cs3(
        t,
        i,
        'A',
        'u',
        'g',
    ) || cs3(t, i, 'S', 'e', 'p') || cs3(t, i, 'O', 'c', 't') || cs3(t, i, 'N', 'o', 'v') || cs3(
        t,
        i,
        'D',
        'e',
        'c',
    )
}

fn skip_ws(t: &[char], i: usize) -> (r: usize)
    requires
        i <= t@.len(),
    ensures
        r == ws_end(t@, i as int, t@.len() as int),
        i <= r <= t@.len(),
{
    let mut j = i;
    while j < t.len() && is_whitespace(t[j])
        invariant
            i <= j <= t@.len(),
            ws_end(t@, i as int, t@.len() as int) == ws_end(t@, j as int, t@.len() as int),
        decreases t.len() - j,
    {
        j = j + 1;
    }
    proof {
        lemma_ws_end_bounds(t@, j as int, t@.len() as int);
    }
    j
}

fn digit_run(t: &[char], i: usize) -> (r: usize)
    requires
        i <= t@.len(),
    ensures
        r == run_end(t@, i as int, |c: char| decimal_digit(c)),
        i <= r <= t@.len(),
{
    let mut j = i;
    while j < t.len() && is_regex_digit(t[j])
        invariant
            i <= j <= t@.len(),
            run_end(t@, i as int, |c: char| decimal_digit(c)) == run_end(t@, j as int, |c: char| decimal_digit(c)),
        decreases t.len() - j,
    {
        j = j + 1;
    }
    proof {
        lemma_run_end(t@, j as int, |c: char| decimal_digit(c));
    }
    j
}

fn word_run(t: &[char], i: usize) -> (r: usize)
    requires
        i <= t@.len(),
    ensures
        r == run_end(t@, i as int, |c: char| is_word(c)),
        i <= r <= t@.len(),
{
    let mut j = i;
    while j < t.len() && is_regex_word(t[j])
        invariant
            i <= j <= t@.len(),
            run_end(t@, i as int, |c: char| is_word(c)) == run_end(t@, j as int, |c: char| is_word(c)),
        decreases t.len() - j,
    {
        j = j + 1;
    }
    proof {
        lemma_run_end(t@, j as int, |c: char| is_word(c));
    }
    j
}

fn timeline_row_exec(t: &[char], p: usize) -> (r: Option<(Vec<char>, Vec<char>, usize)>)
    requires
        p <= t@.len(),
    ensures
        match timeline_row_at(t@, p as int) {
            Some(((d, l), e)) => r matches Some((rd, rl, re)) && rd@ == d && rl@ == l && re == e,
            None => r is None,
        },
{
    let q = skip_ws(t, p);
    if q >= t.len() || t[q] != '|' {
        return None;
    }
    let a = skip_ws(t, q + 1);
    if !month_cs_exec(t, a) {
        return None;
    }
    assert(a + 3 <= t.len());
    let w = skip_ws(t, a + 3);
    let de = digit_run(t, w);
    if !(w > a + 3 && de - w >= 1 && de - w <= 2) {
        return None;
    }
    let x = skip_ws(t, de);
    if !(x < t.len() && t[x] == '|') {
        return None;
    }
    let y = skip_ws(t, x + 1);
    let we = word_run(t, y);
    if !(we > y) {
        return None;
    }
    let z = skip_ws(t, we);
    if !(z < t.len() && t[z] == '|') {
        return None;
    }
    match bar_cell_exec(t, z + 1) {
        Some((g, e)) => Some((slice_chars(t, a, de), g, e)),
        None => None,
    }
}

proof fn lemma_timeline_row_end(t: Seq<char>, p: int)
    ensures
        timeline_row_at(t, p) matches Some((c, e)) ==> p < e <= t.len(),
{
    if 0 <= p <= t.len() {
        let q = ws_end(t, p, t.len() as int);
        lemma_ws_end_bounds(t, p, t.len() as int);
        if q < t.len() {
            let a = ws_end(t, q + 1, t.len() as int);
            lemma_ws_end_bounds(t, q + 1, t.len() as int);
            if a + 3 <= t.len() {
                let w = ws_end(t, a + 3, t.len() as int);
                lemma_ws_end_bounds(t, a + 3, t.len() as int);
                let de = run_end(t, w, |c: char| decimal_digit(c));
                lemma_run_end(t, w, |c: char| decimal_digit(c));
                let x = ws_end(t, de, t.len() as int);
                lemma_ws_end_bounds(t, de, t.len() as int);
                if x < t.len() {
                    let y = ws_end(t, x + 1, t.len() as int);
                    lemma_ws_end_bounds(t, x + 1, t.len() as int);
                    let we = run_end(t, y, |c: char| is_word(c));
                    lemma_run_end(t, y, |c: char| is_word(c));
                    let z = ws_end(t, we, t.len() as int);
                    lemma_ws_end_bounds(t, we, t.len() as int);
                    lemma_bar_cell_end(t, z + 1);
                }
            }
        }
    }
}

fn strip_bold(s: &[char]) -> (r: Vec<char>)
    ensures
        r@ == strip_bold_from(s@, 0),
{
    let mut out: Vec<char> = Vec::new();
    let mut i: usize = 0;
    let stars = vec!['*', '*'];
    assert(stars@ =~= seq!['*', '*']);
    while i < s.len()
        invariant
            i <= s@.len() + 1,
            stars@ == seq!['*', '*'],
            out@ + strip_bold_from(s@, i as int) == strip_bold_from(s@, 0),
        decreases s.len() - i,
    {
        if matches_at(s, i, &stars) {
            i = i + 2;
        } else {
            let ghost before = out@;
            out.push(s[i]);
            assert(out@ + strip_bold_from(s@, i + 1) =~= before + strip_bold_from(s@, i as int));
            i = i + 1;
        }
    }
    assert(out@ + strip_bold_from(s@, i as int) =~= out@);
    out
}

fn label_exec(raw: &[char]) -> (r: Vec<char>)
    ensures
        r@ == label_text(raw@),
{
    let tr = trim_chars(raw);
    let nb = strip_bold(&tr);
    let mut k: usize = 0;
    while k < nb.len() && nb[k] != ','
        invariant
            k <= nb@.len(),
            next_char(nb@, ',', 0) == next_char(nb@, ',', k as int),
        decreases nb.len() - k,
    {
        k = k + 1;
    }
    let head = slice_chars(&nb, 0, k);
    trim_chars(&head)
}

fn short_label_exec(l: &[char]) -> (r: Vec<char>)
    requires
        label_cut_ok(l@),
    ensures
        r@ == short_label(l@),
{
    let n = crate::data::text::utf8_len_capped(l, 0, l.len(), 33);
    proof {
        assert(l@.subrange(0, l@.len() as int) =~= l@);
    }
    if n <= 32 {
        return slice_chars(l, 0, l.len());
    }
    let mut k: usize = 0;
    let mut b: usize = 0;
    while b < 31
        invariant
            k <= l@.len(),
            b == utf8_len(l@.take(k as int)),
            b <= 31,
            utf8_len(l@) > 32,
            label_cut_ok(l@),
        decreases 31 - b,
    {
        let ghost kk = choose|kk: int| 0 <= kk <= l@.len() && utf8_len(l@.take(kk)) == 31;
        proof {
            if kk <= k {
                lemma_prefix_bytes_mono(l@, kk, k as int);
                assert(false);
            }
        }
        let c = l[k];
        let u = c as u32;
        let w: usize = if u < 0x80 {
            1
        } else if u < 0x800 {
            2
        } else if u < 0x10000 {
            3
        } else {
            4
        };
        proof {
            assert(l@.take(k + 1).drop_last() =~= l@.take(k as int));
            assert(utf8_len(l@.take(k + 1)) == b + w);
        }
        if b + w > 31 {
            proof {
                lemma_prefix_bytes_mono(l@, k + 1, kk);
                assert(false);
            }
            return Vec::new();
        }
        b = b + w;
        k = k + 1;
    }
    let mut out = slice_chars(l, 0, k);
    out.push('…');
    proof {
        let kk = choose|kk: int| 0 <= kk <= l@.len() && utf8_len(l@.take(kk)) == 31;
        lemma_prefix_bytes_unique(l@, k as int, kk);
        assert(l@.subrange(0, k as int) =~= l@.take(k as int));
    }
    out
}

/// Byte lengths of prefixes grow strictly with the prefix.
proof fn lemma_prefix_bytes_mono(s: Seq<char>, i: int, j: int)
    requires
        0 <= i <= j <= s.len(),
    ensures
        utf8_len(s.take(i)) <= utf8_len(s.take(j)),
        i < j ==> utf8_len(s.take(i)) < utf8_len(s.take(j)),
    decreases j - i,
{
    if i < j {
        lemma_prefix_bytes_mono(s, i, j - 1);
        assert(s.take(j).drop_last() =~= s.take(j - 1));
    }
}

proof fn lemma_prefix_bytes_unique(s: Seq<char>, i: int, j: int)
    requires
        0 <= i <= s.len(),
        0 <= j <= s.len(),
        utf8_len(s.take(i)) == utf8_len(s.take(j)),
    ensures
        i == j,
{
    if i < j {
        lemma_prefix_bytes_mono(s, i, j);
    } else if j < i {
        lemma_prefix_bytes_mono(s, j, i);
    }
}

/// Whether a label can be shortened without cutting a character (see
/// `label_cut_ok`).
fn label_cut_ok_exec(l: &[char]) -> (r: bool)
    ensures
        r == label_cut_ok(l@),
{
    let n = crate::data::text::utf8_len_capped(l, 0, l.len(), 33);
    assert(l@.subrange(0, l@.len() as int) =~= l@);
    if n <= 32 {
        return true;
    }
    let mut k: usize = 0;
    let mut b: usize = 0;
    while k < l.len() && b < 31
        invariant
            k <= l@.len(),
            b == utf8_len(l@.take(k as int)),
            b <= 34,
            k > 0 ==> utf8_len(l@.take(k - 1)) < 31,
        decreases l.len() - k,
    {
        proof {
            assert(l@.take(k + 1).drop_last() =~= l@.take(k as int));
        }
        let u = l[k] as u32;
        let w: usize = if u < 0x80 {
            1
        } else if u < 0x800 {
            2
        } else if u < 0x10000 {
            3
        } else {
            4
        };
        b = b + w;
        k = k + 1;
    }
    proof {
        if b == 31 {
            assert(utf8_len(l@.take(k as int)) == 31);
        } else {
            assert forall|j: int| 0 <= j <= l@.len() implies utf8_len(#[trigger] l@.take(j)) != 31 by {
                if b < 31 {
                    assert(l@.take(k as int) =~= l@);
                    lemma_prefix_bytes_mono(l@, j, k as int);
                } else if j >= k {
                    lemma_prefix_bytes_mono(l@, k as int, j);
                } else {
                    lemma_prefix_bytes_mono(l@, j, k - 1);
                }
            }
        }
    }
    b == 31
}

/// Whether the labels of a recruitment timeline note can be shortened safely (see
/// `timeline_labels_ok`).
pub fn timeline_labels_fit(content: &str) -> (r: bool)
    ensures
        r == timeline_labels_ok(content@),
{
    let t = chars_of(content);
    let ghost m = |p: int| timeline_row_at(t@, p);
    let ghost rows_done: Seq<(Seq<char>, Seq<char>)> = seq![];
    let mut p: usize = 0;
    while p < t.len()
        invariant
            p <= t@.len(),
            t@ == content@,
            m == (|q: int| timeline_row_at(t@, q)),
            rows_done + all_matches(t@, p as int, m) == timeline_rows(t@),
            forall|i: int|
                0 <= i < rows_done.len() ==> (window_date(trim((#[trigger] rows_done[i]).0)) is Some
                    ==> label_cut_ok(label_text(rows_done[i].1))),
        decreases t.len() - p,
    {
        let found = if line_start_exec(&t, p) {
            timeline_row_exec(&t, p)
        } else {
            None
        };
        match found {
            Some((d, l, e)) => {
                proof {
                    lemma_timeline_row_end(t@, p as int);
                    lemma_all_matches_take(t@, p as int, m);
                }
                let dt = trim_chars(&d);
                let dated = crate::data::exams::window_date_exec(&dt).is_some();
                if dated {
                    let lt = label_exec(&l);
                    if !label_cut_ok_exec(&lt) {
                        proof {
                            let k = rows_done.len() as int;
                            assert(timeline_rows(t@)[k] == (d@, l@));
                        }
                        return false;
                    }
                }
                proof {
                    let rd2 = rows_done.push((d@, l@));
                    assert(rows_done + all_matches(t@, p as int, m) =~= rd2 + all_matches(
                        t@,
                        e as int,
                        m,
                    ));
                    rows_done = rd2;
                }
                p = e;
            },
            None => {
                proof {
                    lemma_all_matches_skip(t@, p as int, m);
                }
                p = p + 1;
            },
        }
    }
    proof {
        assert(timeline_row_at(t@, p as int) is None);
        lemma_all_matches_skip(t@, p as int, m);
        assert(all_matches(t@, p + 1, m) == Seq::<(Seq<char>, Seq<char>)>::empty());
        assert(rows_done + all_matches(t@, p as int, m) =~= rows_done);
    }
    true
}

/// Collects the dated events of a recruitment timeline note, in table order.
pub fn parse_recruitment_table(content: &str, source: &str) -> (r: Vec<OrgEvent>)
    requires
        timeline_labels_ok(content@),
    ensures
        r@.map_values(|e: OrgEvent| e@) == org_events_of_rows(timeline_rows(content@), source@),
        forall|i: int| 0 <= i < r@.len() ==> (#[trigger] r@[i]).date.wf() && r@[i].date.year == 2026,
{
    let t = chars_of(content);
    let ghost m = |p: int| timeline_row_at(t@, p);
    let mut out: Vec<OrgEvent> = Vec::new();
    let ghost rows_done: Seq<(Seq<char>, Seq<char>)> = seq![];
    let mut p: usize = 0;
    while p < t.len()
        invariant
            p <= t@.len(),
            t@ == content@,
            m == (|q: int| timeline_row_at(t@, q)),
            rows_done + all_matches(t@, p as int, m) == timeline_rows(t@),
            timeline_labels_ok(t@),
            out@.map_values(|e: OrgEvent| e@) == org_events_of_rows(rows_done, source@),
            forall|i: int| 0 <= i < out@.len() ==> (#[trigger] out@[i]).date.wf() && out@[i].date.year == 2026,
        decreases t.len() - p,
    {
        let found = if line_start_exec(&t, p) {
            timeline_row_exec(&t, p)
        } else {
            None
        };
        match found {
            Some((d, l, e)) => {
                proof {
                    lemma_timeline_row_end(t@, p as int);
                    lemma_all_matches_take(t@, p as int, m);
                    let k = rows_done.len();
                    assert(timeline_rows(t@)[k as int] == (d@, l@));
                }
                let dt = trim_chars(&d);
                match crate::data::exams::window_date_exec(&dt) {
                    Some(date) => {
                        let lt = label_exec(&l);
                        let sl = short_label_exec(&lt);
                        out.push(OrgEvent { date, label: string_of(&sl), source: source.to_owned() });
                    },
                    None => {},
                }
                proof {
                    let rd2 = rows_done.push((d@, l@));
                    assert(rd2.drop_last() == rows_done);
                    assert(out@.map_values(|x: OrgEvent| x@) =~= org_events_of_rows(rd2, source@));
                    assert(rows_done + all_matches(t@, p as int, m) =~= rd2 + all_matches(
                        t@,
                        e as int,
                        m,
                    ));
                    rows_done = rd2;
                }
                p = e;
            },
            None => {
                proof {
                    lemma_all_matches_skip(t@, p as int, m);
                }
                p = p + 1;
            },
        }
    }
    proof {
        assert(timeline_row_at(t@, p as int) is None);
        lemma_all_matches_skip(t@, p as int, m);
        assert(all_matches(t@, p + 1, m) == Seq::<(Seq<char>, Seq<char>)>::empty());
        assert(rows_done + all_matches(t@, p as int, m) =~= rows_done);
    }
    out
}

/// The org events of the events directory: those of the recruitment timeline when
/// that note exists (`recruitment` holds its text), in calendar order; events of one
/// date keep their table order.
pub fn read_org_events(recruitment: Option<&str>) -> (r: Vec<OrgEvent>)
    requires
        recruitment matches Some(c) ==> timeline_labels_ok(c@),
    ensures
        r@.map_values(|e: OrgEvent| e@) == stable_sorted_by(
            match recruitment {
                Some(c) => org_events_of_rows(timeline_rows(c@), RECRUITMENT_FILE@),
                None => Seq::<OrgEventView>::empty(),
            },
            |v: OrgEventView| v.date,
        ),
        forall|i: int| 0 <= i < r@.len() ==> (#[trigger] r@[i]).date.wf() && r@[i].date.year == 2026,
        forall|i: int, j: int| 0 <= i <= j < r@.len() ==> (#[trigger] r@[i]).date.dn() <= (#[trigger] r@[j]).date.dn(),
{
    let events = match recruitment {
        Some(c) => parse_recruitment_table(c, RECRUITMENT_FILE),
        None => Vec::new(),
    };
    let r = stable_sort(events);
    proof {
        lemma_stable_sorted_map(events@, |x: OrgEvent| x.key(), |x: OrgEvent| x@, |v: OrgEventView| v.date);
        lemma_stable_sorted_elements(events@, |x: OrgEvent| x.key());
        crate::data::sort::lemma_stable_sorted_sorted(events@, |x: OrgEvent| x.key());
        assert forall|i: int| 0 <= i < r@.len() implies (#[trigger] r@[i]).date.wf() && r@[i].date.year == 2026 by {
            assert(events@.contains(r@[i]));
            let j = choose|j: int| 0 <= j < events@.len() && events@[j] == r@[i];
        }
        if recruitment is None {
            assert(events@.map_values(|e: OrgEvent| e@) =~= Seq::<OrgEventView>::empty());
        }
    }
    r
}

/// The events of a timeline are gathered row by row: the rows of two consecutive
/// stretches of the table give the events of the first followed by those of the
/// second.
pub proof fn law_org_events_append(a: Seq<(Seq<char>, Seq<char>)>, b: Seq<(Seq<char>, Seq<char>)>, source: Seq<char>)
    ensures
        org_events_of_rows(a + b, source) == org_events_of_rows(a, source) + org_events_of_rows(b, source),
    decreases b.len(),
{
    if b.len() == 0 {
        assert(a + b =~= a);
        assert(org_events_of_rows(a, source) + org_events_of_rows(b, source) =~= org_events_of_rows(a, source));
    } else {
        law_org_events_append(a, b.drop_last(), source);
        assert((a + b).drop_last() =~= a + b.drop_last());
        assert((a + b).last() == b.last());
        let x = org_events_of_rows(a, source);
        let y = org_events_of_rows(b.drop_last(), source);
        match org_event_of(b.last(), source) {
            Some(e) => {
                assert((x + y).push(e) =~= x + y.push(e));
            },
            None => {},
        }
    }
}

} // verus!
