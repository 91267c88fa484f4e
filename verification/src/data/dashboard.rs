//! What the dashboard shows: weekly totals, the pending deadlines, and how each is
//! labelled.
use vstd::prelude::*;
use vstd::string::StrSliceExecFns;

use crate::data::calendar::{canonical_week, date_to_canonical_week};
use crate::data::deadlines::{instant_ok, Deadline, ManilaDateTime};
use crate::data::text::{chars_of, eq_str, next_char, push_str, string_of, utf8_len, utf8_width};
use crate::data::DayMetric;

verus! {

broadcast use vstd::string::group_string_axioms;

/// The number of weeks the grid shows.
pub const GRID_WEEKS: usize = 18;

/// The total value of the metrics (of the first `n`) that fall in canonical week `w`.
pub open spec fn week_total(ms: Seq<DayMetric>, n: int, w: int) -> int
    decreases n,
{
    if n <= 0 || n > ms.len() {
        0
    } else {
        week_total(ms, n - 1, w) + if canonical_week(ms[n - 1].date.dn()) == Some(w) {
            ms[n - 1].value as int
        } else {
            0
        }
    }
}

proof fn lemma_week_total_mono(ms: Seq<DayMetric>, n: int, m: int, w: int)
    requires
        0 <= n <= m <= ms.len(),
    ensures
        week_total(ms, n, w) <= week_total(ms, m, w),
    decreases m - n,
{
    if n < m {
        lemma_week_total_mono(ms, n, m - 1, w);
    }
}

/// Adds up the metrics of each canonical week: entry `k` is the total of week
/// `k + 1`. Metrics outside weeks 1 to 18 are left out. `None` when a week's total
/// does not fit a `u32`.
pub fn weekly_totals(metrics: &Vec<DayMetric>) -> (r: Option<Vec<u32>>)
    requires
        forall|i: int| 0 <= i < metrics@.len() ==> (#[trigger] metrics@[i]).date.wf(),
    ensures
        match r {
            Some(v) => v@.len() == GRID_WEEKS && forall|k: int|
                0 <= k < GRID_WEEKS ==> v@[k] == week_total(metrics@, metrics@.len() as int, k + 1),
            None => exists|w: int|
                1 <= w <= GRID_WEEKS && #[trigger] week_total(metrics@, metrics@.len() as int, w)
                    > u32::MAX,
        },
{
    let mut totals: Vec<u32> = Vec::new();
    let mut k: usize = 0;
    while k < GRID_WEEKS
        invariant
            k <= GRID_WEEKS,
            totals@.len() == k,
            forall|j: int| 0 <= j < k ==> totals@[j] == 0,
        decreases GRID_WEEKS - k,
    {
        totals.push(0);
        k = k + 1;
    }
    let mut i: usize = 0;
    while i < metrics.len()
        invariant
            i <= metrics@.len(),
            totals@.len() == GRID_WEEKS,
            forall|i: int| 0 <= i < metrics@.len() ==> (#[trigger] metrics@[i]).date.wf(),
            forall|j: int| 0 <= j < GRID_WEEKS ==> totals@[j] == week_total(metrics@, i as int, j + 1),
        decreases metrics.len() - i,
    {
        let m = metrics[i];
        match date_to_canonical_week(m.date) {
            Some(w) => {
                if w >= 1 && w <= 18 {
                    let idx = (w - 1) as usize;
                    let cur = totals[idx];
                    if cur > u32::MAX - m.value {
                        proof {
                            lemma_week_total_mono(metrics@, i + 1, metrics@.len() as int, w as int);
                            assert(week_total(metrics@, metrics@.len() as int, idx + 1) > u32::MAX);
                        }
                        return None;
                    }
                    totals.set(idx, cur + m.value);
                }
            },
            None => {},
        }
        proof {
            assert forall|j: int| 0 <= j < GRID_WEEKS implies totals@[j] == week_total(
                metrics@,
                i + 1,
                j + 1,
            ) by {}
        }
        i = i + 1;
    }
    Some(totals)
}

/// How many pending deadlines the dashboard lists.
pub const SHOWN_DEADLINES: usize = 5;

/// A deadline is pending while it is neither submitted nor returned.
pub open spec fn is_pending(d: Deadline) -> bool {
    !d.submitted && d.submission_state@ != "returned"@
}

/// The positions of the pending deadlines among the first `n`, in order.
pub open spec fn pending_upto(ds: Seq<Deadline>, n: int) -> Seq<int>
    decreases n,
{
    if n <= 0 || n > ds.len() {
        seq![]
    } else {
        pending_upto(ds, n - 1) + if is_pending(ds[n - 1]) {
            seq![n - 1]
        } else {
            seq![]
        }
    }
}

/// The positions of the deadlines the dashboard lists: the first five pending ones,
/// in order.
pub open spec fn shown_deadlines(ds: Seq<Deadline>) -> Seq<int> {
    let p = pending_upto(ds, ds.len() as int);
    if p.len() <= 5 {
        p
    } else {
        p.take(5)
    }
}

proof fn lemma_pending_prefix(ds: Seq<Deadline>, n: int, m: int)
    requires
        0 <= n <= m <= ds.len(),
    ensures
        pending_upto(ds, n).len() <= pending_upto(ds, m).len(),
        pending_upto(ds, m).take(pending_upto(ds, n).len() as int) == pending_upto(ds, n),
    decreases m - n,
{
    if n < m {
        lemma_pending_prefix(ds, n, m - 1);
        let a = pending_upto(ds, m - 1);
        let b = pending_upto(ds, m);
        assert(b.take(a.len() as int) =~= a);
        let k = pending_upto(ds, n).len() as int;
        assert(b.take(k) =~= a.take(k));
    } else {
        assert(pending_upto(ds, m).take(pending_upto(ds, m).len() as int) =~= pending_upto(ds, m));
    }
}

proof fn lemma_pending_upto(ds: Seq<Deadline>, n: int)
    requires
        0 <= n <= ds.len(),
    ensures
        forall|k: int|
            0 <= k < pending_upto(ds, n).len() ==> 0 <= #[trigger] pending_upto(ds, n)[k] < n
                && is_pending(ds[pending_upto(ds, n)[k]]),
        forall|a: int, b: int|
            0 <= a < b < pending_upto(ds, n).len() ==> #[trigger] pending_upto(ds, n)[a]
                < #[trigger] pending_upto(ds, n)[b],
        forall|j: int|
            0 <= j < n && is_pending(#[trigger] ds[j]) ==> pending_upto(ds, n).contains(j),
    decreases n,
{
    if n > 0 {
        lemma_pending_upto(ds, n - 1);
        let a = pending_upto(ds, n - 1);
        let p = pending_upto(ds, n);
        assert forall|k: int| 0 <= k < p.len() implies 0 <= #[trigger] p[k] < n && is_pending(ds[p[k]]) by {
            if k < a.len() {
                assert(p[k] == a[k]);
            }
        }
        assert forall|x: int, y: int| 0 <= x < y < p.len() implies #[trigger] p[x] < #[trigger] p[y] by {
            if y < a.len() {
                assert(p[x] == a[x] && p[y] == a[y]);
            } else {
                assert(p[x] == a[x]);
            }
        }
        assert forall|j: int| 0 <= j < n && is_pending(#[trigger] ds[j]) implies p.contains(j) by {
            if j < n - 1 {
                let k = choose|k: int| 0 <= k < a.len() && a[k] == j;
                assert(p[k] == j);
            } else {
                assert(p[a.len() as int] == j);
            }
        }
    }
}

/// The dashboard lists at most five deadlines, all pending, in their order; a pending
/// deadline is left out only when five earlier ones are listed.
pub proof fn law_shown_deadlines(ds: Seq<Deadline>)
    ensures
        shown_deadlines(ds).len() <= 5,
        forall|k: int|
            0 <= k < shown_deadlines(ds).len() ==> 0 <= #[trigger] shown_deadlines(ds)[k] < ds.len()
                && is_pending(ds[shown_deadlines(ds)[k]]),
        forall|a: int, b: int|
            0 <= a < b < shown_deadlines(ds).len() ==> #[trigger] shown_deadlines(ds)[a]
                < #[trigger] shown_deadlines(ds)[b],
        forall|j: int|
            0 <= j < ds.len() && is_pending(#[trigger] ds[j]) && !shown_deadlines(ds).contains(j) ==> {
                &&& shown_deadlines(ds).len() == 5
                &&& forall|k: int| 0 <= k < 5 ==> #[trigger] shown_deadlines(ds)[k] < j
            },
{
    let n = ds.len() as int;
    lemma_pending_upto(ds, n);
    let p = pending_upto(ds, n);
    let s = shown_deadlines(ds);
    assert forall|k: int| 0 <= k < s.len() implies 0 <= #[trigger] s[k] < ds.len() && is_pending(ds[s[k]]) by {
        assert(s[k] == p[k]);
    }
    assert forall|a: int, b: int| 0 <= a < b < s.len() implies #[trigger] s[a] < #[trigger] s[b] by {
        assert(s[a] == p[a] && s[b] == p[b]);
    }
    assert forall|j: int| 0 <= j < ds.len() && is_pending(#[trigger] ds[j]) && !s.contains(j) implies {
        &&& s.len() == 5
        &&& forall|k: int| 0 <= k < 5 ==> #[trigger] s[k] < j
    } by {
        let m = choose|m: int| 0 <= m < p.len() && p[m] == j;
        if p.len() <= 5 {
            assert(s[m] == j);
        } else {
            if m < 5 {
                assert(s[m] == j);
            }
            assert forall|k: int| 0 <= k < 5 implies #[trigger] s[k] < j by {
                assert(s[k] == p[k]);
            }
        }
    }
}

/// Chooses the deadlines to list: the positions of the first five that are neither
/// submitted nor returned (see `shown_deadlines`).
pub fn active_deadlines(ds: &Vec<Deadline>) -> (r: Vec<usize>)
    ensures
        r@.map_values(|i: usize| i as int) == shown_deadlines(ds@),
{
    let mut out: Vec<usize> = Vec::new();
    let mut i: usize = 0;
    while i < ds.len() && out.len() < SHOWN_DEADLINES
        invariant
            i <= ds@.len(),
            out@.map_values(|i: usize| i as int) == pending_upto(ds@, i as int),
            out@.len() <= SHOWN_DEADLINES,
        decreases ds.len() - i,
    {
        let d = &ds[i];
        let cs = chars_of(d.submission_state.as_str());
        let ghost before = out@;
        if !d.submitted && !eq_str(&cs, "returned") {
            out.push(i);
            assert(out@.map_values(|i: usize| i as int) =~= before.map_values(|i: usize| i as int)
                + seq![i as int]);
        } else {
            assert(out@.map_values(|i: usize| i as int) =~= before.map_values(|i: usize| i as int)
                + Seq::<int>::empty());
        }
        i = i + 1;
    }
    proof {
        lemma_pending_prefix(ds@, i as int, ds@.len() as int);
        let all = pending_upto(ds@, ds@.len() as int);
        if i < ds@.len() {
            assert(all.take(5) =~= pending_upto(ds@, i as int));
        }
    }
    out
}

/// The tag a course is listed under: its name up to the first space.
pub open spec fn course_tag_of(course: Seq<char>) -> Seq<char> {
    course.subrange(0, next_char(course, ' ', 0))
}

/// The tag a course is listed under (see `course_tag_of`).
pub fn course_tag(course: &str) -> (r: &str)
    ensures
        r@ == course_tag_of(course@),
{
    let t = chars_of(course);
    let mut j: usize = 0;
    while j < t.len() && t[j] != ' '
        invariant
            j <= t@.len(),
            t@ == course@,
            next_char(t@, ' ', 0) == next_char(t@, ' ', j as int),
        decreases t.len() - j,
    {
        j = j + 1;
    }
    course.substring_char(0, j)
}

/// The number of characters whose UTF-8 encoding takes the first `b` bytes of `t`.
pub open spec fn chars_in_bytes(t: Seq<char>, b: int) -> Option<int> {
    if exists|k: int| 0 <= k <= t.len() && utf8_len(#[trigger] t.take(k)) == b {
        Some(choose|k: int| 0 <= k <= t.len() && utf8_len(#[trigger] t.take(k)) == b)
    } else {
        None
    }
}

/// A title longer than 16 bytes is cut to its first 13 bytes, followed by `...`.
pub open spec fn cropped_title(t: Seq<char>) -> Seq<char> {
    if utf8_len(t) > 16 {
        t.take(chars_in_bytes(t, 13).unwrap()) + "..."@
    } else {
        t
    }
}

/// Cutting a long title after 13 bytes does not split a character.
pub open spec fn crop_fits(t: Seq<char>) -> bool {
    utf8_len(t) > 16 ==> chars_in_bytes(t, 13) is Some
}

proof fn lemma_utf8_take_step(t: Seq<char>, k: int)
    requires
        0 <= k < t.len(),
    ensures
        utf8_len(t.take(k + 1)) == utf8_len(t.take(k)) + utf8_width(t[k]),
        utf8_width(t[k]) >= 1,
{
    assert(t.take(k + 1).drop_last() =~= t.take(k));
}

proof fn lemma_utf8_take_mono(t: Seq<char>, a: int, b: int)
    requires
        0 <= a <= b <= t.len(),
    ensures
        utf8_len(t.take(a)) + (b - a) <= utf8_len(t.take(b)),
    decreases b - a,
{
    if a < b {
        lemma_utf8_take_mono(t, a, b - 1);
        lemma_utf8_take_step(t, b - 1);
    }
}

/// The title as the deadline list shows it (see `cropped_title`).
pub fn crop_title(title: &str) -> (r: String)
    requires
        crop_fits(title@),
    ensures
        r@ == cropped_title(title@),
{
    let t = chars_of(title);
    assert(t@.take(t@.len() as int) =~= t@);
    let total = crate::data::text::utf8_len_capped(&t, 0, t.len(), 17);
    assert(t@.subrange(0, t@.len() as int) =~= t@);
    if total <= 16 {
        return string_of(&t);
    }
    let mut k: usize = 0;
    let mut bytes: usize = 0;
    while k < t.len() && bytes < 13
        invariant
            k <= t@.len(),
            bytes == utf8_len(t@.take(k as int)),
            bytes <= 16,
            k > 0 ==> utf8_len(t@.take(k - 1)) < 13,
            t@ == title@,
        decreases t.len() - k,
    {
        proof {
            lemma_utf8_take_step(t@, k as int);
        }
        let c = t[k];
        let w: usize = if (c as u32) < 0x80 {
            1
        } else if (c as u32) < 0x800 {
            2
        } else if (c as u32) < 0x10000 {
            3
        } else {
            4
        };
        bytes = bytes + w;
        k = k + 1;
    }
    proof {
        let kk = chars_in_bytes(t@, 13).unwrap();
        assert(0 <= kk <= t@.len() && utf8_len(t@.take(kk)) == 13);
        if bytes < 13 {
            assert(t@.take(k as int) =~= t@);
            crate::data::text::lemma_utf8_len_nonneg(t@);
        }
        if kk < k {
            lemma_utf8_take_mono(t@, kk, k - 1);
        } else if kk > k {
            lemma_utf8_take_mono(t@, k as int, kk);
        }
        assert(kk == k);
    }
    let mut out: Vec<char> = crate::data::text::slice_chars(&t, 0, k);
    push_str(&mut out, "...");
    string_of(&out)
}

// ---------------------------------------------------------------------------
// The deadline panel

/// What the deadline panel shows when no deadline is pending.
pub const NO_PENDING_DEADLINES: &'static str = "No pending deadlines! 🎉";

/// A line of the deadline panel: the placeholder, or the deadline at `index` with its
/// course tag, its title and its due day.
pub enum PanelLine {
    Placeholder,
    Due { index: usize, tag: String, title: String, due: String },
}

pub enum PanelLineView {
    Placeholder,
    Due { index: int, tag: Seq<char>, title: Seq<char>, due: Seq<char> },
}

impl View for PanelLine {
    type V = PanelLineView;

    open spec fn view(&self) -> PanelLineView {
        match self {
            PanelLine::Placeholder => PanelLineView::Placeholder,
            PanelLine::Due { index, tag, title, due } => PanelLineView::Due {
                index: *index as int,
                tag: tag@,
                title: title@,
                due: due@,
            },
        }
    }
}

/// `t` padded with spaces to `w` characters.
pub open spec fn pad_right(t: Seq<char>, w: int) -> Seq<char> {
    if t.len() >= w {
        t
    } else {
        t + Seq::new((w - t.len()) as nat, |i: int| ' ')
    }
}

/// The line of the deadline at `i`: `[tag] `, the cropped title padded to sixteen
/// characters and a space, and `(due MM-DD)`.
pub open spec fn panel_line(ds: Seq<Deadline>, i: int) -> PanelLineView {
    let d = ds[i];
    PanelLineView::Due {
        index: i,
        tag: "["@ + course_tag_of(d.course@) + "] "@,
        title: pad_right(cropped_title(d.title@), 16) + " "@,
        due: "(due "@ + crate::data::deadlines::two_digits(d.due.date.month as int) + seq!['-']
            + crate::data::deadlines::two_digits(d.due.date.day as int) + ")"@,
    }
}

/// The deadline panel: one line per listed deadline (see `shown_deadlines`), in
/// order, or the placeholder alone when none is pending.
pub open spec fn deadline_panel_of(ds: Seq<Deadline>) -> Seq<PanelLineView> {
    let s = shown_deadlines(ds);
    if s.len() == 0 {
        seq![PanelLineView::Placeholder]
    } else {
        s.map_values(|i: int| panel_line(ds, i))
    }
}

/// Every listed deadline has a title that can be cropped and a valid due time.
pub open spec fn panel_ready(ds: Seq<Deadline>) -> bool {
    forall|k: int|
        0 <= k < shown_deadlines(ds).len() ==> crop_fits(ds[#[trigger] shown_deadlines(ds)[k]].title@)
            && ds[shown_deadlines(ds)[k]].due.wf()
}

/// The lines of the deadline panel (see `deadline_panel_of`).
pub fn deadline_panel(ds: &Vec<Deadline>) -> (r: Vec<PanelLine>)
    requires
        panel_ready(ds@),
    ensures
        r@.map_values(|l: PanelLine| l@) == deadline_panel_of(ds@),
{
    proof {
        law_shown_deadlines(ds@);
    }
    let shown = active_deadlines(ds);
    let ghost s = shown_deadlines(ds@);
    assert(shown@.len() == s.len());
    let mut out: Vec<PanelLine> = Vec::new();
    if shown.len() == 0 {
        out.push(PanelLine::Placeholder);
        assert(out@.map_values(|l: PanelLine| l@) =~= deadline_panel_of(ds@));
        return out;
    }
    let mut k: usize = 0;
    while k < shown.len()
        invariant
            k <= shown@.len(),
            shown@.len() == s.len(),
            s.len() > 0,
            s == shown_deadlines(ds@),
            shown@.map_values(|i: usize| i as int) == s,
            panel_ready(ds@),
            forall|q: int| 0 <= q < s.len() ==> 0 <= #[trigger] s[q] < ds@.len(),
            out@.map_values(|l: PanelLine| l@) == s.take(k as int).map_values(|i: int| panel_line(ds@, i)),
        decreases shown.len() - k,
    {
        let i = shown[k];
        assert(s[k as int] == i as int);
        let d = &ds[i];
        let mut tag: Vec<char> = Vec::new();
        push_str(&mut tag, "[");
        push_str(&mut tag, course_tag(d.course.as_str()));
        push_str(&mut tag, "] ");
        let cropped = crop_title(d.title.as_str());
        let mut title = chars_of(cropped.as_str());
        let ghost ct = title@;
        while title.len() < 16
            invariant
                title.len() <= 16 || title@ == ct,
                title@ == pad_right(ct, title.len() as int) || title@ == ct,
                ct.len() <= title.len(),
                title@.subrange(0, ct.len() as int) == ct,
                forall|q: int| ct.len() <= q < title@.len() ==> title@[q] == ' ',
            decreases 16 - title.len(),
        {
            title.push(' ');
        }
        assert(title@ =~= pad_right(ct, 16));
        push_str(&mut title, " ");
        let mut due: Vec<char> = Vec::new();
        push_str(&mut due, "(due ");
        let md = d.due.month_day();
        push_str(&mut due, md.as_str());
        push_str(&mut due, ")");
        proof {
            reveal_strlit("[");
            reveal_strlit("] ");
            reveal_strlit(" ");
            reveal_strlit("(due ");
            reveal_strlit(")");
        }
        let line = PanelLine::Due { index: i, tag: string_of(&tag), title: string_of(&title), due: string_of(&due) };
        let ghost before = out@;
        out.push(line);
        proof {
            assert(tag@ == "["@ + course_tag_of(d.course@) + "] "@);
            assert(ct == cropped_title(d.title@));
            assert(title@ == pad_right(ct, 16) + " "@);
            assert(due@ =~= "(due "@ + crate::data::deadlines::two_digits(d.due.date.month as int) + seq!['-']
                + crate::data::deadlines::two_digits(d.due.date.day as int) + ")"@);
            assert(line@ == panel_line(ds@, i as int));
            assert(s.take(k + 1) =~= s.take(k as int).push(s[k as int]));
            assert(out@.map_values(|l: PanelLine| l@) =~= before.map_values(|l: PanelLine| l@).push(line@));
            assert(s.take(k + 1).map_values(|i: int| panel_line(ds@, i)) =~= s.take(k as int).map_values(
                |i: int| panel_line(ds@, i),
            ).push(panel_line(ds@, i as int)));
        }
        k = k + 1;
    }
    assert(s.take(k as int) =~= s);
    out
}

/// The deadline panel lists the first pending deadlines (at most five) in their
/// order, one line each showing the course tag, the cropped title and the due day;
/// with none pending it shows only the placeholder.
pub proof fn law_deadline_panel(ds: Seq<Deadline>)
    ensures
        shown_deadlines(ds).len() == 0 ==> deadline_panel_of(ds) == seq![PanelLineView::Placeholder],
        shown_deadlines(ds).len() > 0 ==> {
            &&& deadline_panel_of(ds).len() == shown_deadlines(ds).len() <= 5
            &&& forall|k: int|
                0 <= k < deadline_panel_of(ds).len() ==> {
                    let i = shown_deadlines(ds)[k];
                    &&& #[trigger] deadline_panel_of(ds)[k] == panel_line(ds, i)
                    &&& 0 <= i < ds.len()
                    &&& is_pending(ds[i])
                }
        },
{
    law_shown_deadlines(ds);
}

/// How soon a deadline is due.
#[derive(Debug, Clone, Copy, PartialEq, Eq, Structural)]
pub enum Urgency {
    /// Less than two whole days left (or past due).
    Imminent,
    /// Less than four whole days left.
    Soon,
    /// Four days or more.
    Later,
}

/// The urgency of a deadline with `days` whole days left.
pub open spec fn urgency_of(days: int) -> Urgency {
    if days < 2 {
        Urgency::Imminent
    } else if days < 4 {
        Urgency::Soon
    } else {
        Urgency::Later
    }
}

/// The urgency of a deadline with `days` whole days left (see `urgency_of`).
pub fn urgency_for_days(days: i64) -> (r: Urgency)
    ensures
        r == urgency_of(days as int),
{
    if days < 2 {
        Urgency::Imminent
    } else if days < 4 {
        Urgency::Soon
    } else {
        Urgency::Later
    }
}

/// Integer division rounding toward zero, as Rust's `/` does (`b > 0`).
pub open spec fn div_toward_zero(a: int, b: int) -> int {
    if a >= 0 {
        a / b
    } else {
        -((-a) / b)
    }
}

/// The nanoseconds from the instant `(b_ts, b_ns)` to `(a_ts, a_ns)` as chrono's
/// `signed_duration_since` counts them: whole days, seconds of the day, and
/// nanoseconds, where a leap second (nanoseconds of 1e9 or more) counts once.
pub open spec fn gap_nanos(a_ts: int, a_ns: int, b_ts: int, b_ns: int) -> int {
    let sa = a_ts % 86400;
    let sb = b_ts % 86400;
    let adj = if sa > sb && b_ns >= 1_000_000_000 {
        1int
    } else if sa < sb && a_ns >= 1_000_000_000 {
        -1int
    } else {
        0int
    };
    ((a_ts / 86400 - b_ts / 86400) * 86400 + sa - sb + adj) * 1_000_000_000 + a_ns - b_ns
}

/// The whole days from `now` to `due` (rounded toward zero), or nothing when chrono
/// does not represent one of the instants (see `instant_ok`).
pub open spec fn days_between_of(due_ts: int, due_ns: int, now_ts: int, now_ns: int) -> Option<int> {
    if instant_ok(due_ts, due_ns) && instant_ok(now_ts, now_ns) {
        Some(div_toward_zero(gap_nanos(due_ts, due_ns, now_ts, now_ns), 86_400_000_000_000))
    } else {
        None
    }
}

/// Calls `chrono::DateTime::from_timestamp` on both instants, then
/// `signed_duration_since` and `num_days`: `from_timestamp` refuses exactly the
/// instants that `instant_ok` leaves out, the difference is the day, second and
/// nanosecond difference of the two UTC date-times (a leap second counted once), and
/// `num_days` rounds toward zero.
#[verifier::external_body]
fn days_between(due_ts: i64, due_ns: u32, now_ts: i64, now_ns: u32) -> (r: Option<i64>)
    ensures
        match days_between_of(due_ts as int, due_ns as int, now_ts as int, now_ns as int) {
            Some(d) => r == Some(d as i64),
            None => r is None,
        },
{
    let due = chrono::DateTime::from_timestamp(due_ts, due_ns)?;
    let now = chrono::DateTime::from_timestamp(now_ts, now_ns)?;
    Some(due.signed_duration_since(now).num_days())
}

/// The urgency of a deadline due at `due`, seen at the instant `now` (given by its
/// timestamp and nanoseconds): by the whole days left, rounded toward zero (see
/// `urgency_of`), or nothing when chrono does not represent the instant `now`.
pub fn deadline_urgency(due: &ManilaDateTime, now_ts: i64, now_ns: u32) -> (r: Option<Urgency>)
    ensures
        match days_between_of(due.timestamp as int, due.nanos as int, now_ts as int, now_ns as int) {
            Some(d) => r == Some(urgency_of(d)),
            None => r is None,
        },
{
    match days_between(due.timestamp, due.nanos, now_ts, now_ns) {
        Some(d) => Some(urgency_for_days(d)),
        None => None,
    }
}

/// The status line after one more warning: the first warning alone, later ones
/// joined with ` | `.
pub open spec fn with_warning(acc: Option<Seq<char>>, msg: Seq<char>) -> Seq<char> {
    match acc {
        Some(a) => a + " | "@ + msg,
        None => msg,
    }
}

/// Adds a warning to the status line (see `with_warning`).
pub fn add_warning(acc: &mut Option<String>, msg: &str)
    ensures
        *final(acc) matches Some(s) && s@ == with_warning(
            match *old(acc) {
                Some(a) => Some(a@),
                None => None,
            },
            msg@,
        ),
{
    let mut out: Vec<char> = Vec::new();
    match acc {
        Some(a) => {
            push_str(&mut out, a.as_str());
            push_str(&mut out, " | ");
        },
        None => {},
    }
    push_str(&mut out, msg);
    *acc = Some(string_of(&out));
}

} // verus!
