//! Activity streaks with holiday protection and one freeze per ISO week, and the
//! official holidays read from the no-class-days table.
use vstd::prelude::*;

use crate::data::date::{
    all_wf, chrono_parse_date, dates_dn, day_number, lemma_dn_bounds, lemma_dn_injective,
    lemma_dn_le_max, max_date, parse_date, week_of, Date,
};
use crate::data::text::{
    chars_of, eq_ignore_ascii_case, eq_ignore_case_str, has_char, has_char_exec, int_text, lines,
    next_char, push_chars, push_int_text, split, split_char, split_lines, starts_with,
    starts_with_str, string_of, contains, contains_str, trim, trim_chars, utf8_len,
    utf8_len_capped, views, lemma_next_char,
};

verus! {

/// Result of computing a streak over a date range.
#[derive(Debug, Clone)]
pub struct StreakResult {
    /// Streak count at the end of the range.
    pub current_streak: u32,
    /// Longest streak seen over the range.
    pub best_streak: u32,
    /// Days where the week's freeze was consumed, in order.
    pub freeze_days: Vec<Date>,
    /// Days that were holiday-protected, in order.
    pub holiday_protected_days: Vec<Date>,
}

/// The day numbers of a list of dates, as a set.
pub open spec fn dn_set(s: Seq<Date>) -> Set<int> {
    Set::new(|x: int| exists|i: int| 0 <= i < s.len() && s[i].dn() == x)
}

/// The values of a list of integers, as a set.
pub open spec fn int_set(s: Seq<i64>) -> Set<int> {
    Set::new(|x: int| exists|i: int| 0 <= i < s.len() && s[i] == x)
}

/// The state of a streak walk over day numbers.
pub struct StreakState {
    pub current: int,
    pub best: int,
    pub used_weeks: Set<int>,
    pub freezes: Seq<int>,
    pub protected: Seq<int>,
}

pub open spec fn streak_start() -> StreakState {
    StreakState {
        current: 0,
        best: 0,
        used_weeks: Set::empty(),
        freezes: seq![],
        protected: seq![],
    }
}

pub open spec fn max_int(a: int, b: int) -> int {
    if a >= b {
        a
    } else {
        b
    }
}

/// One day of the walk: an active day extends the streak; a holiday is recorded and
/// changes nothing else; a miss consumes the week's freeze when it is still
/// available, and otherwise breaks the streak.
pub open spec fn streak_step(st: StreakState, dn: int, active: Set<int>, hol: Set<int>) -> StreakState {
    if active.contains(dn) {
        StreakState {
            current: st.current + 1,
            best: max_int(st.best, st.current + 1),
            used_weeks: st.used_weeks,
            freezes: st.freezes,
            protected: st.protected,
        }
    } else if hol.contains(dn) {
        StreakState {
            current: st.current,
            best: st.best,
            used_weeks: st.used_weeks,
            freezes: st.freezes,
            protected: st.protected.push(dn),
        }
    } else if !st.used_weeks.contains(week_of(dn)) {
        StreakState {
            current: st.current,
            best: st.best,
            used_weeks: st.used_weeks.insert(week_of(dn)),
            freezes: st.freezes.push(dn),
            protected: st.protected,
        }
    } else {
        StreakState {
            current: 0,
            best: max_int(st.best, st.current),
            used_weeks: st.used_weeks,
            freezes: st.freezes,
            protected: st.protected,
        }
    }
}

/// The state after walking the `n` days starting at day number `start`.
pub open spec fn streak_run(start: int, n: nat, active: Set<int>, hol: Set<int>) -> StreakState
    decreases n,
{
    if n == 0 {
        streak_start()
    } else {
        streak_step(streak_run(start, (n - 1) as nat, active, hol), start + n - 1, active, hol)
    }
}

/// Days from `from` to `to`, both included (none when `to` is earlier).
pub open spec fn days_in_range(from: Date, to: Date) -> nat {
    if from.dn() <= to.dn() {
        (to.dn() - from.dn() + 1) as nat
    } else {
        0
    }
}

/// What `compute_streak` reports for the given inputs.
pub open spec fn streak_final(active: Seq<Date>, hol: Seq<Date>, from: Date, to: Date) -> StreakState {
    streak_run(from.dn(), days_in_range(from, to), dn_set(active), dn_set(hol))
}

/// The date list holds `d`.
pub fn contains_date(v: &Vec<Date>, d: &Date) -> (r: bool)
    requires
        all_wf(v@),
        d.wf(),
    ensures
        r == dn_set(v@).contains(d.dn()),
{
    let mut i: usize = 0;
    while i < v.len()
        invariant
            i <= v@.len(),
            all_wf(v@),
            d.wf(),
            forall|j: int| 0 <= j < i ==> v@[j].dn() != d.dn(),
        decreases v.len() - i,
    {
        if v[i] == *d {
            assert(v@[i as int].dn() == d.dn());
            return true;
        }
        proof {
            if v@[i as int].dn() == d.dn() {
                lemma_dn_injective(v@[i as int], *d);
            }
        }
        i = i + 1;
    }
    proof {
        if dn_set(v@).contains(d.dn()) {
            let j = choose|j: int| 0 <= j < v@.len() && v@[j].dn() == d.dn();
            assert(v@[j].dn() == d.dn());
        }
    }
    false
}

fn contains_week(v: &Vec<i64>, w: i64) -> (r: bool)
    ensures
        r == int_set(v@).contains(w as int),
{
    let mut i: usize = 0;
    while i < v.len()
        invariant
            i <= v@.len(),
            forall|j: int| 0 <= j < i ==> v@[j] != w,
        decreases v.len() - i,
    {
        if v[i] == w {
            return true;
        }
        i = i + 1;
    }
    false
}

proof fn lemma_run_bounds(start: int, n: nat, active: Set<int>, hol: Set<int>)
    ensures
        0 <= streak_run(start, n, active, hol).current <= n,
        0 <= streak_run(start, n, active, hol).best <= n,
    decreases n,
{
    if n > 0 {
        lemma_run_bounds(start, (n - 1) as nat, active, hol);
    }
}

/// Computes a streak over `[from, to]` with holiday protection and one freeze per
/// ISO week. Active days extend the streak (an active day counts even when it is
/// also a holiday); a holiday that is not active neither breaks the streak nor
/// consumes the freeze; any other day consumes the freeze of its ISO week when it is
/// still available, and otherwise breaks the streak.
pub fn compute_streak(
    active_days: &Vec<Date>,
    holiday_days: &Vec<Date>,
    from: Date,
    to: Date,
) -> (r: StreakResult)
    requires
        all_wf(active_days@),
        all_wf(holiday_days@),
        from.wf(),
        to.wf(),
    ensures
        ({
            let st = streak_final(active_days@, holiday_days@, from, to);
            &&& r.current_streak == st.current
            &&& r.best_streak == max_int(st.best, st.current)
            &&& dates_dn(r.freeze_days@) == st.freezes
            &&& dates_dn(r.holiday_protected_days@) == st.protected
        }),
        r.best_streak >= r.current_streak,
        all_wf(r.freeze_days@),
        all_wf(r.holiday_protected_days@),
        ({
            let (s, n, a, h) = (from.dn(), days_in_range(from, to), dn_set(active_days@), dn_set(holiday_days@));
            &&& dates_dn(r.freeze_days@) == first_misses(s, n, a, h)
            &&& dates_dn(r.holiday_protected_days@) == protected_days(s, n, a, h)
            &&& r.current_streak == streak_after(s, n, a, h)
            &&& r.best_streak == longest_streak(s, n, a, h)
        }),
{
    proof {
        law_streak_closed_form(from.dn(), days_in_range(from, to), dn_set(active_days@), dn_set(holiday_days@));
    }
    let ghost active = dn_set(active_days@);
    let ghost hol = dn_set(holiday_days@);
    let mut current_streak: u32 = 0;
    let mut best_streak: u32 = 0;
    let mut freeze_used: Vec<i64> = Vec::new();
    let mut freeze_days: Vec<Date> = Vec::new();
    let mut holiday_protected_days: Vec<Date> = Vec::new();
    if !from.le(&to) {
        return StreakResult { current_streak, best_streak, freeze_days, holiday_protected_days };
    }
    let n: i64 = to.days_since(&from) + 1;
    proof {
        lemma_dn_bounds(from);
        lemma_dn_bounds(to);
    }
    let mut day = from;
    let mut k: i64 = 0;
    while k < n
        invariant
            0 <= k <= n,
            n == days_in_range(from, to),
            n <= 200_000_000,
            day.wf(),
            to.wf(),
            all_wf(active_days@),
            all_wf(holiday_days@),
            all_wf(freeze_days@),
            all_wf(holiday_protected_days@),
            active == dn_set(active_days@),
            hol == dn_set(holiday_days@),
            k < n ==> day.dn() == from.dn() + k,
            ({
                let st = streak_run(from.dn(), k as nat, active, hol);
                &&& current_streak == st.current
                &&& best_streak == st.best
                &&& int_set(freeze_used@) == st.used_weeks
                &&& dates_dn(freeze_days@) == st.freezes
                &&& dates_dn(holiday_protected_days@) == st.protected
            }),
        decreases n - k,
    {
        proof {
            lemma_run_bounds(from.dn(), k as nat, active, hol);
        }
        let ghost before = streak_run(from.dn(), k as nat, active, hol);
        if contains_date(active_days, &day) {
            current_streak = current_streak + 1;
            if best_streak < current_streak {
                best_streak = current_streak;
            }
        } else if contains_date(holiday_days, &day) {
            let ghost old_p = holiday_protected_days@;
            holiday_protected_days.push(day);
            assert(dates_dn(holiday_protected_days@) =~= dates_dn(old_p).push(day.dn()));
        } else {
            let week = day.week_index();
            if !contains_week(&freeze_used, week) {
                let ghost old_w = freeze_used@;
                let ghost old_f = freeze_days@;
                freeze_used.push(week);
                freeze_days.push(day);
                assert(int_set(freeze_used@) =~= int_set(old_w).insert(week as int)) by {
                    assert forall|x: int| int_set(freeze_used@).contains(x) <==> int_set(old_w).insert(week as int).contains(x) by {
                        if x == week {
                            assert(freeze_used@[old_w.len() as int] == week);
                        } else if int_set(old_w).contains(x) {
                            let j = choose|j: int| 0 <= j < old_w.len() && old_w[j] == x;
                            assert(freeze_used@[j] == x);
                        } else if int_set(freeze_used@).contains(x) {
                            let j = choose|j: int| 0 <= j < freeze_used@.len() && freeze_used@[j] == x;
                            assert(old_w[j] == x);
                        }
                    }
                }
                assert(dates_dn(freeze_days@) =~= dates_dn(old_f).push(day.dn()));
            } else {
                if best_streak < current_streak {
                    best_streak = current_streak;
                }
                current_streak = 0;
            }
        }
        proof {
            assert(streak_run(from.dn(), (k + 1) as nat, active, hol) == streak_step(
                before,
                from.dn() + k,
                active,
                hol,
            ));
        }
        if k + 1 < n {
            proof {
                lemma_dn_le_max(to);
                lemma_dn_le_max(day);
                if day.is_max() {
                    assert(day.dn() == max_date().dn());
                    assert(false);
                }
            }
            day = day.succ_opt().unwrap();
        }
        k = k + 1;
    }
    if best_streak < current_streak {
        best_streak = current_streak;
    }
    StreakResult { current_streak, best_streak, freeze_days, holiday_protected_days }
}

// ---------------------------------------------------------------------------
// Laws of the streak walk

/// A day that is neither active nor a holiday.
pub open spec fn is_miss(dn: int, active: Set<int>, hol: Set<int>) -> bool {
    !active.contains(dn) && !hol.contains(dn)
}

/// The holidays of the `n` days from `start` that are not active, in order.
pub open spec fn protected_days(start: int, n: nat, active: Set<int>, hol: Set<int>) -> Seq<int>
    decreases n,
{
    if n == 0 {
        seq![]
    } else {
        let d = start + n - 1;
        let earlier = protected_days(start, (n - 1) as nat, active, hol);
        if !active.contains(d) && hol.contains(d) {
            earlier.push(d)
        } else {
            earlier
        }
    }
}

/// Holiday protection: the protected days are exactly the holidays in the range that
/// are not active, in calendar order.
pub proof fn law_protected_days_are_inactive_holidays(
    start: int,
    n: nat,
    active: Set<int>,
    hol: Set<int>,
)
    ensures
        streak_run(start, n, active, hol).protected == protected_days(start, n, active, hol),
    decreases n,
{
    if n > 0 {
        law_protected_days_are_inactive_holidays(start, (n - 1) as nat, active, hol);
    }
}

/// The freeze rule: every freeze day lies in the range and is a miss (neither active
/// nor a holiday, so a holiday never consumes a freeze); freeze days come in
/// calendar order; and no two of them share an ISO week, that is, at most one freeze
/// is consumed per week.
pub proof fn law_one_freeze_per_week(start: int, n: nat, active: Set<int>, hol: Set<int>)
    ensures
        ({
            let f = streak_run(start, n, active, hol).freezes;
            &&& forall|i: int|
                0 <= i < f.len() ==> start <= #[trigger] f[i] < start + n && is_miss(
                    f[i],
                    active,
                    hol,
                )
            &&& forall|i: int, j: int| 0 <= i < j < f.len() ==> f[i] < f[j]
            &&& forall|i: int, j: int|
                0 <= i < j < f.len() ==> week_of(#[trigger] f[i]) != week_of(#[trigger] f[j])
        }),
        streak_run(start, n, active, hol).used_weeks == Set::new(
            |w: int|
                exists|i: int|
                    0 <= i < streak_run(start, n, active, hol).freezes.len() && week_of(
                        streak_run(start, n, active, hol).freezes[i],
                    ) == w,
        ),
    decreases n,
{
    if n > 0 {
        law_one_freeze_per_week(start, (n - 1) as nat, active, hol);
        let prev = streak_run(start, (n - 1) as nat, active, hol);
        let cur = streak_run(start, n, active, hol);
        let d = start + n - 1;
        if !active.contains(d) && !hol.contains(d) && !prev.used_weeks.contains(week_of(d)) {
            assert(cur.freezes == prev.freezes.push(d));
            assert forall|i: int, j: int| 0 <= i < j < cur.freezes.len() implies week_of(
                #[trigger] cur.freezes[i],
            ) != week_of(#[trigger] cur.freezes[j]) by {
                if j == prev.freezes.len() {
                    assert(cur.freezes[i] == prev.freezes[i]);
                    if week_of(prev.freezes[i]) == week_of(d) {
                        assert(prev.used_weeks.contains(week_of(d)));
                    }
                } else {
                    assert(cur.freezes[i] == prev.freezes[i]);
                    assert(cur.freezes[j] == prev.freezes[j]);
                }
            }
            assert(cur.used_weeks =~= Set::new(
                |w: int| exists|i: int| 0 <= i < cur.freezes.len() && week_of(cur.freezes[i]) == w,
            )) by {
                assert forall|w: int| cur.used_weeks.contains(w) implies exists|i: int|
                    0 <= i < cur.freezes.len() && week_of(cur.freezes[i]) == w by {
                    if w == week_of(d) {
                        assert(cur.freezes[prev.freezes.len() as int] == d);
                    } else {
                        let i = choose|i: int|
                            0 <= i < prev.freezes.len() && week_of(prev.freezes[i]) == w;
                        assert(cur.freezes[i] == prev.freezes[i]);
                    }
                }
                assert forall|w: int|
                    (exists|i: int| 0 <= i < cur.freezes.len() && week_of(cur.freezes[i]) == w)
                    implies cur.used_weeks.contains(w) by {
                    let i = choose|i: int| 0 <= i < cur.freezes.len() && week_of(cur.freezes[i]) == w;
                    if i < prev.freezes.len() {
                        assert(cur.freezes[i] == prev.freezes[i]);
                    }
                }
            }
        }
    }
}

proof fn lemma_used_weeks_grow(start: int, m: nat, n: nat, active: Set<int>, hol: Set<int>)
    requires
        m <= n,
    ensures
        streak_run(start, m, active, hol).used_weeks.subset_of(
            streak_run(start, n, active, hol).used_weeks,
        ),
    decreases n - m,
{
    if m < n {
        lemma_used_weeks_grow(start, m, (n - 1) as nat, active, hol);
    }
}

/// Two misses in one ISO week: the second one breaks the streak, whatever came in
/// between.
pub proof fn law_second_miss_in_week_breaks(
    start: int,
    active: Set<int>,
    hol: Set<int>,
    d1: int,
    d2: int,
)
    requires
        start <= d1 < d2,
        is_miss(d1, active, hol),
        is_miss(d2, active, hol),
        week_of(d1) == week_of(d2),
    ensures
        streak_run(start, (d2 - start + 1) as nat, active, hol).current == 0,
{
    let n1 = (d1 - start + 1) as nat;
    let n2 = (d2 - start + 1) as nat;
    assert(streak_run(start, n1, active, hol).used_weeks.contains(week_of(d1)));
    lemma_used_weeks_grow(start, n1, (n2 - 1) as nat, active, hol);
}

/// A range where every day is active: the streak is the number of days, and no
/// freeze or holiday protection is needed.
pub proof fn law_all_active(start: int, n: nat, active: Set<int>, hol: Set<int>)
    requires
        forall|d: int| start <= d < start + n ==> active.contains(d),
    ensures
        streak_run(start, n, active, hol).current == n,
        streak_run(start, n, active, hol).best == n,
        streak_run(start, n, active, hol).freezes.len() == 0,
        streak_run(start, n, active, hol).protected.len() == 0,
    decreases n,
{
    if n > 0 {
        law_all_active(start, (n - 1) as nat, active, hol);
    }
}

/// The best streak is never below the running streak.
pub proof fn law_best_bounds_current(start: int, n: nat, active: Set<int>, hol: Set<int>)
    ensures
        0 <= streak_run(start, n, active, hol).current <= streak_run(start, n, active, hol).best,
    decreases n,
{
    if n > 0 {
        law_best_bounds_current(start, (n - 1) as nat, active, hol);
        let prev = streak_run(start, (n - 1) as nat, active, hol);
        assert(streak_run(start, n, active, hol) == streak_step(prev, start + n - 1, active, hol));
    }
}

/// A miss that comes first in its ISO week among the days from `start`: the day
/// whose miss the week's freeze covers.
pub open spec fn first_miss_of_week(start: int, d: int, active: Set<int>, hol: Set<int>) -> bool {
    &&& is_miss(d, active, hol)
    &&& forall|e: int| start <= e < d && week_of(e) == week_of(d) ==> !is_miss(e, active, hol)
}

/// A miss that breaks the streak: one that is not the first of its ISO week.
pub open spec fn is_break(start: int, d: int, active: Set<int>, hol: Set<int>) -> bool {
    is_miss(d, active, hol) && !first_miss_of_week(start, d, active, hol)
}

/// The first misses of each ISO week among the `n` days from `start`, in order.
pub open spec fn first_misses(start: int, n: nat, active: Set<int>, hol: Set<int>) -> Seq<int>
    decreases n,
{
    if n == 0 {
        seq![]
    } else {
        let d = start + n - 1;
        let earlier = first_misses(start, (n - 1) as nat, active, hol);
        if first_miss_of_week(start, d, active, hol) {
            earlier.push(d)
        } else {
            earlier
        }
    }
}

/// The last break among the `n` days from `start` (the day before `start` when
/// there is none).
pub open spec fn last_break(start: int, n: nat, active: Set<int>, hol: Set<int>) -> int
    decreases n,
{
    if n == 0 {
        start - 1
    } else if is_break(start, start + n - 1, active, hol) {
        start + n - 1
    } else {
        last_break(start, (n - 1) as nat, active, hol)
    }
}

/// How many of the `n` days from `start` are active and come after the day `x`.
pub open spec fn active_after(start: int, n: nat, x: int, active: Set<int>) -> int
    decreases n,
{
    if n == 0 {
        0
    } else {
        let d = start + n - 1;
        active_after(start, (n - 1) as nat, x, active) + if d > x && active.contains(d) {
            1int
        } else {
            0int
        }
    }
}

/// The streak after the `n` days from `start`: the active days after the last break.
pub open spec fn streak_after(start: int, n: nat, active: Set<int>, hol: Set<int>) -> int {
    active_after(start, n, last_break(start, n, active, hol), active)
}

/// The longest streak within the `n` days from `start`: the largest streak after any
/// number of those days.
pub open spec fn longest_streak(start: int, n: nat, active: Set<int>, hol: Set<int>) -> int
    decreases n,
{
    if n == 0 {
        0
    } else {
        max_int(longest_streak(start, (n - 1) as nat, active, hol), streak_after(start, n, active, hol))
    }
}

proof fn lemma_used_weeks_are_missed_weeks(start: int, n: nat, active: Set<int>, hol: Set<int>, w: int)
    ensures
        streak_run(start, n, active, hol).used_weeks.contains(w) <==> exists|e: int|
            start <= e < start + n && week_of(e) == w && #[trigger] is_miss(e, active, hol),
    decreases n,
{
    if n > 0 {
        lemma_used_weeks_are_missed_weeks(start, (n - 1) as nat, active, hol, w);
        let d = start + n - 1;
        let prev = streak_run(start, (n - 1) as nat, active, hol);
        assert(streak_run(start, n, active, hol) == streak_step(prev, d, active, hol));
        if is_miss(d, active, hol) && week_of(d) == w {
            assert(start <= d < start + n);
        }
        if exists|e: int| start <= e < start + n - 1 && week_of(e) == w && #[trigger] is_miss(e, active, hol) {
            let e = choose|e: int| start <= e < start + n - 1 && week_of(e) == w && #[trigger] is_miss(e, active, hol);
            assert(start <= e < start + n);
        }
        if exists|e: int| start <= e < start + n && week_of(e) == w && #[trigger] is_miss(e, active, hol) {
            let e = choose|e: int| start <= e < start + n && week_of(e) == w && #[trigger] is_miss(e, active, hol);
            if e < d {
                assert(start <= e < start + n - 1);
            }
        }
    }
}

proof fn lemma_active_after_none(start: int, n: nat, x: int, active: Set<int>)
    requires
        x >= start + n - 1,
    ensures
        active_after(start, n, x, active) == 0,
    decreases n,
{
    if n > 0 {
        lemma_active_after_none(start, (n - 1) as nat, x, active);
    }
}

proof fn lemma_last_break_before(start: int, n: nat, active: Set<int>, hol: Set<int>)
    ensures
        start - 1 <= last_break(start, n, active, hol) <= start + n - 1,
    decreases n,
{
    if n > 0 {
        lemma_last_break_before(start, (n - 1) as nat, active, hol);
    }
}

/// The streak in closed form: freezes are the first misses of each ISO week;
/// holidays protect a day without breaking or freezing; every other miss breaks the
/// streak; the running streak counts the active days after the last break, and the
/// best streak (as reported, with the running one) is the largest such count over
/// the range.
pub proof fn law_streak_closed_form(start: int, n: nat, active: Set<int>, hol: Set<int>)
    ensures
        streak_run(start, n, active, hol).freezes == first_misses(start, n, active, hol),
        streak_run(start, n, active, hol).protected == protected_days(start, n, active, hol),
        streak_run(start, n, active, hol).current == streak_after(start, n, active, hol),
        max_int(streak_run(start, n, active, hol).best, streak_run(start, n, active, hol).current)
            == longest_streak(start, n, active, hol),
    decreases n,
{
    law_protected_days_are_inactive_holidays(start, n, active, hol);
    if n > 0 {
        let m = (n - 1) as nat;
        law_streak_closed_form(start, m, active, hol);
        let d = start + n - 1;
        let prev = streak_run(start, m, active, hol);
        assert(streak_run(start, n, active, hol) == streak_step(prev, d, active, hol));
        lemma_used_weeks_are_missed_weeks(start, m, active, hol, week_of(d));
        // the week of `d` is used before `d` exactly when `d` is not its week's first miss
        if is_miss(d, active, hol) {
            if prev.used_weeks.contains(week_of(d)) {
                let e = choose|e: int| start <= e < start + m && week_of(e) == week_of(d) && #[trigger] is_miss(e, active, hol);
                assert(!first_miss_of_week(start, d, active, hol));
            } else {
                assert forall|e: int| start <= e < d && week_of(e) == week_of(d) implies !is_miss(e, active, hol) by {
                    if is_miss(e, active, hol) {
                        assert(start <= e < start + m);
                    }
                }
                assert(first_miss_of_week(start, d, active, hol));
            }
        }
        lemma_last_break_before(start, m, active, hol);
        if is_break(start, d, active, hol) {
            lemma_active_after_none(start, n, d, active);
        }
    }
}

proof fn lemma_no_break(start: int, m: nat, n: nat, active: Set<int>, hol: Set<int>)
    requires
        m <= n,
        forall|d1: int, d2: int|
            start <= d1 < d2 < start + n && is_miss(d1, active, hol) && is_miss(d2, active, hol)
                ==> week_of(d1) != week_of(d2),
    ensures
        last_break(start, m, active, hol) == start - 1,
    decreases m,
{
    if m > 0 {
        lemma_no_break(start, (m - 1) as nat, n, active, hol);
        let d = start + m - 1;
        if is_miss(d, active, hol) {
            assert forall|e: int| start <= e < d && week_of(e) == week_of(d) implies !is_miss(e, active, hol) by {}
        }
    }
}

/// When no two misses of the range fall in one ISO week, each miss uses its own
/// week's freeze: the streak never breaks, and the running streak counts every active
/// day of the range. With ISO weeks (see `law_iso_weeks`), misses seven or more days
/// apart are such misses.
pub proof fn law_one_miss_per_week_keeps_streak(start: int, n: nat, active: Set<int>, hol: Set<int>)
    requires
        forall|d1: int, d2: int|
            start <= d1 < d2 < start + n && is_miss(d1, active, hol) && is_miss(d2, active, hol)
                ==> week_of(d1) != week_of(d2),
    ensures
        last_break(start, n, active, hol) == start - 1,
        streak_run(start, n, active, hol).current == active_after(start, n, start - 1, active),
        forall|d: int|
            start <= d < start + n && is_miss(d, active, hol) ==> first_miss_of_week(start, d, active, hol),
{
    lemma_no_break(start, n, n, active, hol);
    law_streak_closed_form(start, n, active, hol);
    assert forall|d: int| start <= d < start + n && is_miss(d, active, hol) implies first_miss_of_week(
        start,
        d,
        active,
        hol,
    ) by {
        assert forall|e: int| start <= e < d && week_of(e) == week_of(d) implies !is_miss(e, active, hol) by {}
    }
}

// ---------------------------------------------------------------------------
// Official holidays

/// The day number of a parsed (year, month, day).
pub open spec fn ymd_dn(t: (int, int, int)) -> int {
    day_number(t.0, t.1, t.2)
}

/// The date format of the holiday table.
pub open spec fn ymd_format() -> Seq<char> {
    "%Y-%m-%d"@
}

/// The days a date cell names: a single date (`2026-08-21`), a range within one
/// year whose end omits the year (`2026-10-29 → 10-31`), or a range with both years
/// (`2026-12-21 → 2027-01-01`). A range end of exactly ten bytes is read as a full
/// date; any other end is read after the start's year and a dash. Cells that do not
/// parse name no day.
pub open spec fn cell_days(cell: Seq<char>) -> Set<int> {
    if has_char(cell, '→') {
        let k = next_char(cell, '→', 0);
        let a = trim(cell.subrange(0, k));
        let b = trim(cell.subrange(k + 1, cell.len() as int));
        match chrono_parse_date(a, ymd_format()) {
            Ok(st) => {
                let end = if utf8_len(b) == 10 {
                    chrono_parse_date(b, ymd_format())
                } else {
                    chrono_parse_date(int_text(st.0) + "-"@ + b, ymd_format())
                };
                match end {
                    Ok(en) => Set::new(|x: int| ymd_dn(st) <= x <= ymd_dn(en)),
                    Err(_) => Set::empty(),
                }
            },
            Err(_) => Set::empty(),
        }
    } else {
        match chrono_parse_date(cell, ymd_format()) {
            Ok(t) => set![ymd_dn(t)],
            Err(_) => Set::empty(),
        }
    }
}

/// A list of dates without repeated days.
pub open spec fn date_set_ok(s: Seq<Date>) -> bool {
    all_wf(s) && dates_dn(s).no_duplicates()
}

fn insert_date(out: &mut Vec<Date>, d: Date)
    requires
        date_set_ok(old(out)@),
        d.wf(),
    ensures
        date_set_ok(final(out)@),
        dn_set(final(out)@) == dn_set(old(out)@).insert(d.dn()),
{
    if !contains_date(out, &d) {
        let ghost before = out@;
        out.push(d);
        proof {
            assert(dates_dn(out@) =~= dates_dn(before).push(d.dn()));
            assert(dn_set(out@) =~= dn_set(before).insert(d.dn())) by {
                assert forall|x: int| dn_set(out@).contains(x) implies dn_set(before).insert(
                    d.dn(),
                ).contains(x) by {
                    let i = choose|i: int| 0 <= i < out@.len() && out@[i].dn() == x;
                    if i < before.len() {
                        assert(before[i] == out@[i]);
                    }
                }
                assert forall|x: int| dn_set(before).insert(d.dn()).contains(x) implies dn_set(
                    out@,
                ).contains(x) by {
                    if x == d.dn() {
                        assert(out@[before.len() as int] == d);
                    } else {
                        let i = choose|i: int| 0 <= i < before.len() && before[i].dn() == x;
                        assert(out@[i] == before[i]);
                    }
                }
            }
        }
    } else {
        assert(dn_set(out@) =~= dn_set(out@).insert(d.dn()));
    }
}

fn parse_ymd_chars(s: &[char]) -> (r: Result<Date, String>)
    ensures
        match r {
            Ok(d) => d.wf() && chrono_parse_date(s@, ymd_format()) == Ok::<(int, int, int), Seq<char>>(
                (d.year as int, d.month as int, d.day as int),
            ),
            Err(e) => chrono_parse_date(s@, ymd_format()) == Err::<(int, int, int), Seq<char>>(e@),
        },
{
    let st = string_of(s);
    parse_date(st.as_str(), "%Y-%m-%d")
}

/// Adds the days a date cell names (see `cell_days`) to `out`.
pub fn parse_date_cell(cell: &[char], out: &mut Vec<Date>)
    requires
        date_set_ok(old(out)@),
    ensures
        date_set_ok(final(out)@),
        dn_set(final(out)@) == dn_set(old(out)@).union(cell_days(cell@)),
{
    if has_char_exec(cell, '→') {
        let mut k: usize = 0;
        while k < cell.len() && cell[k] != '→'
            invariant
                k <= cell@.len(),
                next_char(cell@, '→', 0) == next_char(cell@, '→', k as int),
            decreases cell.len() - k,
        {
            k = k + 1;
        }
        proof {
            lemma_next_char(cell@, '→', 0);
        }
        let a_raw = crate::data::text::slice_chars(cell, 0, k);
        let b_raw = crate::data::text::slice_chars(cell, k + 1, cell.len());
        let a = trim_chars(&a_raw);
        let b = trim_chars(&b_raw);
        let start = match parse_ymd_chars(&a) {
            Ok(d) => d,
            Err(_) => {
                assert(cell_days(cell@) =~= Set::empty());
                assert(dn_set(out@) =~= dn_set(out@).union(cell_days(cell@)));
                return;
            },
        };
        let end_res = if utf8_len_capped(&b, 0, b.len(), 11) == 10 {
            proof {
                assert(b@.subrange(0, b@.len() as int) =~= b@);
            }
            parse_ymd_chars(&b)
        } else {
            proof {
                assert(b@.subrange(0, b@.len() as int) =~= b@);
            }
            let mut full: Vec<char> = Vec::new();
            push_int_text(&mut full, start.year as i64);
            full.push('-');
            push_chars(&mut full, &b);
            proof {
                assert(full@ =~= int_text(start.year as int) + "-"@ + b@) by {
                    reveal_strlit("-");
                }
            }
            parse_ymd_chars(&full)
        };
        let end = match end_res {
            Ok(d) => d,
            Err(_) => {
                assert(cell_days(cell@) =~= Set::empty());
                assert(dn_set(out@) =~= dn_set(out@).union(cell_days(cell@)));
                return;
            },
        };
        let ghost target = cell_days(cell@);
        assert(target == Set::new(|x: int| start.dn() <= x <= end.dn()));
        let ghost base = dn_set(out@);
        if !start.le(&end) {
            assert(target =~= Set::empty());
            assert(dn_set(out@) =~= base.union(target));
            return;
        }
        proof {
            lemma_dn_bounds(start);
            lemma_dn_bounds(end);
        }
        let n: i64 = end.days_since(&start) + 1;
        let mut d = start;
        let mut i: i64 = 0;
        while i < n
            invariant
                0 <= i <= n,
                n == end.dn() - start.dn() + 1,
                d.wf(),
                end.wf(),
                i < n ==> d.dn() == start.dn() + i,
                date_set_ok(out@),
                dn_set(out@) == base.union(Set::new(|x: int| start.dn() <= x < start.dn() + i)),
            decreases n - i,
        {
            let ghost prev = dn_set(out@);
            insert_date(out, d);
            proof {
                assert(dn_set(out@) =~= base.union(
                    Set::new(|x: int| start.dn() <= x < start.dn() + i + 1),
                ));
            }
            if i + 1 < n {
                proof {
                    lemma_dn_le_max(end);
                    lemma_dn_le_max(d);
                    if d.is_max() {
                        assert(false);
                    }
                }
                d = d.succ_opt().unwrap();
            }
            i = i + 1;
        }
        assert(Set::new(|x: int| start.dn() <= x < start.dn() + n) =~= target);
    } else {
        match parse_ymd_chars(cell) {
            Ok(d) => {
                insert_date(out, d);
                assert(cell_days(cell@) =~= set![d.dn()]);
                assert(dn_set(out@) =~= dn_set(old(out)@).union(cell_days(cell@)));
            },
            Err(_) => {
                assert(cell_days(cell@) =~= Set::empty());
                assert(dn_set(out@) =~= dn_set(old(out)@).union(cell_days(cell@)));
            },
        }
    }
}

/// What a table row of the holiday section contributes.
pub open spec fn holiday_row_days(t: Seq<char>) -> Set<int> {
    let cells = split(t, '|');
    if cells.len() < 2 {
        Set::empty()
    } else {
        let c = trim(cells[1]);
        if c.len() == 0 || starts_with(c, "-"@) || eq_ignore_ascii_case(c, "Date"@) {
            Set::empty()
        } else {
            cell_days(c)
        }
    }
}

/// End of the run of `#` that starts at `i`.
pub open spec fn hashes_end(t: Seq<char>, i: int) -> int
    decreases t.len() - i,
{
    if 0 <= i < t.len() && t[i] == '#' {
        hashes_end(t, i + 1)
    } else {
        i
    }
}

/// A (trimmed) Markdown heading line: one to six `#`, then a space, a tab or the end
/// of the line. A tag such as `#holidays` is no heading.
pub open spec fn is_heading(t: Seq<char>) -> bool {
    let h = hashes_end(t, 0);
    &&& 1 <= h <= 6
    &&& (h == t.len() || t[h] == ' ' || t[h] == '\t')
}

/// Whether a trimmed line is a Markdown heading (see `is_heading`).
pub fn heading_line(t: &[char]) -> (r: bool)
    ensures
        r == is_heading(t@),
{
    let mut h: usize = 0;
    while h < t.len() && t[h] == '#'
        invariant
            h <= t@.len(),
            hashes_end(t@, 0) == hashes_end(t@, h as int),
        decreases t.len() - h,
    {
        h = h + 1;
    }
    1 <= h && h <= 6 && (h == t.len() || t[h] == ' ' || t[h] == '\t')
}

/// The holidays named by the lines from index `i` on; `inside` tells whether the
/// "Official Holidays" section is open. Only table rows (lines starting with `|`,
/// after trimming) of that section count, and the section ends at the next heading
/// line (see `is_heading`), whatever its level.
pub open spec fn holiday_scan(ls: Seq<Seq<char>>, i: int, inside: bool) -> Set<int>
    decreases ls.len() - i,
{
    if i < 0 || i >= ls.len() {
        Set::empty()
    } else {
        let t = trim(ls[i]);
        if contains(t, "Official Holidays"@) {
            holiday_scan(ls, i + 1, true)
        } else if inside && is_heading(t) {
            Set::empty()
        } else if !inside || !starts_with(t, "|"@) {
            holiday_scan(ls, i + 1, inside)
        } else {
            holiday_row_days(t).union(holiday_scan(ls, i + 1, inside))
        }
    }
}

/// The official holidays of a no-class-days note.
pub open spec fn holidays_of(content: Seq<char>) -> Set<int> {
    holiday_scan(lines(content), 0, false)
}

/// Parses the official holiday dates of a no-class-days note: the day numbers of the
/// result are exactly `holidays_of(content)`, each once.
pub fn load_holiday_days(content: &str) -> (r: Vec<Date>)
    ensures
        date_set_ok(r@),
        dn_set(r@) == holidays_of(content@),
{
    let text = chars_of(content);
    let ls = split_lines(&text);
    let mut out: Vec<Date> = Vec::new();
    let mut inside = false;
    let mut i: usize = 0;
    assert(dn_set(out@) =~= Set::empty());
    while i < ls.len()
        invariant
            i <= ls@.len(),
            views(ls@) == lines(content@),
            date_set_ok(out@),
            dn_set(out@).union(holiday_scan(views(ls@), i as int, inside)) == holidays_of(
                content@,
            ),
        decreases ls.len() - i,
    {
        let ghost vs = views(ls@);
        let t = trim_chars(&ls[i]);
        assert(t@ == trim(vs[i as int]));
        if contains_str(&t, "Official Holidays") {
            inside = true;
        } else if inside && heading_line(&t) {
            assert(holiday_scan(vs, i as int, inside) == Set::<int>::empty());
            assert(dn_set(out@).union(Set::<int>::empty()) =~= dn_set(out@));
            return out;
        } else if !inside || !starts_with_str(&t, "|") {
        } else {
            let ghost before = dn_set(out@);
            let cells = split_char(&t, '|');
            if cells.len() >= 2 {
                let c = trim_chars(&cells[1]);
                assert(c@ == trim(views(cells@)[1]));
                if c.len() == 0 || starts_with_str(&c, "-") || eq_ignore_case_str(&c, "Date") {
                    assert(holiday_row_days(t@) =~= Set::<int>::empty());
                } else {
                    parse_date_cell(&c, &mut out);
                }
            } else {
                assert(holiday_row_days(t@) =~= Set::<int>::empty());
            }
            assert(dn_set(out@).union(holiday_scan(vs, i + 1, inside)) =~= before.union(
                holiday_scan(vs, i as int, inside),
            ));
        }
        i = i + 1;
    }
    assert(dn_set(out@).union(holiday_scan(views(ls@), i as int, inside)) =~= dn_set(out@));
    out
}

proof fn lemma_scan_outside(ls: Seq<Seq<char>>, i: int)
    requires
        forall|k: int| i <= k < ls.len() ==> !contains(trim(#[trigger] ls[k]), "Official Holidays"@),
    ensures
        holiday_scan(ls, i, false) == Set::<int>::empty(),
    decreases ls.len() - i,
{
    if 0 <= i < ls.len() {
        lemma_scan_outside(ls, i + 1);
    }
}

/// Only the "Official Holidays" section names holidays: a note without that section
/// names none; within it, a heading line ends it, so no line after the heading adds
/// a day unless another "Official Holidays" line reopens the section; and every
/// table row before that heading adds the days of its date cell.
pub proof fn law_holiday_section(ls: Seq<Seq<char>>, i: int)
    requires
        0 <= i < ls.len(),
    ensures
        (forall|k: int| 0 <= k < ls.len() ==> !contains(trim(#[trigger] ls[k]), "Official Holidays"@))
            ==> holiday_scan(ls, 0, false) == Set::<int>::empty(),
        !contains(trim(ls[i]), "Official Holidays"@) && is_heading(trim(ls[i])) ==> holiday_scan(
            ls,
            i,
            true,
        ) == Set::<int>::empty(),
        !contains(trim(ls[i]), "Official Holidays"@) && !is_heading(trim(ls[i])) && starts_with(
            trim(ls[i]),
            "|"@,
        ) ==> holiday_row_days(trim(ls[i])).subset_of(holiday_scan(ls, i, true)),
{
    if forall|k: int| 0 <= k < ls.len() ==> !contains(trim(#[trigger] ls[k]), "Official Holidays"@) {
        lemma_scan_outside(ls, 0);
    }
}

/// The first and last day numbers of a range cell `a → b`, when both ends parse (a
/// short end is read after the start's year and a dash).
pub open spec fn cell_range(c: Seq<char>) -> Option<(int, int)> {
    let k = next_char(c, '→', 0);
    let a = trim(c.subrange(0, k));
    let b = trim(c.subrange(k + 1, c.len() as int));
    match chrono_parse_date(a, ymd_format()) {
        Ok(st) => {
            let end = if utf8_len(b) == 10 {
                chrono_parse_date(b, ymd_format())
            } else {
                chrono_parse_date(int_text(st.0) + "-"@ + b, ymd_format())
            };
            match end {
                Ok(en) => Some((ymd_dn(st), ymd_dn(en))),
                Err(_) => None,
            }
        },
        Err(_) => None,
    }
}

/// The days a date cell names: for a plain cell its date alone (none when it does not
/// parse); for a range cell every day from its start to its end, none when the end
/// comes before the start or an end does not parse.
pub proof fn law_date_cell(c: Seq<char>)
    ensures
        !has_char(c, '→') ==> cell_days(c) == (match chrono_parse_date(c, ymd_format()) {
            Ok(t) => set![ymd_dn(t)],
            Err(_) => Set::<int>::empty(),
        }),
        has_char(c, '→') ==> match cell_range(c) {
            Some((st, en)) => forall|x: int| #[trigger] cell_days(c).contains(x) <==> st <= x <= en,
            None => cell_days(c) == Set::<int>::empty(),
        },
        has_char(c, '→') ==> (cell_range(c) matches Some((st, en)) && en < st ==> cell_days(c)
            == Set::<int>::empty()),
{
    if has_char(c, '→') {
        if let Some((st, en)) = cell_range(c) {
            if en < st {
                assert(cell_days(c) =~= Set::<int>::empty());
            }
        }
    }
}

} // verus!
