//! The semester's canonical week numbering.
use vstd::prelude::*;

use crate::data::date::{parse_date, Date};

verus! {

/// First day of the semester (a Monday), as written in the semester notes.
pub const SEMESTER_START_DATE: &'static str = "2026-08-03";

/// Number of canonical weeks in the semester.
pub const SEMESTER_WEEKS: u32 = 18;

/// The first day of the semester, read from `SEMESTER_START_DATE`.
pub fn semester_start() -> (r: Date)
    ensures
        r == (Date { year: 2026, month: 8, day: 3 }),
        r.wf(),
{
    proof {
        reveal_strlit("2026-08-03");
        reveal_strlit("%Y-%m-%d");
        let t = "2026-08-03"@;
        assert(crate::data::date::digits_value(t, 0, 4) == 2026) by {
            reveal_with_fuel(crate::data::date::digits_value, 5);
        }
        assert(crate::data::date::digits_value(t, 5, 7) == 8) by {
            reveal_with_fuel(crate::data::date::digits_value, 3);
        }
        assert(crate::data::date::digits_value(t, 8, 10) == 3) by {
            reveal_with_fuel(crate::data::date::digits_value, 3);
        }
    }
    match parse_date(SEMESTER_START_DATE, "%Y-%m-%d") {
        Ok(d) => d,
        Err(_) => {
            proof {
                assert(false);
            }
            Date { year: 2026, month: 8, day: 3 }
        },
    }
}

/// The canonical week of a day number: week 1 starts on the first day of the
/// semester, each week is seven days, and only weeks 1 to 18 exist.
pub open spec fn canonical_week(dn: int) -> Option<int> {
    let start = (Date { year: 2026, month: 8, day: 3 }).dn();
    if dn < start {
        None
    } else if (dn - start) / 7 + 1 <= 18 {
        Some((dn - start) / 7 + 1)
    } else {
        None
    }
}

/// The canonical semester week (1 to 18) of a date, or `None` before the semester
/// starts and after week 18.
pub fn date_to_canonical_week(date: Date) -> (r: Option<u32>)
    requires
        date.wf(),
    ensures
        match canonical_week(date.dn()) {
            Some(w) => r == Some(w as u32),
            None => r is None,
        },
{
    let start_date = semester_start();
    if !start_date.le(&date) {
        return None;
    }
    let days_diff = date.days_since(&start_date);
    let week = (days_diff / 7) + 1;
    if week <= 18 {
        Some(week as u32)
    } else {
        None
    }
}

/// The day number of the semester's first day.
pub open spec fn semester_start_dn() -> int {
    (Date { year: 2026, month: 8, day: 3 }).dn()
}

/// Canonical week `w` is the seven days starting `7 * (w - 1)` days after the
/// semester's first day; the 18 weeks cover the 126 days from that day on, and no
/// other day has a week.
pub proof fn law_canonical_week_span(dn: int)
    ensures
        canonical_week(dn) matches Some(w) ==> 1 <= w <= SEMESTER_WEEKS && semester_start_dn() + 7
            * (w - 1) <= dn < semester_start_dn() + 7 * w,
        canonical_week(dn) is Some <==> semester_start_dn() <= dn < semester_start_dn() + 7
            * SEMESTER_WEEKS,
{
    let start = semester_start_dn();
    if dn >= start {
        let q = (dn - start) / 7;
        assert(7 * q <= dn - start < 7 * q + 7);
    }
}

/// Later days never fall in earlier weeks.
pub proof fn law_canonical_week_monotone(a: int, b: int)
    requires
        a <= b,
        canonical_week(a) is Some,
        canonical_week(b) is Some,
    ensures
        canonical_week(a).unwrap() <= canonical_week(b).unwrap(),
{
    let start = semester_start_dn();
    vstd::arithmetic::div_mod::lemma_div_is_ordered(a - start, b - start, 7);
}

} // verus!
