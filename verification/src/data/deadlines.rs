//! Assignment deadlines from the classroom export, in Manila time (UTC+8).
use vstd::prelude::*;

use chrono::Datelike;
use chrono::Timelike;

use crate::data::date::{Date, Time};
use crate::data::sort::{lemma_stable_sorted_map, stable_sort, stable_sorted_by, SortKey};
use crate::data::text::{chars_of, nat_text, string_of};

verus! {

/// An instant (seconds and nanoseconds since 1970-01-01 UTC), with the date and time
/// it has in Manila (UTC+8).
#[derive(Debug, Clone, Copy, PartialEq, Eq, Structural)]
pub struct ManilaDateTime {
    pub timestamp: i64,
    /// Nanoseconds past the second; 1e9 or more only within a leap second.
    pub nanos: u32,
    pub date: Date,
    pub time: Time,
}

/// The Unix epoch's day number (1970-01-01).
pub open spec fn epoch_day() -> int {
    719163
}

/// The day number of chrono's earliest date, January 1 of `MIN_YEAR`.
pub open spec fn min_day() -> int {
    crate::data::date::day_number(crate::data::date::MIN_YEAR as int, 1, 1)
}

/// `DateTime::from_timestamp(ts, ns)` accepts the instant: its UTC day lies within
/// chrono's dates, and nanoseconds of 1e9 or more (a leap second) come only in the
/// last second of a minute.
pub open spec fn instant_ok(ts: int, ns: int) -> bool {
    &&& 0 <= ns < 2_000_000_000
    &&& (ns >= 1_000_000_000 ==> ts % 60 == 59)
    &&& min_day() <= epoch_day() + ts / 86400 <= crate::data::date::max_date().dn()
}

impl ManilaDateTime {
    /// The local date and time are the instant shifted by eight hours; the instant is
    /// one that chrono represents (see `instant_ok`).
    pub open spec fn wf(self) -> bool {
        &&& self.date.wf()
        &&& self.time.wf()
        &&& self.nanos < 2_000_000_000
        &&& (self.date.dn() - epoch_day()) * 86400 + self.time.secs() == self.timestamp + 28800
        &&& instant_ok(self.timestamp as int, self.nanos as int)
    }

    /// The instant as a single number, in the order of time.
    pub open spec fn instant(self) -> int {
        self.timestamp * 2_000_000_000 + self.nanos
    }
}

/// What `DateTime::parse_from_rfc3339(s)` gives, seen in UTC+8.
pub uninterp spec fn chrono_rfc3339_manila(s: Seq<char>) -> Option<ManilaDateTime>;

/// Calls `chrono::DateTime::parse_from_rfc3339` and `with_timezone` to UTC+8. The
/// contract says that the result is the named outcome for `s` and, as chrono
/// documents, that the local date and time are the instant shifted by the offset,
/// that sub-second nanoseconds stay below 2e9 and exceed 1e9 only in a leap second
/// after second 59, and that the instant lies within chrono's dates; which texts
/// parse is not stated.
#[verifier::external_body]
fn parse_rfc3339_manila(s: &str) -> (r: Option<ManilaDateTime>)
    ensures
        r == chrono_rfc3339_manila(s@),
        r matches Some(m) ==> m.wf(),
{
    let m = chrono::DateTime::parse_from_rfc3339(s).ok()?.with_timezone(&chrono::FixedOffset::east_opt(8 * 3600).unwrap());
    Some(ManilaDateTime {
        timestamp: m.timestamp(),
        nanos: m.timestamp_subsec_nanos(),
        date: Date { year: m.year(), month: m.month(), day: m.day() },
        time: Time { hour: m.hour(), minute: m.minute(), second: m.second() },
    })
}

/// `n` written with at least `w` decimal digits, zero-padded on the left.
pub open spec fn padded(n: nat, w: nat) -> Seq<char> {
    let t = nat_text(n);
    if t.len() >= w {
        t
    } else {
        Seq::new((w - t.len()) as nat, |i: int| '0') + t
    }
}

/// A year as RFC 3339 text writes it: four digits for the years 0 to 9999, otherwise
/// a sign and at least four digits.
pub open spec fn year_text(y: int) -> Seq<char> {
    if 0 <= y <= 9999 {
        padded(y as nat, 4)
    } else if y < 0 {
        seq!['-'] + padded((-y) as nat, 4)
    } else {
        seq!['+'] + padded(y as nat, 4)
    }
}

/// The fraction of a second in RFC 3339 text: nothing for a whole second, else the
/// shortest of three, six or nine digits that is exact.
pub open spec fn fraction_text(nano: int) -> Seq<char> {
    if nano == 0 {
        seq![]
    } else if nano % 1_000_000 == 0 {
        seq!['.'] + padded((nano / 1_000_000) as nat, 3)
    } else if nano % 1000 == 0 {
        seq!['.'] + padded((nano / 1000) as nat, 6)
    } else {
        seq!['.'] + padded(nano as nat, 9)
    }
}

/// The RFC 3339 text of a Manila date and time: `YYYY-MM-DDTHH:MM:SS`, a fraction
/// when there is one, and `+08:00`; a leap second is written as second 60.
pub open spec fn rfc3339_text(m: ManilaDateTime) -> Seq<char> {
    let leap = m.nanos >= 1_000_000_000;
    let sec = m.time.second + if leap { 1int } else { 0int };
    let nano = if leap { m.nanos - 1_000_000_000 } else { m.nanos as int };
    year_text(m.date.year as int) + seq!['-'] + two_digits(m.date.month as int) + seq!['-']
        + two_digits(m.date.day as int) + seq!['T'] + two_digits(m.time.hour as int) + seq![':']
        + two_digits(m.time.minute as int) + seq![':'] + two_digits(sec) + fraction_text(nano)
        + "+08:00"@
}

/// Calls `chrono::DateTime::from_timestamp`, `with_timezone` to UTC+8 and
/// `to_rfc3339`. The contract states the text chrono's `write_rfc3339` writes with
/// `SecondsFormat::AutoSi` and a `+08:00` offset; for a valid Manila date and time
/// chrono's local date and time are the ones it holds, and `from_timestamp` accepts
/// the instant (see `instant_ok`).
#[verifier::external_body]
fn rfc3339_in_manila(m: &ManilaDateTime) -> (r: String)
    requires
        m.wf(),
    ensures
        r@ == rfc3339_text(*m),
{
    let utc = chrono::DateTime::from_timestamp(m.timestamp, m.nanos).expect("an instant chrono represents");
    utc.with_timezone(&chrono::FixedOffset::east_opt(8 * 3600).unwrap()).to_rfc3339()
}

impl ManilaDateTime {
    /// The RFC 3339 text of the instant in UTC+8, such as
    /// `2026-08-10T20:00:00+08:00` (see `rfc3339_text`).
    pub fn to_rfc3339(&self) -> (r: String)
        requires
            self.wf(),
        ensures
            r@ == rfc3339_text(*self),
    {
        rfc3339_in_manila(self)
    }
}

/// A number below 100 written with two decimal digits, as `%m` and `%d` write
/// months and days.
pub open spec fn two_digits(n: int) -> Seq<char> {
    seq![(('0' as u32) + n / 10) as char, (('0' as u32) + n % 10) as char]
}

fn digit_char(d: u32) -> (c: char)
    requires
        d < 10,
    ensures
        c == (('0' as u32) + d) as char,
{
    let c = match d {
        0 => '0',
        1 => '1',
        2 => '2',
        3 => '3',
        4 => '4',
        5 => '5',
        6 => '6',
        7 => '7',
        8 => '8',
        _ => '9',
    };
    assert(c as u32 == ('0' as u32) + d);
    c
}

impl ManilaDateTime {
    /// The local month and day written `%m-%d`, such as `08-15`.
    pub fn month_day(&self) -> (r: String)
        requires
            self.wf(),
        ensures
            r@ == two_digits(self.date.month as int) + seq!['-'] + two_digits(self.date.day as int),
    {
        let m = self.date.month;
        let d = self.date.day;
        let v = vec![digit_char(m / 10), digit_char(m % 10), '-', digit_char(d / 10), digit_char(d % 10)];
        assert(v@ =~= two_digits(m as int) + seq!['-'] + two_digits(d as int));
        string_of(&v)
    }
}

/// An assignment that is due.
#[derive(Debug, Clone)]
pub struct Deadline {
    pub id: String,
    pub course: String,
    pub title: String,
    pub due: ManilaDateTime,
    pub submitted: bool,
    pub submission_state: String,
}

pub struct DeadlineView {
    pub id: Seq<char>,
    pub course: Seq<char>,
    pub title: Seq<char>,
    pub due: ManilaDateTime,
    pub submitted: bool,
    pub submission_state: Seq<char>,
}

impl View for Deadline {
    type V = DeadlineView;

    open spec fn view(&self) -> DeadlineView {
        DeadlineView {
            id: self.id@,
            course: self.course@,
            title: self.title@,
            due: self.due,
            submitted: self.submitted,
            submission_state: self.submission_state@,
        }
    }
}

pub open spec fn deadline_key(d: DeadlineView) -> int {
    d.due.instant()
}

impl SortKey for Deadline {
    open spec fn key(&self) -> int {
        deadline_key(self@)
    }

    fn sort_key(&self) -> (k: i128) {
        (self.due.timestamp as i128) * 2_000_000_000 + (self.due.nanos as i128)
    }
}

/// An assignment as the classroom export lists it (the points are not needed here).
pub struct RawAssignment {
    pub id: String,
    pub title: String,
    pub due: Option<String>,
    pub submitted: bool,
    pub submission_state: Option<String>,
}

/// A course of the classroom export.
pub struct RawCourse {
    pub name: String,
    pub assignments: Option<Vec<RawAssignment>>,
}

/// The classroom export.
pub struct RawClassroomData {
    pub courses: Option<Vec<RawCourse>>,
}

/// The deadline of an assignment of the course `course`: assignments without a due
/// time, or whose due time is not RFC 3339, have none; a missing submission state
/// reads `assigned`.
pub open spec fn deadline_of(course: Seq<char>, a: RawAssignment) -> Option<DeadlineView> {
    match a.due {
        None => None,
        Some(due) => match chrono_rfc3339_manila(due@) {
            None => None,
            Some(m) => Some(
                DeadlineView {
                    id: a.id@,
                    course,
                    title: a.title@,
                    due: m,
                    submitted: a.submitted,
                    submission_state: match a.submission_state {
                        Some(s) => s@,
                        None => "assigned"@,
                    },
                },
            ),
        },
    }
}

/// The deadlines of the first `n` assignments of a course, in order.
pub open spec fn course_deadlines(course: Seq<char>, asg: Seq<RawAssignment>, n: int) -> Seq<DeadlineView>
    decreases n,
{
    if n <= 0 || n > asg.len() {
        seq![]
    } else {
        course_deadlines(course, asg, n - 1) + match deadline_of(course, asg[n - 1]) {
            Some(d) => seq![d],
            None => seq![],
        }
    }
}

/// The deadlines of the first `n` courses, in order.
pub open spec fn courses_deadlines(cs: Seq<RawCourse>, n: int) -> Seq<DeadlineView>
    decreases n,
{
    if n <= 0 || n > cs.len() {
        seq![]
    } else {
        courses_deadlines(cs, n - 1) + match cs[n - 1].assignments {
            Some(asg) => course_deadlines(cs[n - 1].name@, asg@, asg@.len() as int),
            None => seq![],
        }
    }
}

/// The deadlines of the classroom export, ordered by due instant (ties keep their
/// export order).
pub open spec fn deadlines_of(data: RawClassroomData) -> Seq<DeadlineView> {
    stable_sorted_by(export_deadlines(data), |d: DeadlineView| deadline_key(d))
}

/// The deadlines of the classroom export, in export order.
pub open spec fn export_deadlines(data: RawClassroomData) -> Seq<DeadlineView> {
    match data.courses {
        Some(cs) => courses_deadlines(cs@, cs@.len() as int),
        None => seq![],
    }
}

pub open spec fn deadlines_view(ds: Seq<Deadline>) -> Seq<DeadlineView> {
    ds.map_values(|d: Deadline| d@)
}

/// The deadlines of the classroom export, in Manila time, ordered by due instant
/// (see `deadlines_of`).
pub fn read_classroom_deadlines(data: &RawClassroomData) -> (r: Vec<Deadline>)
    ensures
        deadlines_view(r@) == deadlines_of(*data),
        forall|i: int| 0 <= i < r@.len() ==> (#[trigger] r@[i]).due.wf(),
        crate::data::sort::keys_sorted(r@, |d: Deadline| d.key()),
{
    let mut out: Vec<Deadline> = Vec::new();
    let ghost all = export_deadlines(*data);
    match &data.courses {
        Some(courses) => {
            let mut i: usize = 0;
            while i < courses.len()
                invariant
                    i <= courses@.len(),
                    deadlines_view(out@) == courses_deadlines(courses@, i as int),
                    forall|k: int| 0 <= k < out@.len() ==> (#[trigger] out@[k]).due.wf(),
                decreases courses.len() - i,
            {
                let course = &courses[i];
                let ghost before = out@;
                match &course.assignments {
                    Some(asg) => {
                        let mut j: usize = 0;
                        while j < asg.len()
                            invariant
                                j <= asg@.len(),
                                deadlines_view(out@) == deadlines_view(before) + course_deadlines(
                                    course.name@,
                                    asg@,
                                    j as int,
                                ),
                                forall|k: int| 0 <= k < out@.len() ==> (#[trigger] out@[k]).due.wf(),
                            decreases asg.len() - j,
                        {
                            let a = &asg[j];
                            let ghost mid = out@;
                            match &a.due {
                                Some(due_str) => match parse_rfc3339_manila(due_str.as_str()) {
                                    Some(m) => {
                                        let state = match &a.submission_state {
                                            Some(s) => String::clone(s),
                                            None => "assigned".to_owned(),
                                        };
                                        let d = Deadline {
                                            id: String::clone(&a.id),
                                            course: String::clone(&course.name),
                                            title: String::clone(&a.title),
                                            due: m,
                                            submitted: a.submitted,
                                            submission_state: state,
                                        };
                                        out.push(d);
                                        assert(deadlines_view(out@) =~= deadlines_view(mid) + seq![d@]);
                                    },
                                    None => {
                                        assert(deadlines_view(out@) =~= deadlines_view(mid)
                                            + Seq::<DeadlineView>::empty());
                                    },
                                },
                                None => {
                                    assert(deadlines_view(out@) =~= deadlines_view(mid)
                                        + Seq::<DeadlineView>::empty());
                                },
                            }
                            j = j + 1;
                        }
                        assert(deadlines_view(out@) =~= courses_deadlines(courses@, i + 1));
                    },
                    None => {
                        assert(deadlines_view(out@) =~= courses_deadlines(courses@, i + 1));
                    },
                }
                i = i + 1;
            }
        },
        None => {},
    }
    assert(deadlines_view(out@) == all);
    let ghost unsorted = out@;
    let r = stable_sort(out);
    proof {
        lemma_stable_sorted_map(
            unsorted,
            |x: Deadline| x.key(),
            |x: Deadline| x@,
            |v: DeadlineView| deadline_key(v),
        );
        crate::data::sort::lemma_stable_sorted_elements(unsorted, |x: Deadline| x.key());
        crate::data::sort::lemma_stable_sorted_sorted(unsorted, |x: Deadline| x.key());
        assert forall|k: int| 0 <= k < r@.len() implies (#[trigger] r@[k]).due.wf() by {
            assert(unsorted.contains(r@[k]));
            let j = choose|j: int| 0 <= j < unsorted.len() && unsorted[j] == r@[k];
        }
    }
    r
}

/// The deadlines are those of the export, each once, ordered by due instant.
pub proof fn law_deadlines_order(data: RawClassroomData)
    ensures
        crate::data::sort::keys_sorted(deadlines_of(data), |d: DeadlineView| deadline_key(d)),
        deadlines_of(data).to_multiset() == export_deadlines(data).to_multiset(),
{
    crate::data::sort::lemma_stable_sorted_sorted(export_deadlines(data), |d: DeadlineView| deadline_key(d));
    crate::data::sort::lemma_stable_sorted_permutation(export_deadlines(data), |d: DeadlineView| deadline_key(d));
}

} // verus!
