//! Class schedules in iCalendar form, expanded into dated class blocks.
//!
//! Timestamps such as `20260803T020000Z` are read as UTC and shown in Manila time
//! (UTC+8). Recurrence rules are supported only as `FREQ=WEEKLY` with a `BYDAY` of
//! one day; any other rule keeps the first occurrence alone, marked ` [first only]`.
use icalendar::Component;
use vstd::prelude::*;
use vstd::string::StrSliceExecFns;
use vstd::string::StringSliceAdditionalSpecFns;
use vstd::utf8::{encode_utf8, is_char_boundary};

use crate::data::date::{day_number, max_date, valid_ymd, weekday_of, Date, Time};
use crate::data::github::parse_error;
use crate::data::sort::{lemma_stable_sorted_map, stable_sort, stable_sorted_by, SortKey};
use crate::data::text::{
    chars_of, contains, contains_str, next_char, occurs_at, parse_i32, parse_i32_chars, parse_u32,
    parse_u32_chars, push_str, split, split_from, starts_with, string_of, utf8_len, utf8_len_capped,
};
use crate::data::ReaderError;

verus! {

broadcast use vstd::string::group_string_axioms;

// ---------------------------------------------------------------------------
// Timestamps

/// The end of `s[..j]` once trailing `Z`s are removed.
pub open spec fn z_start(s: Seq<char>, j: int) -> int
    decreases j,
{
    if 0 < j <= s.len() && s[j - 1] == 'Z' {
        z_start(s, j - 1)
    } else {
        j
    }
}

/// `str::trim_end_matches('Z')`.
pub open spec fn trim_z(s: Seq<char>) -> Seq<char> {
    s.subrange(0, z_start(s, s.len() as int))
}

pub open spec fn all_ascii(t: Seq<char>) -> bool {
    forall|i: int| 0 <= i < t.len() ==> (#[trigger] t[i] as u32) < 0x80
}

/// The field `t[lo..hi]` holds ASCII characters only and parses as a `u32`.
pub open spec fn u32_field(t: Seq<char>, lo: int, hi: int) -> bool {
    hi <= t.len() && all_ascii(t.subrange(lo, hi)) && parse_u32(t.subrange(lo, hi)) is Ok
}

/// The field `t[lo..hi]` holds ASCII characters only and parses as an `i32`.
pub open spec fn i32_field(t: Seq<char>, lo: int, hi: int) -> bool {
    hi <= t.len() && all_ascii(t.subrange(lo, hi)) && parse_i32(t.subrange(lo, hi)) is Ok
}

/// Reading a timestamp (of at least 15 bytes) slices its text at byte offsets 4, 6, 8, 9, 11 and 13, each
/// slice only once the fields before it have parsed; every offset sliced at must
/// fall on a character boundary (else the slicing panics).
pub open spec fn stamp_safe(s: Seq<char>) -> bool {
    let t = trim_z(s);
    let b = encode_utf8(t);
    utf8_len(t) < 15 || (is_char_boundary(b, 4) && (i32_field(t, 0, 4) ==> is_char_boundary(b, 6)
        && (u32_field(t, 4, 6) ==> is_char_boundary(b, 8) && (u32_field(t, 6, 8)
        ==> is_char_boundary(b, 9) && is_char_boundary(b, 11) && (u32_field(t, 9, 11)
        ==> is_char_boundary(b, 13))))))
}

/// The fields of a timestamp `YYYYMMDDTHHMM..` (after dropping trailing `Z`s):
/// year, month, day, hour and minute, when the text has at least 15 bytes and each
/// field parses.
pub open spec fn stamp_fields(s: Seq<char>) -> Option<(int, int, int, int, int)> {
    let t = trim_z(s);
    if utf8_len(t) < 15 || !i32_field(t, 0, 4) || !u32_field(t, 4, 6) || !u32_field(
        t,
        6,
        8,
    ) || !u32_field(t, 9, 11) || !u32_field(t, 11, 13) {
        None
    } else {
        Some(
            (
                parse_i32(t.subrange(0, 4)).unwrap(),
                parse_u32(t.subrange(4, 6)).unwrap(),
                parse_u32(t.subrange(6, 8)).unwrap(),
                parse_u32(t.subrange(9, 11)).unwrap(),
                parse_u32(t.subrange(11, 13)).unwrap(),
            ),
        )
    }
}

/// A UTC timestamp seen in Manila (UTC+8): the day number of the local date and the
/// local time (seconds dropped), or nothing when the fields do not parse or name no
/// date.
pub open spec fn ics_stamp(s: Seq<char>) -> Option<(int, Time)> {
    match stamp_fields(s) {
        None => None,
        Some((y, m, d, h, mi)) => if !valid_ymd(y, m, d) {
            None
        } else {
            let total = h * 60 + mi + 480;
            Some(
                (
                    day_number(y, m, d) + (total / 60) / 24,
                    Time { hour: ((total / 60) % 24) as u32, minute: (total % 60) as u32, second: 0 },
                ),
            )
        },
    }
}

fn all_ascii_exec(t: &[char], lo: usize, hi: usize) -> (r: bool)
    requires
        lo <= hi <= t@.len(),
    ensures
        r == all_ascii(t@.subrange(lo as int, hi as int)),
{
    let mut i = lo;
    while i < hi
        invariant
            lo <= i <= hi <= t@.len(),
            forall|k: int| lo <= k < i ==> (t@[k] as u32) < 0x80,
        decreases hi - i,
    {
        if t[i] as u32 >= 0x80 {
            assert(t@.subrange(lo as int, hi as int)[i - lo] == t@[i as int]);
            return false;
        }
        i = i + 1;
    }
    assert forall|k: int| 0 <= k < hi - lo implies (#[trigger] t@.subrange(lo as int, hi as int)[k]
        as u32) < 0x80 by {
        assert(t@.subrange(lo as int, hi as int)[k] == t@[lo + k]);
    }
    true
}

fn u32_field_exec(t: &[char], lo: usize, hi: usize) -> (r: Option<u32>)
    requires
        lo <= hi,
    ensures
        r is Some <==> u32_field(t@, lo as int, hi as int),
        r matches Some(v) ==> parse_u32(t@.subrange(lo as int, hi as int)) == Ok::<
            int,
            crate::data::text::IntErrorKind,
        >(v as int),
{
    if hi > t.len() || !all_ascii_exec(t, lo, hi) {
        return None;
    }
    match parse_u32_chars(t, lo, hi) {
        Ok(v) => Some(v),
        Err(_) => None,
    }
}

fn i32_field_exec(t: &[char], lo: usize, hi: usize) -> (r: Option<i32>)
    requires
        lo <= hi,
    ensures
        r is Some <==> i32_field(t@, lo as int, hi as int),
        r matches Some(v) ==> parse_i32(t@.subrange(lo as int, hi as int)) == Ok::<
            int,
            crate::data::text::IntErrorKind,
        >(v as int),
{
    if hi > t.len() || !all_ascii_exec(t, lo, hi) {
        return None;
    }
    match parse_i32_chars(t, lo, hi) {
        Ok(v) => Some(v),
        Err(_) => None,
    }
}

/// The text of a timestamp without its trailing `Z`s.
fn trim_z_str(s: &str) -> (r: &str)
    ensures
        r@ == trim_z(s@),
{
    let t = chars_of(s);
    let mut j = t.len();
    while j > 0 && t[j - 1] == 'Z'
        invariant
            j <= t@.len(),
            t@ == s@,
            z_start(s@, s@.len() as int) == z_start(s@, j as int),
        decreases j,
    {
        j = j - 1;
    }
    s.substring_char(0, j)
}

/// Whether reading the timestamp `s` stays clear of slicing panics (see `stamp_safe`).
pub fn stamp_is_safe(s: &str) -> (r: bool)
    ensures
        r == stamp_safe(s@),
{
    let ts = trim_z_str(s);
    let t = chars_of(ts);
    assert(t@.subrange(0, t@.len() as int) =~= t@);
    assert(ts.spec_bytes() == encode_utf8(t@));
    if utf8_len_capped(&t, 0, t.len(), 15) < 15 {
        return true;
    }
    if !ts.is_char_boundary(4) {
        return false;
    }
    if i32_field_exec(&t, 0, 4).is_none() {
        return true;
    }
    if !ts.is_char_boundary(6) {
        return false;
    }
    if u32_field_exec(&t, 4, 6).is_none() {
        return true;
    }
    if !ts.is_char_boundary(8) {
        return false;
    }
    if u32_field_exec(&t, 6, 8).is_none() {
        return true;
    }
    if !ts.is_char_boundary(9) || !ts.is_char_boundary(11) {
        return false;
    }
    if u32_field_exec(&t, 9, 11).is_none() {
        return true;
    }
    ts.is_char_boundary(13)
}

/// Reads a UTC timestamp such as `20260803T020000Z` as a Manila (UTC+8) date and
/// time, rolling over to the next day past midnight (see `ics_stamp`).
pub fn parse_ics_datetime_utc8(s: &str) -> (r: Option<(Date, Time)>)
    requires
        stamp_safe(s@),
    ensures
        match ics_stamp(s@) {
            Some((n, t)) => r matches Some((d, rt)) && d.wf() && d.dn() == n && rt == t && t.wf(),
            None => r is None,
        },
{
    let ts = trim_z_str(s);
    let t = chars_of(ts);
    assert(t@.subrange(0, t@.len() as int) =~= t@);
    if utf8_len_capped(&t, 0, t.len(), 15) < 15 {
        return None;
    }
    let year = match i32_field_exec(&t, 0, 4) {
        Some(v) => v,
        None => {
            return None;
        },
    };
    let month = match u32_field_exec(&t, 4, 6) {
        Some(v) => v,
        None => {
            return None;
        },
    };
    let day = match u32_field_exec(&t, 6, 8) {
        Some(v) => v,
        None => {
            return None;
        },
    };
    let hour = match u32_field_exec(&t, 9, 11) {
        Some(v) => v,
        None => {
            return None;
        },
    };
    let min = match u32_field_exec(&t, 11, 13) {
        Some(v) => v,
        None => {
            return None;
        },
    };
    proof {
        lemma_two_digit_field(t@, 4);
        lemma_two_digit_field(t@, 9);
        lemma_two_digit_field(t@, 11);
        lemma_four_char_year(t@);
    }
    let date = match Date::from_ymd_opt(year, month, day) {
        Some(d) => d,
        None => {
            return None;
        },
    };
    let total_mins: u32 = hour * 60 + min + 8 * 60;
    let manila_hour = (total_mins / 60) % 24;
    let extra_days = (total_mins / 60) / 24;
    let time = Time { hour: manila_hour, minute: total_mins % 60, second: 0 };
    proof {
        crate::data::date::lemma_dn_bounds(date);
        crate::data::date::lemma_dn_le_max(date);
        assert(extra_days <= 4);
        lemma_far_from_max(date);
    }
    match date.add_days(extra_days) {
        Some(d) => Some((d, time)),
        None => None,
    }
}

/// A field of two ASCII characters that parses as a `u32` is below 100.
proof fn lemma_two_digit_field(t: Seq<char>, lo: int)
    requires
        0 <= lo,
        u32_field(t, lo, lo + 2),
    ensures
        parse_u32(t.subrange(lo, lo + 2)).unwrap() < 100,
{
    let f = t.subrange(lo, lo + 2);
    crate::data::text::lemma_parse_u32_small(f);
}

/// A year of four characters lies within `-999 ..= 9999`.
proof fn lemma_four_char_year(t: Seq<char>)
    requires
        i32_field(t, 0, 4),
    ensures
        -999 <= parse_i32(t.subrange(0, 4)).unwrap() <= 9999,
{
    crate::data::text::lemma_parse_i32_small(t.subrange(0, 4));
}

/// A date of a year up to 9999 lies more than a week before the last representable
/// date.
proof fn lemma_far_from_max(d: Date)
    requires
        d.wf(),
        d.year <= 9999,
    ensures
        d.dn() + 7 <= max_date().dn(),
{
    crate::data::date::lemma_dn_le_max(d);
    crate::data::date::lemma_year_window(d);
}

// ---------------------------------------------------------------------------
// Recurrence rules

/// The value of `key` in a rule such as `FREQ=WEEKLY;BYDAY=MO`, looking at the
/// `;`-separated parts from position `i` on: the first part that starts with `key`
/// directly followed by `=` gives the text after the `=`.
pub open spec fn rule_field_from(r: Seq<char>, key: Seq<char>, i: int) -> Option<Seq<char>>
    decreases r.len() + 1 - i,
{
    if i < 0 || i > r.len() {
        None
    } else {
        let j = next_char(r, ';', i);
        if occurs_at(r, i, key) && i + key.len() < j && r[i + key.len()] == '=' {
            Some(r.subrange(i + key.len() + 1, j))
        } else if j < r.len() {
            proof {
                crate::data::text::lemma_next_char(r, ';', i);
            }
            rule_field_from(r, key, j + 1)
        } else {
            None
        }
    }
}

/// The value of `key` in a recurrence rule (see `rule_field_from`).
pub open spec fn rule_field(r: Seq<char>, key: Seq<char>) -> Option<Seq<char>> {
    rule_field_from(r, key, 0)
}

/// Extracts the value of a field from a recurrence rule, such as `MO` for `BYDAY`
/// in `FREQ=WEEKLY;BYDAY=MO;UNTIL=20261207T155959Z` (see `rule_field`).
pub fn rrule_field<'a>(rrule: &'a str, key: &str) -> (r: Option<&'a str>)
    ensures
        match rule_field(rrule@, key@) {
            Some(v) => r matches Some(x) && x@ == v,
            None => r is None,
        },
{
    let t = chars_of(rrule);
    let k = chars_of(key);
    let mut i: usize = 0;
    while i <= t.len()
        invariant
            i <= t@.len() + 1,
            t@ == rrule@,
            k@ == key@,
            rule_field(rrule@, key@) == rule_field_from(rrule@, key@, i as int),
        decreases t.len() + 1 - i,
    {
        let mut j = i;
        while j < t.len() && t[j] != ';'
            invariant
                i <= j <= t@.len(),
                next_char(t@, ';', i as int) == next_char(t@, ';', j as int),
            decreases t.len() - j,
        {
            j = j + 1;
        }
        proof {
            crate::data::text::lemma_next_char(t@, ';', i as int);
        }
        if crate::data::text::matches_at(&t, i, &k) && k.len() < j - i && t[i + k.len()] == '=' {
            return Some(rrule.substring_char(i + k.len() + 1, j));
        }
        if j >= t.len() {
            return None;
        }
        i = j + 1;
    }
    None
}

/// The weekday (Monday = 0 .. Sunday = 6) a `BYDAY` value names.
pub open spec fn byday_of(s: Seq<char>) -> Option<int> {
    if s == seq!['M', 'O'] {
        Some(0)
    } else if s == seq!['T', 'U'] {
        Some(1)
    } else if s == seq!['W', 'E'] {
        Some(2)
    } else if s == seq!['T', 'H'] {
        Some(3)
    } else if s == seq!['F', 'R'] {
        Some(4)
    } else if s == seq!['S', 'A'] {
        Some(5)
    } else if s == seq!['S', 'U'] {
        Some(6)
    } else {
        None
    }
}

fn two_chars(t: &[char], a: char, b: char) -> (r: bool)
    ensures
        r == (t@ == seq![a, b]),
{
    if t.len() == 2 && t[0] == a && t[1] == b {
        assert(t@ =~= seq![a, b]);
        true
    } else {
        false
    }
}

/// The weekday (Monday = 0) a `BYDAY` value names (see `byday_of`).
pub fn parse_byday(s: &str) -> (r: Option<u32>)
    ensures
        match byday_of(s@) {
            Some(w) => r == Some(w as u32),
            None => r is None,
        },
{
    let t = chars_of(s);
    if two_chars(&t, 'M', 'O') {
        Some(0)
    } else if two_chars(&t, 'T', 'U') {
        Some(1)
    } else if two_chars(&t, 'W', 'E') {
        Some(2)
    } else if two_chars(&t, 'T', 'H') {
        Some(3)
    } else if two_chars(&t, 'F', 'R') {
        Some(4)
    } else if two_chars(&t, 'S', 'A') {
        Some(5)
    } else if two_chars(&t, 'S', 'U') {
        Some(6)
    } else {
        None
    }
}

// ---------------------------------------------------------------------------
// Events and class blocks

/// An event of a calendar: its summary, location, start, end and recurrence rule,
/// each when the event has it.
pub struct IcsEvent {
    pub summary: Option<String>,
    pub location: Option<String>,
    pub dtstart: Option<String>,
    pub dtend: Option<String>,
    pub rrule: Option<String>,
}

pub struct IcsEventView {
    pub summary: Option<Seq<char>>,
    pub location: Option<Seq<char>>,
    pub dtstart: Option<Seq<char>>,
    pub dtend: Option<Seq<char>>,
    pub rrule: Option<Seq<char>>,
}

pub open spec fn opt_view(o: Option<String>) -> Option<Seq<char>> {
    match o {
        Some(s) => Some(s@),
        None => None,
    }
}

impl View for IcsEvent {
    type V = IcsEventView;

    open spec fn view(&self) -> IcsEventView {
        IcsEventView {
            summary: opt_view(self.summary),
            location: opt_view(self.location),
            dtstart: opt_view(self.dtstart),
            dtend: opt_view(self.dtend),
            rrule: opt_view(self.rrule),
        }
    }
}

/// One occurrence of a class.
#[derive(Debug, Clone)]
pub struct ClassBlock {
    pub date: Date,
    /// Start time in Manila time (UTC+8 already applied).
    pub start_time: Time,
    /// End time in Manila time (UTC+8 already applied).
    pub end_time: Time,
    pub summary: String,
    pub location: String,
}

pub struct ClassBlockView {
    pub dn: int,
    pub start_time: Time,
    pub end_time: Time,
    pub summary: Seq<char>,
    pub location: Seq<char>,
}

impl View for ClassBlock {
    type V = ClassBlockView;

    open spec fn view(&self) -> ClassBlockView {
        ClassBlockView {
            dn: self.date.dn(),
            start_time: self.start_time,
            end_time: self.end_time,
            summary: self.summary@,
            location: self.location@,
        }
    }
}

/// Blocks are ordered by date, then by start time.
pub open spec fn block_key(b: ClassBlockView) -> int {
    b.dn * 86400 + b.start_time.secs()
}

impl SortKey for ClassBlock {
    open spec fn key(&self) -> int {
        block_key(self@)
    }

    fn sort_key(&self) -> (k: i128) {
        let d = self.date.dn_wide();
        proof {
            crate::data::date::lemma_dn_wide_bounds(self.date);
        }
        d * 86400 + (self.start_time.hour as i128) * 3600 + (self.start_time.minute as i128) * 60
            + (self.start_time.second as i128)
    }
}

impl ClassBlock {
    pub open spec fn wf(&self) -> bool {
        self.date.wf() && self.start_time.wf() && self.end_time.wf()
    }
}

pub open spec fn or_empty(o: Option<Seq<char>>) -> Seq<char> {
    match o {
        Some(s) => s,
        None => seq![],
    }
}

pub open spec fn block(dn: int, st: Time, et: Time, summary: Seq<char>, location: Seq<char>) -> ClassBlockView {
    ClassBlockView { dn, start_time: st, end_time: et, summary, location }
}

/// The days `cur`, `cur + 7`, ... up to `until` that are not before `from` and fall on
/// the weekday `wd` (any weekday when there is none).
#[verifier::opaque]
pub open spec fn weekly_days(cur: int, until: int, from: int, wd: Option<int>) -> Seq<int>
    decreases until + 7 - cur,
{
    if cur > until {
        seq![]
    } else {
        (if cur >= from && (wd is None || weekday_of(cur) == wd.unwrap()) {
            seq![cur]
        } else {
            seq![]
        }) + weekly_days(cur + 7, until, from, wd)
    }
}

/// Stepping a week at a time from `cur` while not past `until` never leaves the
/// representable dates.
#[verifier::opaque]
pub open spec fn walk_fits(cur: int, until: int) -> bool
    decreases until + 7 - cur,
{
    cur > until || (cur + 7 <= max_date().dn() && walk_fits(cur + 7, until))
}

/// The blocks of a class held on the days `ds`.
pub open spec fn week_blocks(ds: Seq<int>, st: Time, et: Time, summary: Seq<char>, location: Seq<char>) -> Seq<ClassBlockView>
    decreases ds.len(),
{
    if ds.len() == 0 {
        seq![]
    } else {
        week_blocks(ds.drop_last(), st, et, summary, location).push(
            block(ds.last(), st, et, summary, location),
        )
    }
}

pub open spec fn first_only_mark() -> Seq<char> {
    " [first only]"@
}

/// The day (number) up to which a weekly rule repeats: its `UNTIL` date when that
/// parses and is earlier than `to`, else `to`.
pub open spec fn repeat_until(rule: Seq<char>, to: int) -> int {
    match rule_field(rule, "UNTIL"@) {
        Some(u) => match ics_stamp(u) {
            Some((d, _)) => if d < to {
                d
            } else {
                to
            },
            None => to,
        },
        None => to,
    }
}

/// The weekday (Monday = 0) a recurrence rule repeats on: the `BYDAY` day of a
/// `FREQ=WEEKLY` rule whose `BYDAY` names a single day; `None` for any other rule
/// (no `FREQ=WEEKLY`, no `BYDAY`, or a `BYDAY` such as `MO,WE`).
pub open spec fn weekly_day(rule: Seq<char>) -> Option<int> {
    if contains(rule, "FREQ=WEEKLY"@) {
        match rule_field(rule, "BYDAY"@) {
            Some(b) => byday_of(b),
            None => None,
        }
    } else {
        None
    }
}

/// The class blocks an event gives within the days `from ..= to`: none when its start
/// does not parse; a one-off event gives its start day; a weekly rule on one `BYDAY`
/// day (see `weekly_day`) gives every week from the start up to `repeat_until` that
/// falls on that day; any other rule gives the start day alone, marked
/// ` [first only]`. The end time defaults to the start time.
pub open spec fn event_blocks(e: IcsEventView, from: int, to: int) -> Seq<ClassBlockView> {
    let summary = or_empty(e.summary);
    let location = or_empty(e.location);
    match ics_stamp(or_empty(e.dtstart)) {
        None => seq![],
        Some((sd, st)) => {
            let et = match ics_stamp(or_empty(e.dtend)) {
                Some((_, t)) => t,
                None => st,
            };
            let rule = or_empty(e.rrule);
            if rule.len() == 0 {
                if from <= sd <= to {
                    seq![block(sd, st, et, summary, location)]
                } else {
                    seq![]
                }
            } else {
                match weekly_day(rule) {
                    None => if from <= sd <= to {
                        seq![block(sd, st, et, summary + first_only_mark(), location)]
                    } else {
                        seq![]
                    },
                    Some(w) => week_blocks(
                        weekly_days(sd, repeat_until(rule, to), from, Some(w)),
                        st,
                        et,
                        summary,
                        location,
                    ),
                }
            }
        },
    }
}

/// Expanding the event never panics: its timestamps are safe to read, and a weekly
/// walk stays within the representable dates.
pub open spec fn event_safe(e: IcsEventView, to: int) -> bool {
    let rule = or_empty(e.rrule);
    &&& stamp_safe(or_empty(e.dtstart))
    &&& ics_stamp(or_empty(e.dtstart)) matches Some((sd, _)) ==> {
        &&& stamp_safe(or_empty(e.dtend))
        &&& rule.len() > 0 ==> {
            &&& rule_field(rule, "UNTIL"@) matches Some(u) ==> stamp_safe(u)
            &&& weekly_day(rule) is Some ==> walk_fits(
                sd,
                repeat_until(rule, to),
            )
        }
    }
}

/// The blocks of a calendar's events, in event order.
pub open spec fn events_blocks(es: Seq<Option<IcsEventView>>, from: int, to: int) -> Seq<ClassBlockView>
    decreases es.len(),
{
    if es.len() == 0 {
        seq![]
    } else {
        events_blocks(es.drop_last(), from, to) + match es.last() {
            Some(e) => event_blocks(e, from, to),
            None => seq![],
        }
    }
}

/// The class blocks of a calendar within `from ..= to`, ordered by date and start
/// time (blocks that tie keep their event order).
pub open spec fn schedule_of(es: Seq<Option<IcsEventView>>, from: int, to: int) -> Seq<ClassBlockView> {
    stable_sorted_by(events_blocks(es, from, to), |b: ClassBlockView| block_key(b))
}

pub open spec fn events_view(es: Seq<Option<IcsEvent>>) -> Seq<Option<IcsEventView>> {
    es.map_values(
        |o: Option<IcsEvent>|
            match o {
                Some(e) => Some(e@),
                None => None,
            },
    )
}

pub open spec fn blocks_view(bs: Seq<ClassBlock>) -> Seq<ClassBlockView> {
    bs.map_values(|b: ClassBlock| b@)
}

fn opt_str(o: &Option<String>) -> (r: &str)
    ensures
        r@ == or_empty(opt_view(*o)),
{
    proof {
        reveal_strlit("");
    }
    match o {
        Some(s) => s.as_str(),
        None => "",
    }
}

/// Appends the blocks of one event (see `event_blocks`).
fn push_event_blocks(e: &IcsEvent, from: Date, to: Date, out: &mut Vec<ClassBlock>)
    requires
        from.wf(),
        to.wf(),
        event_safe(e@, to.dn()),
        forall|i: int| 0 <= i < old(out)@.len() ==> (#[trigger] old(out)@[i]).wf(),
    ensures
        blocks_view(final(out)@) == blocks_view(old(out)@) + event_blocks(e@, from.dn(), to.dn()),
        forall|i: int| 0 <= i < final(out)@.len() ==> (#[trigger] final(out)@[i]).wf(),
{
    let ghost base = out@;
    let summary = opt_str(&e.summary);
    let location = opt_str(&e.location);
    let dtstart = opt_str(&e.dtstart);
    let (start_date, start_time) = match parse_ics_datetime_utc8(dtstart) {
        Some(x) => x,
        None => {
            assert(blocks_view(out@) =~= blocks_view(base) + Seq::<ClassBlockView>::empty());
            return;
        },
    };
    let dtend = opt_str(&e.dtend);
    let end_time = match parse_ics_datetime_utc8(dtend) {
        Some((_, t)) => t,
        None => start_time,
    };
    let rule = opt_str(&e.rrule);
    let rc = chars_of(rule);
    if rc.len() == 0 {
        if from.le(&start_date) && start_date.le(&to) {
            let b = ClassBlock {
                date: start_date,
                start_time,
                end_time,
                summary: str::to_owned(summary),
                location: str::to_owned(location),
            };
            out.push(b);
            assert(blocks_view(out@) =~= blocks_view(base) + seq![b@]);
        } else {
            assert(blocks_view(out@) =~= blocks_view(base) + Seq::<ClassBlockView>::empty());
        }
        return;
    }
    let byday = rrule_field(rule, "BYDAY");
    let until = match rrule_field(rule, "UNTIL") {
        Some(u) => match parse_ics_datetime_utc8(u) {
            Some((d, _)) => Some(d),
            None => None,
        },
        None => None,
    };
    let weekly = contains_str(&rc, "FREQ=WEEKLY");
    let target = match byday {
        Some(b) => parse_byday(b),
        None => None,
    };
    if !weekly || target.is_none() {
        if from.le(&start_date) && start_date.le(&to) {
            let mut marked: Vec<char> = chars_of(summary);
            push_str(&mut marked, " [first only]");
            let b = ClassBlock {
                date: start_date,
                start_time,
                end_time,
                summary: string_of(&marked),
                location: str::to_owned(location),
            };
            out.push(b);
            assert(blocks_view(out@) =~= blocks_view(base) + seq![b@]);
        } else {
            assert(blocks_view(out@) =~= blocks_view(base) + Seq::<ClassBlockView>::empty());
        }
        return;
    }
    let eff = match until {
        Some(u) => if u.le(&to) && !to.le(&u) {
            u
        } else {
            to
        },
        None => to,
    };
    let ghost eff_dn = repeat_until(rule@, to.dn());
    assert(eff.dn() == eff_dn);
    let ghost wd = weekly_day(rule@);
    push_weekly(start_date, eff, from, target, start_time, end_time, summary, location, out, Ghost(wd));
}

proof fn lemma_week_blocks_concat(a: Seq<int>, b: Seq<int>, st: Time, et: Time, s: Seq<char>, l: Seq<char>)
    ensures
        week_blocks(a + b, st, et, s, l) == week_blocks(a, st, et, s, l) + week_blocks(b, st, et, s, l),
    decreases b.len(),
{
    if b.len() == 0 {
        assert(a + b =~= a);
        assert(week_blocks(a, st, et, s, l) + week_blocks(b, st, et, s, l) =~= week_blocks(a, st, et, s, l));
    } else {
        lemma_week_blocks_concat(a, b.drop_last(), st, et, s, l);
        assert((a + b).drop_last() =~= a + b.drop_last());
        assert((a + b).last() == b.last());
    }
}

/// A day on the walk: it is kept or not, then the walk goes on a week later.
pub proof fn lemma_weekly_step(c: int, u: int, f: int, wd: Option<int>)
    requires
        c <= u,
    ensures
        weekly_days(c, u, f, wd) == (if c >= f && (wd is None || weekday_of(c) == wd.unwrap()) {
            seq![c]
        } else {
            Seq::<int>::empty()
        }) + weekly_days(c + 7, u, f, wd),
{
    reveal(weekly_days);
}

pub proof fn lemma_weekly_end(c: int, u: int, f: int, wd: Option<int>)
    requires
        c > u,
    ensures
        weekly_days(c, u, f, wd) == Seq::<int>::empty(),
{
    reveal(weekly_days);
}

pub proof fn lemma_walk_step(c: int, u: int)
    requires
        c <= u,
        walk_fits(c, u),
    ensures
        c + 7 <= max_date().dn(),
        walk_fits(c + 7, u),
{
    reveal(walk_fits);
}

/// Appends the block of `d` when `hit` holds.
fn push_block_if(hit: bool, d: &Date, st: Time, et: Time, summary: &str, location: &str, out: &mut Vec<ClassBlock>)
    requires
        d.wf(),
        st.wf(),
        et.wf(),
        forall|i: int| 0 <= i < old(out)@.len() ==> (#[trigger] old(out)@[i]).wf(),
    ensures
        blocks_view(final(out)@) == blocks_view(old(out)@) + week_blocks(
            if hit {
                seq![d.dn()]
            } else {
                Seq::<int>::empty()
            },
            st,
            et,
            summary@,
            location@,
        ),
        forall|i: int| 0 <= i < final(out)@.len() ==> (#[trigger] final(out)@[i]).wf(),
{
    let ghost base = out@;
    let ghost here: Seq<int> = if hit {
        seq![d.dn()]
    } else {
        seq![]
    };
    if hit {
        let b = ClassBlock {
            date: *d,
            start_time: st,
            end_time: et,
            summary: str::to_owned(summary),
            location: str::to_owned(location),
        };
        out.push(b);
        proof {
            assert(blocks_view(out@) =~= blocks_view(base).push(b@));
            assert(here.drop_last() =~= Seq::<int>::empty());
            reveal_with_fuel(week_blocks, 2);
            assert(week_blocks(here, st, et, summary@, location@) == seq![b@]);
            assert(blocks_view(out@) =~= blocks_view(base) + week_blocks(here, st, et, summary@, location@));
        }
    } else {
        proof {
            assert(blocks_view(out@) =~= blocks_view(base) + week_blocks(here, st, et, summary@, location@));
        }
    }
}

/// `d` falls on the weekday `target` (Monday = 0), or there is none.
fn on_weekday(d: &Date, target: Option<u32>) -> (r: bool)
    requires
        d.wf(),
    ensures
        r == (target is None || weekday_of(d.dn()) == target.unwrap()),
{
    match target {
        Some(w) => d.weekday() == w,
        None => true,
    }
}

/// Appends a block for every week from `cur` up to `until` (see `weekly_days`).
fn push_weekly(
    cur: Date,
    until: Date,
    from: Date,
    target: Option<u32>,
    st: Time,
    et: Time,
    summary: &str,
    location: &str,
    out: &mut Vec<ClassBlock>,
    Ghost(wd): Ghost<Option<int>>,
)
    requires
        cur.wf(),
        until.wf(),
        from.wf(),
        st.wf(),
        et.wf(),
        walk_fits(cur.dn(), until.dn()),
        match wd {
            Some(w) => 0 <= w < 7 && target == Some(w as u32),
            None => target is None,
        },
        forall|i: int| 0 <= i < old(out)@.len() ==> (#[trigger] old(out)@[i]).wf(),
    ensures
        blocks_view(final(out)@) == blocks_view(old(out)@) + week_blocks(
            weekly_days(cur.dn(), until.dn(), from.dn(), wd),
            st,
            et,
            summary@,
            location@,
        ),
        forall|i: int| 0 <= i < final(out)@.len() ==> (#[trigger] final(out)@[i]).wf(),
    decreases until.dn() + 7 - cur.dn(),
{
    let ghost base = out@;
    let ghost c = cur.dn();
    if !cur.le(&until) {
        proof {
            lemma_weekly_end(c, until.dn(), from.dn(), wd);
        }
        assert(blocks_view(out@) =~= blocks_view(base) + Seq::<ClassBlockView>::empty());
        return;
    }
    proof {
        lemma_walk_step(c, until.dn());
        lemma_weekly_step(c, until.dn(), from.dn(), wd);
    }
    let hit = from.le(&cur) && on_weekday(&cur, target);
    let ghost here: Seq<int> = if hit {
        seq![c]
    } else {
        seq![]
    };
    push_block_if(hit, &cur, st, et, summary, location, out);
    let next = match cur.add_days(7) {
        Some(n) => n,
        None => {
            proof {
                assert(false);
            }
            return;
        },
    };
    let ghost mid = out@;
    push_weekly(next, until, from, target, st, et, summary, location, out, Ghost(wd));
    proof {
        assert(here + weekly_days(c + 7, until.dn(), from.dn(), wd) == weekly_days(
            c,
            until.dn(),
            from.dn(),
            wd,
        ));
        lemma_blocks_combine(
            blocks_view(base),
            blocks_view(mid),
            blocks_view(out@),
            here,
            weekly_days(c + 7, until.dn(), from.dn(), wd),
            st,
            et,
            summary@,
            location@,
        );
    }
}

proof fn lemma_blocks_combine(
    base: Seq<ClassBlockView>,
    mid: Seq<ClassBlockView>,
    fin: Seq<ClassBlockView>,
    here: Seq<int>,
    rest: Seq<int>,
    st: Time,
    et: Time,
    s: Seq<char>,
    l: Seq<char>,
)
    requires
        mid == base + week_blocks(here, st, et, s, l),
        fin == mid + week_blocks(rest, st, et, s, l),
    ensures
        fin == base + week_blocks(here + rest, st, et, s, l),
{
    lemma_week_blocks_concat(here, rest, st, et, s, l);
    assert(fin =~= base + (week_blocks(here, st, et, s, l) + week_blocks(rest, st, et, s, l)));
}

// ---------------------------------------------------------------------------
// Expanding a calendar

/// Whether expanding the event stays clear of panics (see `event_safe`).
pub fn event_is_safe(e: &IcsEvent, to: Date) -> (r: bool)
    requires
        to.wf(),
    ensures
        r == event_safe(e@, to.dn()),
{
    let dtstart = opt_str(&e.dtstart);
    if !stamp_is_safe(dtstart) {
        return false;
    }
    let (start_date, _) = match parse_ics_datetime_utc8(dtstart) {
        Some(x) => x,
        None => {
            return true;
        },
    };
    if !stamp_is_safe(opt_str(&e.dtend)) {
        return false;
    }
    let rule = opt_str(&e.rrule);
    let rc = chars_of(rule);
    if rc.len() == 0 {
        return true;
    }
    let until = match rrule_field(rule, "UNTIL") {
        Some(u) => {
            if !stamp_is_safe(u) {
                return false;
            }
            match parse_ics_datetime_utc8(u) {
                Some((d, _)) => Some(d),
                None => None,
            }
        },
        None => None,
    };
    let target = match rrule_field(rule, "BYDAY") {
        Some(b) => parse_byday(b),
        None => None,
    };
    if !contains_str(&rc, "FREQ=WEEKLY") || target.is_none() {
        return true;
    }
    let eff = match until {
        Some(u) => if u.le(&to) && !to.le(&u) {
            u
        } else {
            to
        },
        None => to,
    };
    assert(eff.dn() == repeat_until(rule@, to.dn()));
    walk_fits_exec(start_date, eff)
}

/// Whether a weekly walk from `cur` up to `until` stays within the representable
/// dates (see `walk_fits`).
fn walk_fits_exec(cur: Date, until: Date) -> (r: bool)
    requires
        cur.wf(),
        until.wf(),
    ensures
        r == walk_fits(cur.dn(), until.dn()),
    decreases until.dn() + 7 - cur.dn(),
{
    proof {
        reveal(walk_fits);
    }
    if !cur.le(&until) {
        return true;
    }
    match cur.add_days(7) {
        Some(n) => walk_fits_exec(n, until),
        None => false,
    }
}

/// Expands the events of a calendar into class blocks within `from ..= to`, ordered
/// by date and start time (see `schedule_of`).
pub fn expand_events(events: &Vec<Option<IcsEvent>>, from: Date, to: Date) -> (r: Vec<ClassBlock>)
    requires
        from.wf(),
        to.wf(),
        forall|i: int|
            0 <= i < events@.len() ==> (#[trigger] events@[i] matches Some(e) ==> event_safe(
                e@,
                to.dn(),
            )),
    ensures
        blocks_view(r@) == schedule_of(events_view(events@), from.dn(), to.dn()),
        forall|i: int| 0 <= i < r@.len() ==> (#[trigger] r@[i]).wf(),
{
    let ghost ev = events_view(events@);
    let mut out: Vec<ClassBlock> = Vec::new();
    let mut i: usize = 0;
    while i < events.len()
        invariant
            i <= events@.len(),
            from.wf(),
            to.wf(),
            ev == events_view(events@),
            forall|i: int|
                0 <= i < events@.len() ==> (#[trigger] events@[i] matches Some(e) ==> event_safe(
                    e@,
                    to.dn(),
                )),
            blocks_view(out@) == events_blocks(ev.take(i as int), from.dn(), to.dn()),
            forall|k: int| 0 <= k < out@.len() ==> (#[trigger] out@[k]).wf(),
        decreases events.len() - i,
    {
        proof {
            assert(ev.take(i + 1).drop_last() =~= ev.take(i as int));
        }
        match &events[i] {
            Some(e) => {
                push_event_blocks(e, from, to, &mut out);
            },
            None => {
                assert(blocks_view(out@) =~= blocks_view(out@) + Seq::<ClassBlockView>::empty());
            },
        }
        i = i + 1;
    }
    assert(ev.take(i as int) =~= ev);
    let ghost unsorted = out@;
    let r = stable_sort(out);
    proof {
        lemma_stable_sorted_map(
            unsorted,
            |x: ClassBlock| x.key(),
            |x: ClassBlock| x@,
            |v: ClassBlockView| block_key(v),
        );
        assert(blocks_view(unsorted) == unsorted.map_values(|x: ClassBlock| x@));
        crate::data::sort::lemma_stable_sorted_elements(unsorted, |x: ClassBlock| x.key());
        assert forall|k: int| 0 <= k < r@.len() implies (#[trigger] r@[k]).wf() by {
            assert(unsorted.contains(r@[k]));
            let j = choose|j: int| 0 <= j < unsorted.len() && unsorted[j] == r@[k];
        }
    }
    r
}

/// What the `icalendar` crate reads from a calendar text: for each component, the
/// `SUMMARY`, `LOCATION`, `DTSTART`, `DTEND` and `RRULE` values when it is an event
/// (nothing for other components), in order; or the debug text of the parse error.
pub uninterp spec fn ics_calendar(content: Seq<char>) -> Result<Seq<Option<IcsEventView>>, Seq<char>>;

pub open spec fn calendar_view(r: Result<Vec<Option<IcsEvent>>, String>) -> Result<Seq<Option<IcsEventView>>, Seq<char>> {
    match r {
        Ok(es) => Ok(events_view(es@)),
        Err(e) => Err(e@),
    }
}

/// Calls `str::parse::<icalendar::Calendar>` and, for each component,
/// `CalendarComponent::as_event` and then `Component::property_value` on the event's
/// five properties. The contract says that the result is the named outcome for
/// `content`; what the crate accepts and how it reads property values is not stated.
#[verifier::external_body]
fn read_ics_events(content: &str) -> (r: Result<Vec<Option<IcsEvent>>, String>)
    ensures
        calendar_view(r) == ics_calendar(content@),
{
    let cal: icalendar::Calendar = content.parse().map_err(|e: String| format!("{:?}", e))?;
    let p = |e: &icalendar::Event, k: &str| e.property_value(k).map(|v| v.to_string());
    Ok(cal.components.iter().map(|c| c.as_event().map(|e| IcsEvent {
        summary: p(e, "SUMMARY"),
        location: p(e, "LOCATION"),
        dtstart: p(e, "DTSTART"),
        dtend: p(e, "DTEND"),
        rrule: p(e, "RRULE"),
    })).collect())
}

/// Expands the calendar `content` of the file `file` into class blocks within
/// `from ..= to`. A calendar the `icalendar` crate refuses gives a parse error with
/// reason `ICS parse error: ` and the error's debug text. `None` says that an event
/// holds a timestamp or a weekly rule whose expansion would panic (see
/// `event_safe`); otherwise the blocks are those of `schedule_of`, each dated on a
/// valid calendar day. Only a calendar that does not parse gives an error: events
/// that are skipped or shown only once never do.
pub fn expand_schedule(file: &str, content: &str, from: Date, to: Date) -> (r: Option<Result<Vec<ClassBlock>, ReaderError>>)
    requires
        from.wf(),
        to.wf(),
    ensures
        match ics_calendar(content@) {
            Err(e) => r matches Some(Err(ReaderError::Parse { file: f, reason: m })) && f@ == file@
                && m@ == "ICS parse error: "@ + e,
            Ok(es) => if forall|i: int|
                0 <= i < es.len() ==> (#[trigger] es[i] matches Some(e) ==> event_safe(e, to.dn())) {
                r matches Some(Ok(v)) && blocks_view(v@) == schedule_of(es, from.dn(), to.dn())
            } else {
                r is None
            },
        },
        r matches Some(Ok(v)) ==> forall|i: int| 0 <= i < v@.len() ==> (#[trigger] v@[i]).wf(),
        (r matches Some(Err(_))) == (ics_calendar(content@) is Err),
{
    let events = match read_ics_events(content) {
        Ok(es) => es,
        Err(e) => {
            let mut m: Vec<char> = Vec::new();
            push_str(&mut m, "ICS parse error: ");
            push_str(&mut m, e.as_str());
            return Some(Err(parse_error(file, &m)));
        },
    };
    let ghost ev = events_view(events@);
    assert(ics_calendar(content@) == Ok::<Seq<Option<IcsEventView>>, Seq<char>>(ev));
    let mut i: usize = 0;
    while i < events.len()
        invariant
            i <= events@.len(),
            to.wf(),
            ics_calendar(content@) == Ok::<Seq<Option<IcsEventView>>, Seq<char>>(ev),
            ev == events_view(events@),
            forall|k: int|
                0 <= k < i ==> (#[trigger] events@[k] matches Some(e) ==> event_safe(e@, to.dn())),
        decreases events.len() - i,
    {
        match &events[i] {
            Some(e) => {
                if !event_is_safe(e, to) {
                    proof {
                        assert(ev[i as int] == Some(e@));
                        assert(!(ev[i as int] matches Some(x) ==> event_safe(x, to.dn())));
                        assert(ics_calendar(content@) == Ok::<Seq<Option<IcsEventView>>, Seq<char>>(ev));
                    }
                    return None;
                }
            },
            None => {},
        }
        i = i + 1;
    }
    proof {
        assert forall|k: int| 0 <= k < ev.len() implies (#[trigger] ev[k] matches Some(e) ==> event_safe(e, to.dn())) by {
            assert(ev[k] == match events@[k] { Some(e) => Some(e@), None => None::<IcsEventView> });
        }
    }
    Some(Ok(expand_events(&events, from, to)))
}

// ---------------------------------------------------------------------------
// Laws

/// Manila time is UTC plus eight hours: a timestamp reads exactly when its fields
/// parse and name a calendar date, and its local day and clock time are its UTC day
/// and clock time moved forward by 480 minutes.
pub proof fn law_manila_offset(s: Seq<char>)
    ensures
        ics_stamp(s) is Some <==> (stamp_fields(s) matches Some(f) && valid_ymd(f.0, f.1, f.2)),
        ics_stamp(s) matches Some((n, t)) ==> {
            let f = stamp_fields(s).unwrap();
            &&& t.wf()
            &&& t.second == 0
            &&& n * 1440 + t.hour * 60 + t.minute == day_number(f.0, f.1, f.2) * 1440 + f.3 * 60
                + f.4 + 480
        },
{
    if let Some((y, m, d, h, mi)) = stamp_fields(s) {
        if valid_ymd(y, m, d) {
            let t = trim_z(s);
            lemma_two_digit_field(t, 9);
            lemma_two_digit_field(t, 11);
            let total = h * 60 + mi + 480;
            let q = total / 60;
            assert(q * 60 + total % 60 == total);
            assert((q / 24) * 24 + q % 24 == q);
            assert((q / 24) * 1440 + (q % 24) * 60 + total % 60 == total);
        }
    }
}

proof fn lemma_weekly_days_facts(c: int, u: int, f: int, wd: Option<int>)
    ensures
        forall|i: int|
            0 <= i < weekly_days(c, u, f, wd).len() ==> {
                let d = #[trigger] weekly_days(c, u, f, wd)[i];
                &&& f <= d <= u
                &&& wd matches Some(w) ==> weekday_of(d) == w
            },
    decreases u + 7 - c,
{
    if c > u {
        lemma_weekly_end(c, u, f, wd);
    } else {
        lemma_weekly_step(c, u, f, wd);
        lemma_weekly_days_facts(c + 7, u, f, wd);
        let here: Seq<int> = if c >= f && (wd is None || weekday_of(c) == wd.unwrap()) {
            seq![c]
        } else {
            Seq::<int>::empty()
        };
        let rest = weekly_days(c + 7, u, f, wd);
        assert forall|i: int| 0 <= i < weekly_days(c, u, f, wd).len() implies {
            let d = #[trigger] weekly_days(c, u, f, wd)[i];
            &&& f <= d <= u
            &&& wd matches Some(w) ==> weekday_of(d) == w
        } by {
            if i >= here.len() {
                assert(weekly_days(c, u, f, wd)[i] == rest[i - here.len()]);
            }
        }
    }
}

proof fn lemma_week_blocks_index(ds: Seq<int>, st: Time, et: Time, s: Seq<char>, l: Seq<char>)
    ensures
        week_blocks(ds, st, et, s, l).len() == ds.len(),
        forall|i: int|
            0 <= i < ds.len() ==> #[trigger] week_blocks(ds, st, et, s, l)[i] == block(ds[i], st, et, s, l),
    decreases ds.len(),
{
    if ds.len() > 0 {
        lemma_week_blocks_index(ds.drop_last(), st, et, s, l);
    }
}

/// What every block of an event satisfies: it lies within `from ..= to`; under a
/// weekly rule on one day it falls on that weekday.
pub open spec fn block_fits(e: IcsEventView, b: ClassBlockView, from: int, to: int) -> bool {
    let rule = or_empty(e.rrule);
    &&& from <= b.dn <= to
    &&& rule.len() > 0 && weekly_day(rule) is Some ==> weekday_of(b.dn) == weekly_day(rule).unwrap()
}

/// Every block an event gives lies within the requested days, and a weekly rule's
/// blocks fall on its `BYDAY` weekday.
pub proof fn law_event_blocks_fit(e: IcsEventView, from: int, to: int)
    ensures
        forall|i: int|
            0 <= i < event_blocks(e, from, to).len() ==> block_fits(
                e,
                #[trigger] event_blocks(e, from, to)[i],
                from,
                to,
            ),
{
    let summary = or_empty(e.summary);
    let location = or_empty(e.location);
    if let Some((sd, st)) = ics_stamp(or_empty(e.dtstart)) {
        let et = match ics_stamp(or_empty(e.dtend)) {
            Some((_, t)) => t,
            None => st,
        };
        let rule = or_empty(e.rrule);
        if rule.len() > 0 && weekly_day(rule) is Some {
            let wd = weekly_day(rule);
            let ds = weekly_days(sd, repeat_until(rule, to), from, wd);
            lemma_weekly_days_facts(sd, repeat_until(rule, to), from, wd);
            lemma_week_blocks_index(ds, st, et, summary, location);
            assert forall|i: int| 0 <= i < event_blocks(e, from, to).len() implies block_fits(
                e,
                #[trigger] event_blocks(e, from, to)[i],
                from,
                to,
            ) by {
                assert(event_blocks(e, from, to)[i] == block(ds[i], st, et, summary, location));
                assert(weekly_days(sd, repeat_until(rule, to), from, wd)[i] == ds[i]);
            }
        }
    }
}

proof fn lemma_events_blocks_fit(es: Seq<Option<IcsEventView>>, from: int, to: int)
    ensures
        forall|i: int|
            0 <= i < events_blocks(es, from, to).len() ==> from <= (#[trigger] events_blocks(
                es,
                from,
                to,
            )[i]).dn <= to,
    decreases es.len(),
{
    if es.len() > 0 {
        lemma_events_blocks_fit(es.drop_last(), from, to);
        let a = events_blocks(es.drop_last(), from, to);
        let b = match es.last() {
            Some(e) => event_blocks(e, from, to),
            None => seq![],
        };
        if let Some(e) = es.last() {
            law_event_blocks_fit(e, from, to);
        }
        assert forall|i: int| 0 <= i < events_blocks(es, from, to).len() implies from <= (
        #[trigger] events_blocks(es, from, to)[i]).dn <= to by {
            if i >= a.len() {
                assert(events_blocks(es, from, to)[i] == b[i - a.len()]);
            } else {
                assert(events_blocks(es, from, to)[i] == a[i]);
            }
        }
    }
}

/// A schedule lists only days within `from ..= to`, ordered by date and then start
/// time.
pub proof fn law_schedule_in_range_and_ordered(es: Seq<Option<IcsEventView>>, from: int, to: int)
    ensures
        forall|i: int|
            0 <= i < schedule_of(es, from, to).len() ==> from <= (#[trigger] schedule_of(
                es,
                from,
                to,
            )[i]).dn <= to,
        crate::data::sort::keys_sorted(schedule_of(es, from, to), |b: ClassBlockView| block_key(b)),
{
    let all = events_blocks(es, from, to);
    lemma_events_blocks_fit(es, from, to);
    crate::data::sort::lemma_stable_sorted_elements(all, |b: ClassBlockView| block_key(b));
    crate::data::sort::lemma_stable_sorted_sorted(all, |b: ClassBlockView| block_key(b));
    assert forall|i: int| 0 <= i < schedule_of(es, from, to).len() implies from <= (
    #[trigger] schedule_of(es, from, to)[i]).dn <= to by {
        let x = schedule_of(es, from, to)[i];
        assert(all.contains(x));
        let j = choose|j: int| 0 <= j < all.len() && all[j] == x;
        assert(from <= all[j].dn <= to);
    }
}

/// The days `from ..= to`, as a filter on day numbers.
pub open spec fn day_within(from: int, to: int) -> spec_fn(int) -> bool {
    |d: int| from <= d && d <= to
}

/// The blocks dated within `from ..= to`, as a filter.
pub open spec fn block_within(from: int, to: int) -> spec_fn(ClassBlockView) -> bool {
    |b: ClassBlockView| from <= b.dn && b.dn <= to
}

proof fn lemma_filter_empty<T>(p: spec_fn(T) -> bool)
    ensures
        Seq::<T>::empty().filter(p) == Seq::<T>::empty(),
{
    reveal_with_fuel(Seq::filter, 1);
}

proof fn lemma_filter_single<T>(x: T, p: spec_fn(T) -> bool)
    ensures
        seq![x].filter(p) == (if p(x) {
            seq![x]
        } else {
            Seq::<T>::empty()
        }),
        Seq::<T>::empty().filter(p) == Seq::<T>::empty(),
{
    reveal_with_fuel(Seq::filter, 2);
    assert(seq![x].drop_last() =~= Seq::<T>::empty());
}

/// A weekly walk with a later start filter and an earlier end keeps the days of the
/// wider walk that lie within `f2 ..= t2`; `u2` is the narrower walk's last day, which
/// is `t2` unless it equals the wider walk's `u1`.
proof fn lemma_weekly_narrow(c: int, u1: int, f1: int, u2: int, f2: int, t2: int, wd: Option<int>)
    requires
        f1 <= f2,
        u2 <= u1,
        u2 <= t2,
        u2 < t2 ==> u1 == u2,
    ensures
        weekly_days(c, u2, f2, wd) == weekly_days(c, u1, f1, wd).filter(day_within(f2, t2)),
    decreases u1 + 7 - c,
{
    let p = day_within(f2, t2);
    if c > u1 {
        lemma_weekly_end(c, u1, f1, wd);
        lemma_weekly_end(c, u2, f2, wd);
        lemma_filter_single(c, p);
    } else {
        lemma_weekly_step(c, u1, f1, wd);
        lemma_weekly_narrow(c + 7, u1, f1, u2, f2, t2, wd);
        let ok = wd is None || weekday_of(c) == wd.unwrap();
        let h1 = if c >= f1 && ok {
            seq![c]
        } else {
            Seq::<int>::empty()
        };
        let r1 = weekly_days(c + 7, u1, f1, wd);
        Seq::filter_distributes_over_add(h1, r1, p);
        lemma_filter_single(c, p);
        if c > u2 {
            lemma_weekly_end(c, u2, f2, wd);
            lemma_weekly_end(c + 7, u2, f2, wd);
            assert(h1.filter(p) =~= Seq::<int>::empty());
            assert(weekly_days(c, u1, f1, wd).filter(p) =~= Seq::<int>::empty());
        } else {
            lemma_weekly_step(c, u2, f2, wd);
            let h2 = if c >= f2 && ok {
                seq![c]
            } else {
                Seq::<int>::empty()
            };
            assert(h1.filter(p) =~= h2);
        }
    }
}

proof fn lemma_week_blocks_narrow(ds: Seq<int>, st: Time, et: Time, s: Seq<char>, l: Seq<char>, f: int, t: int)
    ensures
        week_blocks(ds.filter(day_within(f, t)), st, et, s, l) == week_blocks(ds, st, et, s, l).filter(
            block_within(f, t),
        ),
    decreases ds.len(),
{
    let dp = day_within(f, t);
    let bp = block_within(f, t);
    reveal_with_fuel(Seq::filter, 1);
    if ds.len() > 0 {
        lemma_week_blocks_narrow(ds.drop_last(), st, et, s, l, f, t);
        let w = week_blocks(ds, st, et, s, l);
        let x = ds.last();
        assert(w.drop_last() =~= week_blocks(ds.drop_last(), st, et, s, l));
        assert(w.last() == block(x, st, et, s, l));
        let fd = ds.drop_last().filter(dp);
        if dp(x) {
            assert(fd.push(x).drop_last() =~= fd);
            assert(ds.filter(dp) == fd.push(x));
        } else {
            assert(ds.filter(dp) == fd);
        }
    } else {
        assert(ds.filter(dp) =~= ds);
        assert(week_blocks(ds, st, et, s, l).filter(bp) =~= Seq::<ClassBlockView>::empty());
    }
}

proof fn lemma_event_blocks_narrow(e: IcsEventView, f1: int, t1: int, f2: int, t2: int)
    requires
        f1 <= f2,
        t2 <= t1,
    ensures
        event_blocks(e, f2, t2) == event_blocks(e, f1, t1).filter(block_within(f2, t2)),
{
    let bp = block_within(f2, t2);
    let summary = or_empty(e.summary);
    let location = or_empty(e.location);
    match ics_stamp(or_empty(e.dtstart)) {
        None => {
            lemma_filter_empty(bp);
        },
        Some((sd, st)) => {
            let et = match ics_stamp(or_empty(e.dtend)) {
                Some((_, t)) => t,
                None => st,
            };
            let rule = or_empty(e.rrule);
            lemma_filter_single(block(sd, st, et, summary, location), bp);
            lemma_filter_single(block(sd, st, et, summary + first_only_mark(), location), bp);
            if rule.len() > 0 {
                if let Some(w) = weekly_day(rule) {
                    let u1 = repeat_until(rule, t1);
                    let u2 = repeat_until(rule, t2);
                    lemma_weekly_narrow(sd, u1, f1, u2, f2, t2, Some(w));
                    lemma_week_blocks_narrow(weekly_days(sd, u1, f1, Some(w)), st, et, summary, location, f2, t2);
                }
            }
        },
    }
}

proof fn lemma_events_blocks_narrow(es: Seq<Option<IcsEventView>>, f1: int, t1: int, f2: int, t2: int)
    requires
        f1 <= f2,
        t2 <= t1,
    ensures
        events_blocks(es, f2, t2) == events_blocks(es, f1, t1).filter(block_within(f2, t2)),
    decreases es.len(),
{
    let bp = block_within(f2, t2);
    if es.len() == 0 {
        reveal_with_fuel(Seq::filter, 1);
        assert(events_blocks(es, f1, t1).filter(bp) =~= Seq::<ClassBlockView>::empty());
    } else {
        lemma_events_blocks_narrow(es.drop_last(), f1, t1, f2, t2);
        let here = match es.last() {
            Some(e) => event_blocks(e, f1, t1),
            None => seq![],
        };
        Seq::filter_distributes_over_add(events_blocks(es.drop_last(), f1, t1), here, bp);
        match es.last() {
            Some(e) => lemma_event_blocks_narrow(e, f1, t1, f2, t2),
            None => {
                reveal_with_fuel(Seq::filter, 1);
                assert(here.filter(bp) =~= Seq::<ClassBlockView>::empty());
            },
        }
    }
}

/// Narrowing the window of a schedule only drops blocks: the schedule of a narrower
/// window is that of a wider one with the blocks outside the narrower days left out,
/// nothing added, changed or reordered.
pub proof fn law_schedule_narrowing(es: Seq<Option<IcsEventView>>, f1: int, t1: int, f2: int, t2: int)
    requires
        f1 <= f2,
        t2 <= t1,
    ensures
        schedule_of(es, f2, t2) == schedule_of(es, f1, t1).filter(block_within(f2, t2)),
{
    lemma_events_blocks_narrow(es, f1, t1, f2, t2);
    crate::data::sort::lemma_stable_sorted_filter(
        events_blocks(es, f1, t1),
        |b: ClassBlockView| block_key(b),
        block_within(f2, t2),
    );
}

/// The value of the first of `parts` that starts with `key=`: the text after the `=`.
pub open spec fn part_value(parts: Seq<Seq<char>>, key: Seq<char>) -> Option<Seq<char>>
    decreases parts.len(),
{
    if parts.len() == 0 {
        None
    } else if starts_with(parts[0], key + seq!['=']) {
        Some(parts[0].subrange(key.len() + 1int, parts[0].len() as int))
    } else {
        part_value(parts.drop_first(), key)
    }
}

proof fn lemma_rule_field_from(r: Seq<char>, key: Seq<char>, i: int)
    requires
        0 <= i <= r.len(),
    ensures
        rule_field_from(r, key, i) == part_value(split_from(r, ';', i), key),
    decreases r.len() + 1 - i,
{
    let j = next_char(r, ';', i);
    crate::data::text::lemma_next_char(r, ';', i);
    let p = r.subrange(i, j);
    let k = key + seq!['='];
    let parts = split_from(r, ';', i);
    assert(parts[0] == p);
    if occurs_at(r, i, key) && i + key.len() < j && r[i + key.len()] == '=' {
        assert(p.subrange(0, k.len() as int) =~= k);
        assert(p.subrange(key.len() + 1int, p.len() as int) =~= r.subrange(i + key.len() + 1, j));
    } else {
        if starts_with(p, k) {
            assert(p.subrange(0, key.len() as int) =~= r.subrange(i, i + key.len()));
            assert(p.subrange(0, k.len() as int).subrange(0, key.len() as int) =~= p.subrange(
                0,
                key.len() as int,
            ));
            assert(k.subrange(0, key.len() as int) =~= key);
            assert(k[key.len() as int] == '=');
            assert(p.subrange(0, k.len() as int)[key.len() as int] == p[key.len() as int]);
            assert(p[key.len() as int] == r[i + key.len()]);
            assert(occurs_at(r, i, key));
            assert(false);
        }
        assert(part_value(parts, key) == part_value(parts.drop_first(), key));
        if j < r.len() {
            lemma_rule_field_from(r, key, j + 1);
            assert(parts.drop_first() =~= split_from(r, ';', j + 1));
        } else {
            assert(parts.drop_first() =~= Seq::<Seq<char>>::empty());
        }
    }
}

/// A recurrence rule field is found exactly when one of the rule's `;`-separated parts
/// starts with `key=`, and then its value is the rest of the first such part.
pub proof fn law_rule_field(r: Seq<char>, key: Seq<char>)
    ensures
        rule_field(r, key) == part_value(split(r, ';'), key),
{
    lemma_rule_field_from(r, key, 0);
}

/// `BYDAY` codes name their own weekdays (Monday = 0): `MO`, `TU`, `WE`, `TH`, `FR`,
/// `SA` and `SU` are 0 to 6 in that order (2026-08-07, a Friday, has weekday 4), and
/// no other text names a weekday.
pub proof fn law_byday_codes(s: Seq<char>)
    ensures
        byday_of(seq!['M', 'O']) == Some(0int),
        byday_of(seq!['T', 'U']) == Some(1int),
        byday_of(seq!['W', 'E']) == Some(2int),
        byday_of(seq!['T', 'H']) == Some(3int),
        byday_of(seq!['F', 'R']) == Some(4int),
        byday_of(seq!['S', 'A']) == Some(5int),
        byday_of(seq!['S', 'U']) == Some(6int),
        weekday_of(day_number(2026, 8, 7)) == 4,
        byday_of(s) is Some ==> s == seq!['M', 'O'] || s == seq!['T', 'U'] || s == seq!['W', 'E']
            || s == seq!['T', 'H'] || s == seq!['F', 'R'] || s == seq!['S', 'A'] || s == seq!['S', 'U'],
{
    assert(seq!['T', 'U'] != seq!['M', 'O']);
    assert(seq!['W', 'E'] != seq!['M', 'O'] && seq!['W', 'E'] != seq!['T', 'U']);
    assert(seq!['T', 'H'] != seq!['M', 'O'] && seq!['T', 'H'] != seq!['T', 'U'] && seq!['T', 'H'] != seq!['W', 'E']);
    assert(seq!['F', 'R'] != seq!['M', 'O'] && seq!['F', 'R'] != seq!['T', 'U'] && seq!['F', 'R'] != seq!['W', 'E']
        && seq!['F', 'R'] != seq!['T', 'H']);
    assert(seq!['S', 'A'] != seq!['M', 'O'] && seq!['S', 'A'] != seq!['T', 'U'] && seq!['S', 'A'] != seq!['W', 'E']
        && seq!['S', 'A'] != seq!['T', 'H'] && seq!['S', 'A'] != seq!['F', 'R']);
    assert(seq!['S', 'U'] != seq!['M', 'O'] && seq!['S', 'U'] != seq!['T', 'U'] && seq!['S', 'U'] != seq!['W', 'E']
        && seq!['S', 'U'] != seq!['T', 'H'] && seq!['S', 'U'] != seq!['F', 'R'] && seq!['S', 'U'] != seq!['S', 'A']);
    assert(seq!['T', 'U'][0] != seq!['M', 'O'][0]);
    crate::data::date::law_iso_weeks(day_number(2026, 8, 3), 0);
    assert(day_number(2026, 8, 7) == day_number(2026, 8, 3) + 4);
}

/// A weekly walk that starts on its weekday `w` holds exactly the days from the start
/// up to `until`, not before `from`, that are whole weeks after the start: one day for
/// every week.
pub proof fn law_weekly_every_week(c: int, u: int, f: int, w: int)
    requires
        weekday_of(c) == w,
    ensures
        forall|x: int| #[trigger] weekly_days(c, u, f, Some(w)).contains(x) <==> (c <= x <= u && f <= x
            && (x - c) % 7 == 0),
    decreases u + 7 - c,
{
    if c > u {
        lemma_weekly_end(c, u, f, Some(w));
    } else {
        lemma_weekly_step(c, u, f, Some(w));
        crate::data::date::law_iso_weeks(c, c);
        law_weekly_every_week(c + 7, u, f, w);
        let head = if c >= f {
            seq![c]
        } else {
            Seq::<int>::empty()
        };
        let rest = weekly_days(c + 7, u, f, Some(w));
        assert forall|x: int| #[trigger] weekly_days(c, u, f, Some(w)).contains(x) <==> (c <= x <= u && f
            <= x && (x - c) % 7 == 0) by {
            let all = weekly_days(c, u, f, Some(w));
            assert(all == head + rest);
            if all.contains(x) {
                let i = choose|i: int| 0 <= i < all.len() && all[i] == x;
                if i < head.len() {
                    assert(head[i] == x);
                } else {
                    assert(rest[i - head.len()] == x);
                    assert(rest.contains(x));
                }
            }
            if c <= x <= u && f <= x && (x - c) % 7 == 0 {
                if x == c {
                    assert(all[0] == x);
                } else {
                    assert(rest.contains(x));
                    let i = choose|i: int| 0 <= i < rest.len() && rest[i] == x;
                    assert(all[head.len() + i] == x);
                }
            }
        }
    }
}

} // verus!
