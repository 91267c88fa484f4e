//! The sleep log: one `date,wake_time,bed_time,notes` record per day.
use vstd::prelude::*;

use crate::data::csvfile::{csv_parse, read_csv_records, record_view, records_view};
use crate::data::date::{chrono_parse_date, chrono_parse_time, date_of, parse_date, parse_time, Date, Time};
use crate::data::github::parse_error;
use crate::data::sort::{
    keys_sorted, lemma_stable_sorted_elements, lemma_stable_sorted_map, lemma_stable_sorted_sorted,
    stable_sort, stable_sorted_by, SortKey,
};
use crate::data::streak::ymd_format;
use crate::data::text::{chars_of, push_str, slice_chars, string_of, trim, trim_chars};
use crate::data::ReaderError;

verus! {

/// One day of the sleep log.
#[derive(Debug, Clone)]
pub struct SleepEntry {
    /// The calendar date this entry belongs to.
    pub date: Date,
    /// Wake time (`HH:MM`), when it parses.
    pub wake_time: Option<Time>,
    /// Bed time (`HH:MM`), when it parses; it may lie past midnight.
    pub bed_time: Option<Time>,
    /// The notes column.
    pub notes: String,
}

pub struct SleepEntryView {
    pub date: Date,
    pub wake_time: Option<Time>,
    pub bed_time: Option<Time>,
    pub notes: Seq<char>,
}

impl View for SleepEntry {
    type V = SleepEntryView;

    open spec fn view(&self) -> SleepEntryView {
        SleepEntryView {
            date: self.date,
            wake_time: self.wake_time,
            bed_time: self.bed_time,
            notes: self.notes@,
        }
    }
}

pub open spec fn sleep_view_key(v: SleepEntryView) -> int {
    v.date.dn()
}

impl SortKey for SleepEntry {
    open spec fn key(&self) -> int {
        sleep_view_key(self@)
    }

    fn sort_key(&self) -> (k: i128) {
        self.date.dn_wide()
    }
}

/// Seconds asleep between waking and going to bed: missing when either time is
/// missing; a bed time earlier on the clock than the wake time lies on the next day.
pub open spec fn sleep_seconds(wake: Option<Time>, bed: Option<Time>) -> Option<int> {
    match (wake, bed) {
        (Some(w), Some(b)) => Some(
            if b.secs() < w.secs() {
                b.secs() + 86400 - w.secs()
            } else {
                b.secs() - w.secs()
            },
        ),
        _ => None,
    }
}

impl SleepEntry {
    /// Both times, when present, are valid clock times.
    pub open spec fn wf(&self) -> bool {
        &&& self.wake_time matches Some(t) ==> t.wf()
        &&& self.bed_time matches Some(t) ==> t.wf()
    }

    /// Seconds from the wake time to the bed time (see `sleep_seconds`), less than a
    /// day.
    pub fn duration_seconds(&self) -> (r: Option<u32>)
        requires
            self.wf(),
        ensures
            match sleep_seconds(self.wake_time, self.bed_time) {
                Some(s) => r == Some(s as u32),
                None => r is None,
            },
            r matches Some(s) ==> s < 86400,
    {
        let wake = match self.wake_time {
            Some(t) => t,
            None => {
                return None;
            },
        };
        let bed = match self.bed_time {
            Some(t) => t,
            None => {
                return None;
            },
        };
        let wake_secs = wake.seconds_from_midnight();
        let bed_secs = bed.seconds_from_midnight();
        if bed_secs < wake_secs {
            Some(bed_secs + 86400 - wake_secs)
        } else {
            Some(bed_secs - wake_secs)
        }
    }
}

/// First position at or after `i` that is not a double quote, or the length.
pub open spec fn quote_end(s: Seq<char>, i: int) -> int
    decreases s.len() - i,
{
    if 0 <= i < s.len() && s[i] == '"' {
        quote_end(s, i + 1)
    } else {
        i
    }
}

/// The end of `[lo, j)` once trailing double quotes are removed.
pub open spec fn quote_start(s: Seq<char>, lo: int, j: int) -> int
    decreases j - lo,
{
    if lo < j && s[j - 1] == '"' {
        quote_start(s, lo, j - 1)
    } else {
        j
    }
}

/// `str::trim_matches('"')`: the text without its leading and trailing double quotes.
pub open spec fn strip_quotes(s: Seq<char>) -> Seq<char> {
    let a = quote_end(s, 0);
    s.subrange(a, quote_start(s, a, s.len() as int))
}

/// A field as the log reads it: trimmed, then unquoted.
pub open spec fn clean_field(s: Seq<char>) -> Seq<char> {
    strip_quotes(trim(s))
}

pub open spec fn hm_format() -> Seq<char> {
    "%H:%M"@
}

/// The clock time a field gives, when it parses as `%H:%M`.
pub open spec fn time_of(s: Seq<char>) -> Option<Time> {
    match chrono_parse_time(s, hm_format()) {
        Ok(t) => Some(Time { hour: t.0 as u32, minute: t.1 as u32, second: t.2 as u32 }),
        Err(_) => None,
    }
}

/// The entry a record gives: records with fewer than three fields, or whose date does
/// not parse, give none.
pub open spec fn sleep_entry_of(fs: Seq<Seq<char>>) -> Option<SleepEntryView> {
    if fs.len() < 3 {
        None
    } else {
        match chrono_parse_date(clean_field(fs[0]), ymd_format()) {
            Err(_) => None,
            Ok(t) => Some(
                SleepEntryView {
                    date: date_of(t),
                    wake_time: time_of(clean_field(fs[1])),
                    bed_time: time_of(clean_field(fs[2])),
                    notes: if fs.len() > 3 {
                        clean_field(fs[3])
                    } else {
                        seq![]
                    },
                },
            ),
        }
    }
}

/// The entries of the records from index `i` on, in record order, or the message of
/// the first reader error.
pub open spec fn sleep_from(recs: Seq<Result<Seq<Seq<char>>, Seq<char>>>, i: int) -> Result<Seq<SleepEntryView>, Seq<char>>
    decreases recs.len() - i,
{
    if i < 0 || i >= recs.len() {
        Ok(seq![])
    } else {
        match recs[i] {
            Err(e) => Err(e),
            Ok(fs) => match sleep_from(recs, i + 1) {
                Ok(rest) => match sleep_entry_of(fs) {
                    Some(e) => Ok(seq![e] + rest),
                    None => Ok(rest),
                },
                Err(e) => Err(e),
            },
        }
    }
}

/// The sleep log a file's records give: its entries ordered by date (entries of the
/// same date in record order), or the message of the first reader error.
pub open spec fn sleep_log_of(recs: Seq<Result<Seq<Seq<char>>, Seq<char>>>) -> Result<Seq<SleepEntryView>, Seq<char>> {
    match sleep_from(recs, 0) {
        Ok(es) => Ok(stable_sorted_by(es, |v: SleepEntryView| sleep_view_key(v))),
        Err(e) => Err(e),
    }
}

/// `r` is the outcome `o` for the sleep log `file`.
pub open spec fn sleep_outcome(r: Result<Vec<SleepEntry>, ReaderError>, o: Result<Seq<SleepEntryView>, Seq<char>>, file: Seq<char>) -> bool {
    match o {
        Ok(es) => r matches Ok(v) && v@.map_values(|e: SleepEntry| e@) == es,
        Err(reason) => r matches Err(ReaderError::Parse { file: f, reason: m }) && f@ == file
            && m@ == reason,
    }
}

/// `str::trim_matches('"')` on a character sequence.
pub fn strip_quotes_chars(s: &[char]) -> (r: Vec<char>)
    ensures
        r@ == strip_quotes(s@),
{
    let mut a: usize = 0;
    while a < s.len() && s[a] == '"'
        invariant
            a <= s@.len(),
            quote_end(s@, 0) == quote_end(s@, a as int),
        decreases s.len() - a,
    {
        a = a + 1;
    }
    let mut b: usize = s.len();
    while a < b && s[b - 1] == '"'
        invariant
            a <= b <= s@.len(),
            a == quote_end(s@, 0),
            quote_start(s@, a as int, s@.len() as int) == quote_start(s@, a as int, b as int),
        decreases b,
    {
        b = b - 1;
    }
    slice_chars(s, a, b)
}

fn clean_field_exec(s: &str) -> (r: String)
    ensures
        r@ == clean_field(s@),
{
    let t = trim_chars(&chars_of(s));
    string_of(&strip_quotes_chars(&t))
}

fn time_field(s: &str) -> (r: Option<Time>)
    ensures
        r == time_of(s@),
        r matches Some(t) ==> t.wf(),
{
    proof {
        reveal_strlit("%H:%M");
    }
    match parse_time(s, "%H:%M") {
        Ok(t) => Some(t),
        Err(_) => None,
    }
}

/// The entry of one record (see `sleep_entry_of`).
pub fn sleep_entry(fields: &Vec<String>) -> (r: Option<SleepEntry>)
    ensures
        match sleep_entry_of(fields@.map_values(|f: String| f@)) {
            Some(e) => r matches Some(x) && x@ == e && x.wf(),
            None => r is None,
        },
{
    let ghost fs = fields@.map_values(|f: String| f@);
    if fields.len() < 3 {
        return None;
    }
    let date_str = clean_field_exec(fields[0].as_str());
    proof {
        reveal_strlit("%Y-%m-%d");
        assert("%Y-%m-%d"@ =~= ymd_format());
        assert(fs[0] == fields@[0]@);
        assert(fs[1] == fields@[1]@);
        assert(fs[2] == fields@[2]@);
    }
    let date = match parse_date(date_str.as_str(), "%Y-%m-%d") {
        Ok(d) => d,
        Err(_) => {
            return None;
        },
    };
    let wake = clean_field_exec(fields[1].as_str());
    let bed = clean_field_exec(fields[2].as_str());
    let notes = if fields.len() > 3 {
        assert(fs[3] == fields@[3]@);
        clean_field_exec(fields[3].as_str())
    } else {
        string_of(&Vec::new())
    };
    Some(
        SleepEntry {
            date,
            wake_time: time_field(wake.as_str()),
            bed_time: time_field(bed.as_str()),
            notes,
        },
    )
}

/// Turns the records of a sleep log into its entries ordered by date (see
/// `sleep_log_of`); records with fewer than three fields or an unparsable date are
/// skipped, and a reader error makes the whole log fail.
pub fn sleep_entries(file: &str, recs: &Vec<Result<Vec<String>, String>>) -> (r: Result<Vec<SleepEntry>, ReaderError>)
    ensures
        sleep_outcome(r, sleep_log_of(records_view(recs@)), file@),
        r matches Ok(v) ==> keys_sorted(v@, |e: SleepEntry| e.key()),
        r matches Ok(v) ==> forall|i: int| 0 <= i < v@.len() ==> (#[trigger] v@[i]).wf(),
{
    let ghost rv = records_view(recs@);
    let mut out: Vec<SleepEntry> = Vec::new();
    let mut i: usize = 0;
    while i < recs.len()
        invariant
            i <= recs@.len(),
            rv == records_view(recs@),
            match sleep_from(rv, i as int) {
                Ok(es) => sleep_from(rv, 0) == Ok::<Seq<SleepEntryView>, Seq<char>>(
                    out@.map_values(|e: SleepEntry| e@) + es,
                ),
                Err(e) => sleep_from(rv, 0) == Err::<Seq<SleepEntryView>, Seq<char>>(e),
            },
            forall|k: int| 0 <= k < out@.len() ==> (#[trigger] out@[k]).wf(),
        decreases recs.len() - i,
    {
        assert(rv[i as int] == record_view(recs@[i as int]));
        match &recs[i] {
            Err(e) => {
                let mut m: Vec<char> = Vec::new();
                push_str(&mut m, e.as_str());
                return Err(parse_error(file, &m));
            },
            Ok(fields) => {
                let ghost before = out@;
                match sleep_entry(fields) {
                    Some(x) => {
                        out.push(x);
                        proof {
                            assert(out@.map_values(|e: SleepEntry| e@) =~= before.map_values(
                                |e: SleepEntry| e@,
                            ) + seq![x@]);
                            match sleep_from(rv, i + 1) {
                                Ok(es) => {
                                    assert(before.map_values(|e: SleepEntry| e@) + (seq![x@]
                                        + es) =~= out@.map_values(|e: SleepEntry| e@) + es);
                                },
                                Err(e) => {},
                            }
                        }
                    },
                    None => {},
                }
            },
        }
        i = i + 1;
    }
    let ghost unsorted = out@;
    let r = stable_sort(out);
    proof {
        lemma_stable_sorted_map(
            unsorted,
            |x: SleepEntry| x.key(),
            |x: SleepEntry| x@,
            |v: SleepEntryView| sleep_view_key(v),
        );
        assert(unsorted.map_values(|e: SleepEntry| e@) + Seq::<SleepEntryView>::empty()
            =~= unsorted.map_values(|e: SleepEntry| e@));
        lemma_stable_sorted_sorted(unsorted, |x: SleepEntry| x.key());
        lemma_stable_sorted_elements(unsorted, |x: SleepEntry| x.key());
        assert forall|k: int| 0 <= k < r@.len() implies (#[trigger] r@[k]).wf() by {
            assert(unsorted.contains(r@[k]));
            let j = choose|j: int| 0 <= j < unsorted.len() && unsorted[j] == r@[k];
        }
    }
    Ok(r)
}

/// Reads a sleep log: a header row, then `date,wake_time,bed_time[,notes]` records
/// (see `sleep_entries`).
pub fn read_sleep_log(file: &str, content: &[u8]) -> (r: Result<Vec<SleepEntry>, ReaderError>)
    ensures
        sleep_outcome(r, sleep_log_of(csv_parse(content@, true)), file@),
        r matches Ok(v) ==> keys_sorted(v@, |e: SleepEntry| e.key()),
{
    let recs = read_csv_records(content, true);
    sleep_entries(file, &recs)
}

/// Going to bed `sleep_seconds` after waking, on the clock: the duration is less than
/// a day, and the wake time plus the duration is the bed time, modulo a day.
pub proof fn law_sleep_duration(wake: Time, bed: Time)
    requires
        wake.wf(),
        bed.wf(),
    ensures
        sleep_seconds(Some(wake), Some(bed)) matches Some(s) && 0 <= s < 86400 && (wake.secs()
            + s) % 86400 == bed.secs(),
{
    let w = wake.secs();
    let b = bed.secs();
    if b < w {
        assert((w + (b + 86400 - w)) % 86400 == b) by {
            assert(w + (b + 86400 - w) == b + 86400);
        }
    } else {
        assert((w + (b - w)) % 86400 == b);
    }
}

proof fn lemma_sleep_from_ok(recs: Seq<Result<Seq<Seq<char>>, Seq<char>>>, i: int)
    requires
        0 <= i <= recs.len(),
    ensures
        sleep_from(recs, i) is Ok <==> forall|k: int| i <= k < recs.len() ==> (#[trigger] recs[k]) is Ok,
    decreases recs.len() - i,
{
    if i < recs.len() {
        lemma_sleep_from_ok(recs, i + 1);
        if recs[i] is Ok && forall|k: int| i + 1 <= k < recs.len() ==> (#[trigger] recs[k]) is Ok {
            assert forall|k: int| i <= k < recs.len() implies (#[trigger] recs[k]) is Ok by {}
        }
    }
}

/// A sleep log fails only on a reader error: records that are too short or whose date
/// does not parse are skipped, never refused. Otherwise it holds the entries of the
/// records, each once, in date order.
pub proof fn law_sleep_log(recs: Seq<Result<Seq<Seq<char>>, Seq<char>>>)
    ensures
        sleep_log_of(recs) is Ok <==> forall|k: int| 0 <= k < recs.len() ==> (#[trigger] recs[k]) is Ok,
        sleep_log_of(recs) matches Ok(v) ==> {
            &&& keys_sorted(v, |e: SleepEntryView| sleep_view_key(e))
            &&& v.to_multiset() == sleep_from(recs, 0)->Ok_0.to_multiset()
        },
{
    lemma_sleep_from_ok(recs, 0);
    if let Ok(es) = sleep_from(recs, 0) {
        lemma_stable_sorted_sorted(es, |e: SleepEntryView| sleep_view_key(e));
        crate::data::sort::lemma_stable_sorted_permutation(es, |e: SleepEntryView| sleep_view_key(e));
    }
}

} // verus!
