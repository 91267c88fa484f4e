//! Shared record types and the individual readers.
use vstd::prelude::*;

use crate::data::date::Date;
use crate::data::text::{push_str, string_of};

pub mod attendance;
pub mod calendar;
pub mod csvfile;
pub mod dashboard;
pub mod date;
pub mod deadlines;
pub mod exams;
pub mod github;
pub mod gradejoin;
pub mod grades;
pub mod org;
pub mod rrule;
pub mod text;
pub mod todos;
pub mod sleep;
pub mod sort;
pub mod streak;
pub mod tally;

verus! {

/// The source of a daily metric.
#[derive(Debug, Clone, Copy, PartialEq, Eq, Structural)]
pub enum MetricKind {
    Github,
    Todo,
    Grade,
    Attendance,
    Sleep,
}

/// One value of one kind on one calendar day.
#[derive(Debug, Clone, Copy, PartialEq, Eq, Structural)]
pub struct DayMetric {
    pub date: Date,
    pub kind: MetricKind,
    pub value: u32,
}

/// Why a reader could not produce its records.
#[derive(Debug, Clone, PartialEq, Eq)]
pub enum ReaderError {
    /// The file (or directory) does not exist.
    Missing(String),
    /// The file exists but its content was refused.
    Parse { file: String, reason: String },
}

/// The text a reader error reads as.
pub open spec fn reader_error_text(e: ReaderError) -> Seq<char> {
    match e {
        ReaderError::Missing(p) => "missing file: "@ + p@,
        ReaderError::Parse { file, reason } => "parse failed in "@ + file@ + ": "@ + reason@,
    }
}

impl ReaderError {
    /// The error as text, such as `missing file: todos.md` (see `reader_error_text`).
    pub fn message(&self) -> (r: String)
        ensures
            r@ == reader_error_text(*self),
    {
        let mut out: Vec<char> = Vec::new();
        match self {
            ReaderError::Missing(p) => {
                push_str(&mut out, "missing file: ");
                push_str(&mut out, p.as_str());
            },
            ReaderError::Parse { file, reason } => {
                push_str(&mut out, "parse failed in ");
                push_str(&mut out, file.as_str());
                push_str(&mut out, ": ");
                push_str(&mut out, reason.as_str());
            },
        }
        string_of(&out)
    }
}

} // verus!
