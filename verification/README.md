# academic_dashboard

A terminal dashboard over a personal academic notes vault: weekly GitHub activity,
completed tasks and returned grades on an 18-week semester grid, absences against
each course's limits, pending assignment deadlines in Manila time, plus the readers
for sleep logs, holiday tables, exam seasons, org timelines and class schedules.

## Layout

- `src/` is the library, verified with Verus. Every reader takes the text (or bytes)
  of its file and returns plain records; each public function states its result
  over spec functions in `requires`/`ensures`.
  - `data/text.rs`: characters, trimming, search, lines, fields, integers, UTF-8 widths.
  - `data/date.rs`: proleptic Gregorian dates by day number, clock times, and the
    `chrono` parsers, called through `external_body` functions whose contracts name
    their results.
  - `data/sort.rs`, `data/tally.rs`: stable sorting by key, per-day tallies.
  - One module per reader: `github`, `todos`, `grades`, `gradejoin`, `attendance`,
    `deadlines`, `sleep`, `streak`, `exams`, `org`, `rrule`, `calendar`.
  - `data/dashboard.rs`: what the screen shows (week totals, pending deadlines,
    labels, urgency, the warning line).
  - Laws are public proof functions named `law_*`.
- `app/` is the program: command line, file reading, JSON decoding, terminal UI.
- `tests/` runs the library on concrete inputs.
