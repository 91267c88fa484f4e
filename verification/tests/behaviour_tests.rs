use academic_dashboard::data::attendance::{
    attendance_limits, attendance_status_checked, course_absence_counts, course_absence_counts_checked,
    grading_limits_fit,
    parse_attendance_line,
};
use academic_dashboard::data::calendar::date_to_canonical_week;
use academic_dashboard::data::dashboard::{
    active_deadlines, add_warning, course_tag, crop_title, deadline_urgency, urgency_for_days,
    weekly_totals, Urgency, deadline_panel, PanelLine, NO_PENDING_DEADLINES,
};
use academic_dashboard::data::date::{Date, Time};
use academic_dashboard::data::deadlines::{
    read_classroom_deadlines, Deadline, RawAssignment, RawClassroomData, RawCourse,
};
use academic_dashboard::data::exams::read_exam_events;
use academic_dashboard::data::gradejoin::normalize_course;
use academic_dashboard::data::github::read_github_contributions;
use academic_dashboard::data::grades::{load_all_gradings, parse_grading_md, read_grade_returns, GradeReturnEntry};
use academic_dashboard::data::rrule::{expand_schedule, parse_byday, parse_ics_datetime_utc8, stamp_is_safe};
use academic_dashboard::data::sleep::{read_sleep_log, SleepEntry};
use academic_dashboard::data::streak::load_holiday_days;
use academic_dashboard::data::todos::{read_todo_completions, todo_completions_checked};
use academic_dashboard::data::{DayMetric, MetricKind, ReaderError};

fn d(y: i32, m: u32, day: u32) -> Date {
    Date::from_ymd_opt(y, m, day).unwrap()
}

fn reason(r: Result<Vec<DayMetric>, ReaderError>) -> String {
    match r {
        Err(ReaderError::Parse { reason, .. }) => reason,
        _ => panic!("expected a parse error"),
    }
}

fn assignment(id: &str, due: Option<&str>, submitted: bool, state: Option<&str>) -> RawAssignment {
    RawAssignment {
        id: id.to_string(),
        title: format!("Task {}", id),
        due: due.map(|s| s.to_string()),
        submitted,
        submission_state: state.map(|s| s.to_string()),
    }
}

fn deadlines_of(assignments: Vec<RawAssignment>) -> Vec<Deadline> {
    read_classroom_deadlines(&RawClassroomData {
        courses: Some(vec![RawCourse { name: "CMSC 124 ST-4L".to_string(), assignments: Some(assignments) }]),
    })
}

// ---------------------------------------------------------------------------
// Week grid and calendar

#[test]
fn canonical_weeks_are_seven_days_from_the_start() {
    assert_eq!(date_to_canonical_week(d(2026, 8, 16)), Some(2));
    assert_eq!(date_to_canonical_week(d(2026, 8, 17)), Some(3));
    assert_eq!(date_to_canonical_week(d(2026, 12, 6)), Some(18));
}

#[test]
fn weekly_totals_add_values_per_week() {
    let metrics = vec![
        DayMetric { date: d(2026, 8, 3), kind: MetricKind::Github, value: 5 },
        DayMetric { date: d(2026, 8, 9), kind: MetricKind::Github, value: 2 },
        DayMetric { date: d(2026, 8, 10), kind: MetricKind::Github, value: 7 },
        DayMetric { date: d(2026, 7, 1), kind: MetricKind::Github, value: 100 },
    ];
    let totals = weekly_totals(&metrics).unwrap();
    assert_eq!(totals.len(), 18);
    assert_eq!(totals[0], 7);
    assert_eq!(totals[1], 7);
    assert_eq!(totals[2..].iter().sum::<u32>(), 0);
}

#[test]
fn weekly_totals_refuse_overflow() {
    let metrics = vec![
        DayMetric { date: d(2026, 8, 3), kind: MetricKind::Todo, value: u32::MAX },
        DayMetric { date: d(2026, 8, 4), kind: MetricKind::Todo, value: 1 },
    ];
    assert_eq!(weekly_totals(&metrics), None);
}

// ---------------------------------------------------------------------------
// Todos

#[test]
fn todo_tally_counts_each_completed_line_once() {
    let content = "- [x] a done_at:: 2026-08-03\n- [x] b done_at::2026-08-01\n  -   [x] c <!-- done_at::   2026-08-03 -->\n- [x] d done_at:: 2026-13-01\n- [x] e no date\n- [ ] f done_at:: 2026-08-02\n";
    let metrics = read_todo_completions(content);
    assert_eq!(metrics.len(), 2);
    assert_eq!((metrics[0].date, metrics[0].value), (d(2026, 8, 1), 1));
    assert_eq!((metrics[1].date, metrics[1].value), (d(2026, 8, 3), 2));
    assert!(metrics.iter().all(|m| m.kind == MetricKind::Todo));
    assert_eq!(metrics.iter().map(|m| m.value).sum::<u32>(), 3);
    let checked = todo_completions_checked(content).unwrap();
    assert_eq!(checked.iter().map(|m| (m.date, m.value)).collect::<Vec<_>>(), vec![(d(2026, 8, 1), 1), (d(2026, 8, 3), 2)]);
}

#[test]
fn todo_date_after_first_mark() {
    // the first `done_at::` with a date shape after the mark counts
    let content = "- [x] done_at:: soon, then done_at:: 2026-08-05\n";
    let metrics = read_todo_completions(content);
    assert_eq!(metrics.len(), 1);
    assert_eq!(metrics[0].date, d(2026, 8, 5));
}

// ---------------------------------------------------------------------------
// GitHub contributions

#[test]
fn github_errors_name_the_record() {
    let short = reason(read_github_contributions("g.csv", b"date,count\n2026-07-01\n".as_slice()));
    assert!(!short.is_empty());
    let flexible_short = "date\n2026-07-01\n";
    assert_eq!(
        reason(read_github_contributions("g.csv", flexible_short.as_bytes())),
        "Record has fewer than 2 columns"
    );
    let bad_date = reason(read_github_contributions("g.csv", b"date,count\n2026-7-x,3\n".as_slice()));
    assert!(bad_date.starts_with("Failed to parse date '2026-7-x': "));
    let bad_count = reason(read_github_contributions("g.csv", b"date,count\n2026-07-01,-3\n".as_slice()));
    assert_eq!(bad_count, "Failed to parse contributions '-3': invalid digit found in string");
    let empty = reason(read_github_contributions("g.csv", b"date,count\n2026-07-01,\n".as_slice()));
    assert_eq!(empty, "Failed to parse contributions '': cannot parse integer from empty string");
    let big = reason(read_github_contributions("g.csv", b"date,count\n2026-07-01,4294967296\n".as_slice()));
    assert_eq!(big, "Failed to parse contributions '4294967296': number too large to fit in target type");
}

#[test]
fn github_error_carries_the_file() {
    match read_github_contributions("data/g.csv", b"date,count\nx,1\n".as_slice()) {
        Err(e) => {
            assert!(e.message().starts_with("parse failed in data/g.csv: Failed to parse date 'x': "));
        },
        Ok(_) => panic!("expected an error"),
    }
    assert_eq!(ReaderError::Missing("todos.md".to_string()).message(), "missing file: todos.md");
}

#[test]
fn github_accepts_a_plus_sign() {
    let metrics = read_github_contributions("g.csv", b"date,count\n2026-07-01,+12\n".as_slice()).unwrap();
    assert_eq!(metrics[0].value, 12);
}

// ---------------------------------------------------------------------------
// Sleep log

#[test]
fn sleep_log_skips_and_sorts() {
    let content = "date,wake,bed,notes\n2026-08-05,07:00,23:30\nbad,07:00,23:00,x\n2026-08-01,xx,22:00, \" quiet \" \nshort,row\n2026-08-03,06:15,01:45,late\n";
    let entries = read_sleep_log("s.csv", content.as_bytes()).unwrap();
    let dates: Vec<Date> = entries.iter().map(|e| e.date).collect();
    assert_eq!(dates, vec![d(2026, 8, 1), d(2026, 8, 3), d(2026, 8, 5)]);
    assert_eq!(entries[0].wake_time, None);
    assert_eq!(entries[0].notes, " quiet ");
    assert_eq!(entries[2].notes, "");
    assert_eq!(entries[1].duration_seconds(), Some(70200));
    assert_eq!(entries[0].duration_seconds(), None);
}

#[test]
fn sleep_duration_wraps_past_midnight() {
    let entry = SleepEntry {
        date: d(2026, 8, 1),
        wake_time: Time::from_hms_opt(23, 0, 0),
        bed_time: Time::from_hms_opt(22, 59, 0),
        notes: String::new(),
    };
    let s = entry.duration_seconds().unwrap();
    assert_eq!(s, 86340);
    assert_eq!((23 * 3600 + s) % 86400, 22 * 3600 + 59 * 60);
}

// ---------------------------------------------------------------------------
// Attendance

#[test]
fn attendance_line_fields() {
    let e = parse_attendance_line("- 2026-08-11 | CS 101 | lab | came late | x <!-- id:: 1 -->").unwrap();
    assert_eq!(e.date_str, "2026-08-11");
    assert_eq!(e.course, "CS 101");
    assert_eq!(e.component, "lab");
    assert_eq!(e.detail, "came late");
    assert!(parse_attendance_line("- 2026-08-11 | CS 101").is_none());
    assert!(parse_attendance_line("2026-08-11 | CS 101 | lab").is_none());
}

#[test]
fn absence_counts_keep_every_absence() {
    let content = "## Absences\n- 2026-08-11 | CMSC 12 | lecture\n- 2026-08-12 | cmsc 12 sec-a | LAB 2\n- 2026-08-13 | Math21 | lecture\n## Notes\n- 2026-08-14 | CMSC 12 | lecture\n";
    let counts = course_absence_counts(content);
    assert_eq!(counts.len(), 2);
    assert_eq!((counts[0].course.as_str(), counts[0].lecture, counts[0].lab), ("CMSC 12", 1, 1));
    assert_eq!((counts[1].course.as_str(), counts[1].lecture, counts[1].lab), ("MATH 21", 1, 0));
    let total: u32 = counts.iter().map(|c| c.lecture + c.lab).sum();
    assert_eq!(total, 3);
    let checked = course_absence_counts_checked(content).unwrap();
    assert_eq!(
        checked.iter().map(|c| (c.course.clone(), c.lecture, c.lab)).collect::<Vec<_>>(),
        vec![("CMSC 12".to_string(), 1, 1), ("MATH 21".to_string(), 1, 0)]
    );
}

#[test]
fn attendance_limits_read_the_grading_note() {
    assert_eq!(attendance_limits(None), (4, 4));
    assert_eq!(attendance_limits(Some("No rules here.")), (4, 4));
    let note = "Absences: >7 lecture hours\nAttendance: ≥ 3 lab meetings\n5 lecture limit without the keyword\n";
    assert_eq!(attendance_limits(Some(note)), (8, 3));
    assert!(grading_limits_fit(note));
    assert!(!grading_limits_fit("Absences: >4294967295 lecture"));
    assert!(grading_limits_fit("Absences: 4294967296 lecture"));
    assert_eq!(attendance_limits(Some("Absences: 4294967296 lecture")), (4, 4));
}

#[test]
fn attendance_status_refuses_overflowing_limits() {
    let counts = course_absence_counts("## Absences\n- 2026-08-11 | CMSC 12 | lab\n");
    let fine = attendance_status_checked(&counts, &vec![Some("Absence rules: >6 lab".to_string())]).unwrap();
    assert_eq!((fine[0].lab_absences, fine[0].lab_limit, fine[0].lecture_limit), (1, 7, 4));
    assert!(attendance_status_checked(&counts, &vec![Some("Absences: >4294967295 lab".to_string())]).is_none());
}

// ---------------------------------------------------------------------------
// Grading notes and returns

#[test]
fn grading_course_falls_back_on_directory() {
    let table = "| Quizzes | 12.5% | Lecture |\n|  Lab  |  30 %  | Lab |\n| Bad | x% | Lab |\n";
    let g = parse_grading_md(table, Some("CMSC132"));
    assert_eq!(g.course_name, "CMSC132");
    assert_eq!(g.components.len(), 1);
    assert_eq!(g.components[0].weight_percent, "12.5");
    assert_eq!(parse_grading_md(table, None).course_name, "UNKNOWN");
    let quoted = parse_grading_md("course: 'COMM 10'\n", None);
    assert_eq!(quoted.course_name, "COMM 10");
}

#[test]
fn later_grading_note_replaces_earlier() {
    let notes = vec![
        (Some("A".to_string()), "course: CMSC 124\n| X | 10% | Lab |\n".to_string()),
        (Some("B".to_string()), "course: cmsc 124 st-4l\n| Y | 20% | Lab |\n".to_string()),
        (Some("MATH21".to_string()), "| Z | 30% | Lecture |\n".to_string()),
    ];
    let all = load_all_gradings(&notes);
    assert_eq!(all.len(), 2);
    let cmsc = all.iter().find(|(k, _)| k == "CMSC 124").unwrap();
    assert_eq!(cmsc.1.components[0].name, "Y");
    assert!(all.iter().any(|(k, g)| k == "MATH 21" && g.course_name == "MATH21"));
}

#[test]
fn grade_returns_date_by_detection_day() {
    let entries = vec![
        GradeReturnEntry { course: "CS 101".into(), assignment: "Lab 1".into(), detected_at: "2026-08-10T23:59:00Z".into() },
        GradeReturnEntry { course: "CS 101".into(), assignment: "Lab 2".into(), detected_at: "2026-08-11".into() },
    ];
    let metrics = read_grade_returns("g.json", &entries).unwrap();
    assert_eq!(metrics.iter().map(|m| (m.date, m.value)).collect::<Vec<_>>(), vec![(d(2026, 8, 10), 1), (d(2026, 8, 11), 1)]);
    let bad = vec![GradeReturnEntry { course: "X".into(), assignment: "Y".into(), detected_at: "yesterdayT10".into() }];
    assert!(reason(read_grade_returns("g.json", &bad)).starts_with("Failed to parse date 'yesterday': "));
}

// ---------------------------------------------------------------------------
// Deadlines

#[test]
fn deadline_rfc3339_text() {
    let ds = deadlines_of(vec![
        assignment("a", Some("2026-08-10T12:00:00.5Z"), false, None),
        assignment("b", Some("2026-08-11T12:00:00.000001Z"), false, None),
    ]);
    assert_eq!(ds[0].due.to_rfc3339(), "2026-08-10T20:00:00.500+08:00");
    assert_eq!(ds[1].due.to_rfc3339(), "2026-08-11T20:00:00.000001+08:00");
}

#[test]
fn deadlines_sorted_and_defaulted() {
    let ds = deadlines_of(vec![
        assignment("late", Some("2026-09-01T00:00:00+08:00"), false, None),
        assignment("none", None, false, None),
        assignment("bad", Some("tomorrow"), false, None),
        assignment("early", Some("2026-08-31T15:59:59Z"), false, Some("returned")),
    ]);
    assert_eq!(ds.iter().map(|d| d.id.as_str()).collect::<Vec<_>>(), vec!["early", "late"]);
    assert_eq!(ds[1].submission_state, "assigned");
    assert_eq!(ds[0].due.date, d(2026, 8, 31));
    assert_eq!(ds[0].due.time, Time::from_hms_opt(23, 59, 59).unwrap());
    assert_eq!(ds[1].due.timestamp - ds[0].due.timestamp, 1);
    assert_eq!(ds[0].due.month_day(), "08-31");
    assert_eq!(ds[1].due.month_day(), "09-01");
}

#[test]
fn deadline_list_shows_five_pending() {
    let mut asg = Vec::new();
    for i in 0..9 {
        let submitted = i == 1;
        let state = if i == 2 { Some("returned") } else { Some("assigned") };
        asg.push(assignment(&i.to_string(), Some(&format!("2026-08-1{}T00:00:00Z", i)), submitted, state));
    }
    let ds = deadlines_of(asg);
    assert_eq!(active_deadlines(&ds), vec![0, 3, 4, 5, 6]);
}

#[test]
fn deadline_panel_lines() {
    let ds = deadlines_of(vec![
        assignment("A very long assignment title", Some("2026-08-14T16:00:00Z"), false, None),
        assignment("done", Some("2026-08-13T00:00:00Z"), true, None),
    ]);
    let lines = deadline_panel(&ds);
    assert_eq!(lines.len(), 1);
    match &lines[0] {
        PanelLine::Due { index, tag, title, due } => {
            assert_eq!(ds[*index].id, "A very long assignment title");
            assert_eq!(tag, "[CMSC] ");
            assert_eq!(title, "Task A very l... ");
            assert_eq!(due, "(due 08-15)");
        },
        PanelLine::Placeholder => panic!("expected a deadline line"),
    }
    let none = deadlines_of(vec![assignment("x", Some("2026-08-13T00:00:00Z"), true, None)]);
    let lines = deadline_panel(&none);
    assert_eq!(lines.len(), 1);
    assert!(matches!(lines[0], PanelLine::Placeholder));
    assert_eq!(NO_PENDING_DEADLINES, "No pending deadlines! 🎉");
    let short = deadlines_of(vec![assignment("q", Some("2026-08-13T00:00:00Z"), false, None)]);
    match &deadline_panel(&short)[0] {
        PanelLine::Due { title, .. } => assert_eq!(title, &format!("{:<16} ", "Task q")),
        PanelLine::Placeholder => panic!("expected a deadline line"),
    }
}

#[test]
fn normalizing_twice_changes_nothing() {
    for name in ["CMSC 124 ST-4L", "comm10", "  Physics lab  ", "stat 1\u{663}", ""] {
        let once = normalize_course(name);
        assert_eq!(normalize_course(&once), once);
    }
}

#[test]
fn deadline_labels() {
    assert_eq!(course_tag("CMSC 124 ST-4L"), "CMSC");
    assert_eq!(course_tag("CMSC"), "CMSC");
    assert_eq!(crop_title("Short title"), "Short title");
    assert_eq!(crop_title("A very long assignment title"), "A very long a...");
    assert_eq!(crop_title("exactly sixteen!"), "exactly sixteen!");
    assert_eq!(urgency_for_days(-3), Urgency::Imminent);
    assert_eq!(urgency_for_days(1), Urgency::Imminent);
    assert_eq!(urgency_for_days(3), Urgency::Soon);
    assert_eq!(urgency_for_days(4), Urgency::Later);
}

#[test]
fn deadline_urgency_counts_whole_days() {
    let ds = deadlines_of(vec![assignment("x", Some("2026-08-10T12:00:00Z"), false, None)]);
    let due = ds[0].due;
    let now = due.timestamp - 3 * 86400 - 5;
    assert_eq!(deadline_urgency(&due, now, 0), Some(Urgency::Soon));
    assert_eq!(deadline_urgency(&due, due.timestamp - 86400, 0), Some(Urgency::Imminent));
    assert_eq!(deadline_urgency(&due, due.timestamp - 10 * 86400, 0), Some(Urgency::Later));
}

#[test]
fn warnings_join_with_bars() {
    let mut status: Option<String> = None;
    add_warning(&mut status, "GitHub error: x");
    add_warning(&mut status, "Todos error: y");
    assert_eq!(status.unwrap(), "GitHub error: x | Todos error: y");
}

// ---------------------------------------------------------------------------
// Exams

#[test]
fn dated_exams_come_first() {
    let content = "| CS 9 | Final | W18 | TBA | x |\n| CS 1 | Midterm | W9 | Oct 5 | x |\n| CS 2 | Quiz | W3 | Aug 20 | x |\n";
    let events = read_exam_events(content);
    let dates: Vec<Option<Date>> = events.iter().map(|e| e.date).collect();
    assert_eq!(dates, vec![Some(d(2026, 8, 20)), Some(d(2026, 10, 5)), None]);
    assert_eq!(events[0].days_until(d(2026, 8, 18)), Some(2));
}

#[test]
fn exam_rows_without_window_are_skipped() {
    let content = "| CS 103 | — | — | — | TBD |\n| CS 104 | Final | W18 |  | x |\n| CS 105 | Final | W18 | TBA | x |\n";
    let events = read_exam_events(content);
    assert_eq!(events.len(), 1);
    assert_eq!(events[0].course, "CS 105");
    assert_eq!(events[0].window_raw, "TBA");
    assert_eq!(events[0].date, None);
}

#[test]
fn holidays_come_only_from_their_section() {
    let content = "| 2026-01-01 | Thu | Before |\n## Official Holidays & Breaks\n| Date | Day | Event |\n|---|---|---|\n| 2026-08-21 | Fri | Ninoy Aquino Day |\n#holidays\n| 2026-10-30 → 11-01 | Fri | Break |\n## Other\n| 2026-09-01 | Tue | Not a holiday |\n";
    let mut days = load_holiday_days(content);
    days.sort();
    assert_eq!(days, vec![d(2026, 8, 21), d(2026, 10, 30), d(2026, 10, 31), d(2026, 11, 1)]);
}

#[test]
fn unicode_digits_count_as_regex_digits() {
    // `\d` takes the Arabic-Indic three, so the day does not parse and the exam is undated
    let events = read_exam_events("| CS 1 | Quiz | W3 | Sep 1\u{663} | x |\n");
    assert_eq!(events.len(), 1);
    assert_eq!(events[0].date, None);
    // the first `done_at::` with a date shape wins, though its digits are not ASCII
    let metrics = read_todo_completions("- [x] a done_at:: \u{662}\u{660}\u{662}\u{666}-08-01 done_at:: 2026-08-02\n- [x] b done_at:: 2026-08-03\n");
    assert_eq!(metrics.len(), 1);
    assert_eq!(metrics[0].date, d(2026, 8, 3));
}

// ---------------------------------------------------------------------------
// Schedule

#[test]
fn manila_time_is_utc_plus_eight() {
    let (day, time) = parse_ics_datetime_utc8("20261231T235900ZZ").unwrap();
    assert_eq!(day, d(2027, 1, 1));
    assert_eq!(time, Time::from_hms_opt(7, 59, 0).unwrap());
    assert_eq!(parse_ics_datetime_utc8("20260803T0200"), None);
    assert_eq!(parse_ics_datetime_utc8("20260230T020000Z"), None);
    assert!(stamp_is_safe("20260803T020000Z"));
    assert!(!stamp_is_safe("202é0803T020000Z"));
    assert_eq!(parse_byday("TH"), Some(3));
    assert_eq!(parse_byday("th"), None);
}

#[test]
fn schedule_expansion_rules() {
    let ics = "BEGIN:VCALENDAR\nBEGIN:VEVENT\nSUMMARY:Lab\nLOCATION:Room 1\nDTSTART:20260805T060000Z\nDTEND:20260805T090000Z\nRRULE:FREQ=WEEKLY;BYDAY=WE\nEND:VEVENT\nBEGIN:VEVENT\nSUMMARY:Talk\nDTSTART:20260806T010000Z\nRRULE:FREQ=DAILY;COUNT=3\nEND:VEVENT\nBEGIN:VEVENT\nSUMMARY:Once\nDTSTART:20260803T000000Z\nEND:VEVENT\nBEGIN:VEVENT\nSUMMARY:Outside\nDTSTART:20260901T000000Z\nEND:VEVENT\nEND:VCALENDAR\n";
    let blocks = expand_schedule("s.ics", ics, d(2026, 8, 3), d(2026, 8, 19)).unwrap().unwrap();
    let shown: Vec<(Date, String)> = blocks.iter().map(|b| (b.date, b.summary.clone())).collect();
    assert_eq!(
        shown,
        vec![
            (d(2026, 8, 3), "Once".to_string()),
            (d(2026, 8, 5), "Lab".to_string()),
            (d(2026, 8, 6), "Talk [first only]".to_string()),
            (d(2026, 8, 12), "Lab".to_string()),
            (d(2026, 8, 19), "Lab".to_string()),
        ]
    );
    assert_eq!(blocks[1].start_time, Time::from_hms_opt(14, 0, 0).unwrap());
    assert_eq!(blocks[1].end_time, Time::from_hms_opt(17, 0, 0).unwrap());
    assert_eq!(blocks[1].location, "Room 1");
    assert_eq!(blocks[2].end_time, blocks[2].start_time);
    assert!(blocks.iter().all(|b| d(2026, 8, 3) <= b.date && b.date <= d(2026, 8, 19)));
}

#[test]
fn schedule_several_day_rule_keeps_first_occurrence() {
    let ics = "BEGIN:VCALENDAR\nBEGIN:VEVENT\nSUMMARY:Seminar\nDTSTART:20260803T010000Z\nRRULE:FREQ=WEEKLY;BYDAY=MO,WE;UNTIL=20261207T155959Z\nEND:VEVENT\nEND:VCALENDAR\n";
    let blocks = expand_schedule("s.ics", ics, d(2026, 8, 3), d(2026, 8, 16)).unwrap().unwrap();
    assert_eq!(blocks.len(), 1);
    assert_eq!(blocks[0].date, d(2026, 8, 3));
    assert_eq!(blocks[0].summary, "Seminar [first only]");
    let later = expand_schedule("s.ics", ics, d(2026, 8, 4), d(2026, 8, 16)).unwrap().unwrap();
    assert!(later.is_empty());
}

#[test]
fn narrowing_the_schedule_window_only_filters() {
    let ics = "BEGIN:VCALENDAR\nBEGIN:VEVENT\nSUMMARY:Lab\nDTSTART:20260805T060000Z\nRRULE:FREQ=WEEKLY;BYDAY=WE;UNTIL=20260902T000000Z\nEND:VEVENT\nBEGIN:VEVENT\nSUMMARY:Talk\nDTSTART:20260812T010000Z\nEND:VEVENT\nEND:VCALENDAR\n";
    let wide = expand_schedule("s.ics", ics, d(2026, 8, 1), d(2026, 9, 30)).unwrap().unwrap();
    let narrow = expand_schedule("s.ics", ics, d(2026, 8, 10), d(2026, 8, 20)).unwrap().unwrap();
    let kept: Vec<(Date, String)> = wide
        .iter()
        .filter(|b| d(2026, 8, 10) <= b.date && b.date <= d(2026, 8, 20))
        .map(|b| (b.date, b.summary.clone()))
        .collect();
    let got: Vec<(Date, String)> = narrow.iter().map(|b| (b.date, b.summary.clone())).collect();
    assert_eq!(got, kept);
    assert_eq!(got, vec![(d(2026, 8, 12), "Talk".to_string()), (d(2026, 8, 12), "Lab".to_string()), (d(2026, 8, 19), "Lab".to_string())]);
    assert_eq!(wide.len(), 6);
}

#[test]
fn schedule_parse_error() {
    match expand_schedule("s.ics", "not a calendar", d(2026, 8, 3), d(2026, 8, 19)) {
        Some(Err(ReaderError::Parse { file, reason })) => {
            assert_eq!(file, "s.ics");
            assert!(reason.starts_with("ICS parse error: "));
        },
        _ => panic!("expected a parse error"),
    }
}

#[test]
fn schedule_refuses_split_characters() {
    let ics = "BEGIN:VCALENDAR\nBEGIN:VEVENT\nSUMMARY:X\nDTSTART:202é0803T020000Z\nEND:VEVENT\nEND:VCALENDAR\n";
    assert!(expand_schedule("s.ics", ics, d(2026, 8, 3), d(2026, 8, 19)).is_none());
}

#[test]
fn field_and_month_lookups() {
    assert_eq!(academic_dashboard::data::rrule::rrule_field("FREQ=WEEKLY;BYDAY=MO;UNTIL=X", "BYDAY"), Some("MO"));
    assert_eq!(academic_dashboard::data::rrule::rrule_field("FREQ=WEEKLY;BYDAYS=MO", "BYDAY"), None);
    assert_eq!(academic_dashboard::data::rrule::rrule_field("BYDAY", "BYDAY"), None);
    assert_eq!(academic_dashboard::data::exams::month_abbrev_to_num("SEP"), Some(9));
    assert_eq!(academic_dashboard::data::exams::month_abbrev_to_num("\u{17F}ep"), None);
    assert_eq!(academic_dashboard::data::exams::month_abbrev_to_num("sept"), None);
}

