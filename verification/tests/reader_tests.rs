use academic_dashboard::data::attendance::read_attendance_absences;
use academic_dashboard::data::calendar::date_to_canonical_week;
use academic_dashboard::data::date::{Date, Time};
use academic_dashboard::data::deadlines::{
    read_classroom_deadlines, RawAssignment, RawClassroomData, RawCourse,
};
use academic_dashboard::data::exams::read_exam_events;
use academic_dashboard::data::github::read_github_contributions;
use academic_dashboard::data::gradejoin::{match_grade_to_component, normalize_course, GradingComponent};
use academic_dashboard::data::grades::parse_grading_md;
use academic_dashboard::data::org::read_org_events;
use academic_dashboard::data::rrule::{parse_ics_datetime_utc8, rrule_field};
use academic_dashboard::data::sleep::{read_sleep_log, SleepEntry};
use academic_dashboard::data::streak::{compute_streak, parse_date_cell};
use academic_dashboard::data::todos::read_todo_completions;
use academic_dashboard::data::MetricKind;

fn d(y: i32, m: u32, day: u32) -> Date {
    Date::from_ymd_opt(y, m, day).unwrap()
}

fn t(h: u32, m: u32, s: u32) -> Time {
    Time::from_hms_opt(h, m, s).unwrap()
}

fn days(dates: &[(i32, u32, u32)]) -> Vec<Date> {
    dates.iter().map(|&(y, m, day)| d(y, m, day)).collect()
}

fn no_holidays() -> Vec<Date> {
    Vec::new()
}

fn hours(entry: &SleepEntry) -> Option<f64> {
    entry.duration_seconds().map(|s| s as f64 / 3600.0)
}

#[test]
fn test_parse_attendance() {
    let content = "# Attendance Log\n## Absences\n- 2026-08-11 | CS 101 | lecture |  |  <!-- id:: 1 -->\n- 2026-08-12 | CS 101 | lab |  |  <!-- id:: 2 -->\n";
    let absences = read_attendance_absences(content);
    assert_eq!(absences.len(), 2);
    assert_eq!(absences[0].value, 1);
    assert_eq!(absences[0].kind, MetricKind::Attendance);
}

#[test]
fn test_date_to_canonical_week() {
    // Week 1
    assert_eq!(date_to_canonical_week(d(2026, 8, 3)), Some(1));
    assert_eq!(date_to_canonical_week(d(2026, 8, 9)), Some(1));

    // Week 2
    assert_eq!(date_to_canonical_week(d(2026, 8, 10)), Some(2));

    // Before semester
    assert_eq!(date_to_canonical_week(d(2026, 8, 2)), None);

    // After week 18 (Dec 6, 2026)
    assert_eq!(date_to_canonical_week(d(2026, 12, 7)), None);
}

#[test]
fn test_read_classroom_deadlines() {
    let data = RawClassroomData {
        courses: Some(vec![RawCourse {
            name: "CS 101 SEC-A".to_string(),
            assignments: Some(vec![RawAssignment {
                id: "1".to_string(),
                title: "Ex 1".to_string(),
                due: Some("2026-08-10T12:00:00Z".to_string()),
                submitted: false,
                submission_state: Some("assigned".to_string()),
            }]),
        }]),
    };
    let deadlines = read_classroom_deadlines(&data);
    assert_eq!(deadlines.len(), 1);
    assert_eq!(deadlines[0].course, "CS 101 SEC-A");
    // Verify Manila conversion: 2026-08-10T12:00:00Z -> 2026-08-10T20:00:00+08:00
    assert_eq!(deadlines[0].due.to_rfc3339(), "2026-08-10T20:00:00+08:00");
}

#[test]
fn test_read_exam_events() {
    let content = "# Exam Seasons\n| Course | Exam Type | Est. Week | Dates | Source |\n|---|---|---|---|---|\n| CS 101 | Lecture Exam 1 | Week 5 | Sep 3 (Wed) | course guide |\n| CS 102 | Exam 1 | Week 8 | Sep 25 (7–9 PM) | course site |\n| CS 103 | — | — | — | TBD |\n";
    let events = read_exam_events(content);
    // Exam entries (non-dash-date) should be parsed
    let with_date: Vec<_> = events.iter().filter(|e| e.date.is_some()).collect();
    assert_eq!(with_date.len(), 2);
    assert_eq!(with_date[0].date.unwrap(), d(2026, 9, 3));
    assert_eq!(with_date[0].course, "CS 101");
    assert_eq!(with_date[1].date.unwrap(), d(2026, 9, 25));
    assert_eq!(with_date[1].course, "CS 102");
}

#[test]
fn test_read_github_contributions() {
    let content = "date,contributions\n2026-07-01,32\n2026-07-02,14\n";
    let metrics = read_github_contributions("github.csv", content.as_bytes()).unwrap();
    assert_eq!(metrics.len(), 2);
    assert_eq!(metrics[0].date, d(2026, 7, 1));
    assert_eq!(metrics[0].value, 32);
    assert_eq!(metrics[0].kind, MetricKind::Github);
}

#[test]
fn test_normalize_course() {
    assert_eq!(normalize_course("CMSC 124 ST-4L"), "CMSC 124");
    assert_eq!(normalize_course("CMSC 124 1st Sem 2026-2027"), "CMSC 124");
    assert_eq!(normalize_course("CMSC 132 Lab"), "CMSC 132");
    assert_eq!(normalize_course("comm 10"), "COMM 10");
}

#[test]
fn test_match_grade_to_component() {
    let components = vec![
        GradingComponent {
            name: "Quizzes".to_string(),
            weight_percent: "10".to_string(),
            category: "Lecture".to_string(),
        },
        GradingComponent {
            name: "Lab Exercises".to_string(),
            weight_percent: "35".to_string(),
            category: "Lab".to_string(),
        },
        GradingComponent {
            name: "Project".to_string(),
            weight_percent: "15".to_string(),
            category: "Lab".to_string(),
        },
    ];

    // Quiz mapping
    let matched = match_grade_to_component(
        "CMSC 124 1st Sem 2026-2027",
        "Quiz 01 - Programming Languages and Categories",
        &components,
    );
    assert_eq!(matched.unwrap().name, "Quizzes");

    // Lab Exercise mapping
    let matched = match_grade_to_component("CMSC 124 ST-4L", "EXERCISE 1: COBOL", &components);
    assert_eq!(matched.unwrap().name, "Lab Exercises");
}

#[test]
fn test_parse_grading_md() {
    let content = "---\ntype: grading\ncourse: \"CMSC 124\"\n---\n| Component | Weight | Category |\n|---|---|---|\n| Quizzes | 10% | Lecture |\n| Lab Exercises | 35% | Lab |\n";
    let grading = parse_grading_md(content, Some("CMSC124"));
    assert_eq!(grading.course_name, "CMSC 124");
    assert_eq!(grading.components.len(), 2);
    assert_eq!(grading.components[0].name, "Quizzes");
    assert_eq!(grading.components[0].weight_percent.parse::<f64>().unwrap(), 10.0);
}

#[test]
fn test_parse_recruitment_table() {
    let content = "## Timeline (Aug 11 – Sep 5)\n| Date | Day | Activities |\n|---|---|---|\n| Aug 12 | Wed | **Orientation** |\n| Aug 17 | Mon | Fam Dinner, Reporting starts |\n| Sep 5 | Sat | **Finals**, **Acceptance Rites** |\n";
    let events = read_org_events(Some(content));
    assert_eq!(events.len(), 3);
    assert_eq!(events[0].date, d(2026, 8, 12));
    assert_eq!(events[0].label, "Orientation");
    assert_eq!(events[1].date, d(2026, 8, 17));
    assert!(events[1].label.contains("Fam Dinner") || events[1].label == "Fam Dinner");
    assert_eq!(events[2].date, d(2026, 9, 5));
}

#[test]
fn test_parse_ics_datetime_utc8() {
    // 2026-08-03 02:00:00Z → Manila 2026-08-03 10:00
    let (day, time) = parse_ics_datetime_utc8("20260803T020000Z").unwrap();
    assert_eq!(day, d(2026, 8, 3));
    assert_eq!(time, t(10, 0, 0));
}

#[test]
fn test_parse_ics_datetime_day_rollover() {
    // 23:00 UTC + 8h = 07:00 next day
    let (day, time) = parse_ics_datetime_utc8("20260803T230000Z").unwrap();
    assert_eq!(day, d(2026, 8, 4));
    assert_eq!(time, t(7, 0, 0));
}

#[test]
fn test_rrule_field() {
    let r = "FREQ=WEEKLY;BYDAY=MO;UNTIL=20261207T155959Z";
    assert_eq!(rrule_field(r, "BYDAY"), Some("MO"));
    assert_eq!(rrule_field(r, "FREQ"), Some("WEEKLY"));
    assert_eq!(rrule_field(r, "UNTIL"), Some("20261207T155959Z"));
    assert_eq!(rrule_field(r, "ABSENT"), None);
}

#[test]
fn test_read_sleep_log() {
    let content = "date,wake_time,bed_time,notes\n\"2026-07-29\",\"18:00\",\"02:00\",\"Late night session\"\n\"2026-07-30\",\"10:00\",\"23:00\",\"\"\n";
    let entries = read_sleep_log("sleep-log.csv", content.as_bytes()).unwrap();
    assert_eq!(entries.len(), 2);
    assert_eq!(entries[0].date, d(2026, 7, 29));
    assert_eq!(entries[0].wake_time, Time::from_hms_opt(18, 0, 0));
    assert_eq!(entries[0].bed_time, Time::from_hms_opt(2, 0, 0));
    // Cross-midnight: 18:00 wake → 02:00 bed = 8 hours
    let dur = hours(&entries[0]).unwrap();
    assert!((dur - 8.0).abs() < 0.001, "expected 8h, got {}", dur);
}

#[test]
fn test_duration_same_day() {
    let entry = SleepEntry {
        date: d(2026, 8, 1),
        wake_time: Time::from_hms_opt(10, 0, 0),
        bed_time: Time::from_hms_opt(23, 0, 0),
        notes: String::new(),
    };
    let dur = hours(&entry).unwrap();
    assert!((dur - 13.0).abs() < 0.001);
}

#[test]
fn test_plain_consecutive_streak() {
    let active = days(&[(2026, 8, 3), (2026, 8, 4), (2026, 8, 5), (2026, 8, 6), (2026, 8, 7)]);
    let result = compute_streak(&active, &no_holidays(), d(2026, 8, 3), d(2026, 8, 7));
    assert_eq!(result.current_streak, 5);
    assert_eq!(result.best_streak, 5);
    assert!(result.freeze_days.is_empty());
    assert!(result.holiday_protected_days.is_empty());
}

#[test]
fn test_miss_consumes_freeze() {
    // 2026-08-03 Mon … 2026-08-08 Sat (one ISO week)
    let active = days(&[(2026, 8, 3), (2026, 8, 4), (2026, 8, 5), (2026, 8, 6), (2026, 8, 8)]);
    let result = compute_streak(&active, &no_holidays(), d(2026, 8, 3), d(2026, 8, 8));
    assert_eq!(result.current_streak, 5, "freeze keeps chain alive; active count = 5");
    assert_eq!(result.best_streak, 5);
    assert_eq!(result.freeze_days, vec![d(2026, 8, 7)]);
}

#[test]
fn test_holiday_protection_no_freeze() {
    let active = days(&[(2026, 8, 3), (2026, 8, 4), (2026, 8, 5), (2026, 8, 6), (2026, 8, 8)]);
    let holidays = days(&[(2026, 8, 7)]);
    let result = compute_streak(&active, &holidays, d(2026, 8, 3), d(2026, 8, 8));
    assert_eq!(result.current_streak, 5);
    assert!(result.freeze_days.is_empty(), "holiday must NOT consume the freeze");
    assert_eq!(result.holiday_protected_days, vec![d(2026, 8, 7)]);
}

#[test]
fn test_two_misses_same_week_breaks_streak() {
    let active = days(&[(2026, 8, 3), (2026, 8, 4)]);
    let result = compute_streak(&active, &no_holidays(), d(2026, 8, 3), d(2026, 8, 6));
    assert_eq!(result.current_streak, 0, "second miss must break streak");
    assert_eq!(result.best_streak, 2);
    assert_eq!(result.freeze_days.len(), 1);
    assert_eq!(result.freeze_days[0], d(2026, 8, 5));
}

#[test]
fn test_chronotype_shift_lands_on_holiday() {
    let active = days(&[(2026, 8, 3), (2026, 8, 4), (2026, 8, 5), (2026, 8, 6)]);
    let holidays = days(&[(2026, 8, 4)]);
    let result = compute_streak(&active, &holidays, d(2026, 8, 3), d(2026, 8, 6));
    assert_eq!(result.current_streak, 4);
    assert!(result.freeze_days.is_empty());
}

#[test]
fn test_parse_date_cell_range() {
    let mut out: Vec<Date> = Vec::new();
    let cell: Vec<char> = "2026-10-29 → 10-31".chars().collect();
    parse_date_cell(&cell, &mut out);
    assert!(out.contains(&d(2026, 10, 29)));
    assert!(out.contains(&d(2026, 10, 30)));
    assert!(out.contains(&d(2026, 10, 31)));
    assert_eq!(out.len(), 3);
}

#[test]
fn test_parse_date_cell_cross_year_range() {
    let mut out: Vec<Date> = Vec::new();
    let cell: Vec<char> = "2026-12-31 → 2027-01-01".chars().collect();
    parse_date_cell(&cell, &mut out);
    assert!(out.contains(&d(2026, 12, 31)));
    assert!(out.contains(&d(2027, 1, 1)));
    assert_eq!(out.len(), 2);
}

#[test]
fn test_read_todo_completions() {
    let content = "# SMON OS TODO\n- [x] Task 1 <!-- id:: 1 done_at:: 2026-08-01 -->\n- [x] Task 2 <!-- id:: 2 done_at:: 2026-08-01 -->\n- [x] Task 3 <!-- id:: 3 done_at:: 2026-08-02 -->\n- [ ] Task 4 <!-- id:: 4 -->\n";
    let metrics = read_todo_completions(content);
    assert_eq!(metrics.len(), 2);
    assert_eq!(metrics[0].date, d(2026, 8, 1));
    assert_eq!(metrics[0].value, 2);
    assert_eq!(metrics[1].date, d(2026, 8, 2));
    assert_eq!(metrics[1].value, 1);
}
