use academic_dashboard::data::attendance::{
    course_absence_counts, course_grading_dir, get_attendance_status,
};
use academic_dashboard::data::date::Date;
use academic_dashboard::data::deadlines::{
    read_classroom_deadlines, RawAssignment, RawClassroomData, RawCourse,
};
use academic_dashboard::data::exams::read_exam_events;
use academic_dashboard::data::github::read_github_contributions;
use academic_dashboard::data::grades::{load_all_gradings, read_grade_returns, GradeReturnEntry};
use academic_dashboard::data::org::read_org_events;
use academic_dashboard::data::rrule::expand_schedule;
use academic_dashboard::data::streak::load_holiday_days;
use academic_dashboard::data::todos::read_todo_completions;

const GITHUB_CSV: &str = "date,commits\n2026-08-04,5\n2026-08-05,2\n";

const TODOS_MD: &str = "- [x] Done todo <!-- id:: 1 done_at:: 2026-08-04 -->\n- [x] Another <!-- id:: 2 done_at:: 2026-08-06 -->\n";

const GRADE_RETURNS_JSON: &str = r#"{
    "returns": [
        {"course": "CS 101", "assignment": "Lab 1", "grade": 90.0, "max_points": 100.0, "detected_at": "2026-08-10T10:00:00+08:00"},
        {"course": "CS 101", "assignment": "Exam 1", "grade": 85.0, "max_points": 100.0, "detected_at": "2026-08-11T12:00:00+08:00"}
    ]
}"#;

const CS101_GRADING_MD: &str = "| Category | Weight |\n|---|---|\n| Exams | 100% |\n";

const ATTENDANCE_MD: &str = "# Attendance Log\n## Absences\n- 2026-08-05 | CS 101 | lecture |<!-- id:: 1 -->\n";

const CLASSROOM_JSON: &str = r#"{
    "courses": [
        {
            "name": "CS 101",
            "assignments": [
                {
                    "id": "1",
                    "title": "Exercise 1",
                    "due": "2026-08-15T15:59:59Z",
                    "max_points": 100.0,
                    "submitted": false,
                    "submission_state": "TURNED_IN"
                }
            ]
        }
    ]
}"#;

const NO_CLASS_DAYS_MD: &str = "## Official Holidays & Breaks (no classes)\n| Date | Day | Event |\n|---|---|---|\n| 2026-08-21 | Fri | Ninoy Aquino Day |\n";

const SCHEDULE_ICS: &str = "BEGIN:VCALENDAR\nBEGIN:VEVENT\nSUMMARY:[LEC] 101 ST\nDTSTART:20260804T000000Z\nDTEND:20260804T010000Z\nRRULE:FREQ=WEEKLY;BYDAY=TU;UNTIL=20260818T000000Z\nEND:VEVENT\nEND:VCALENDAR\n";

const EXAM_SEASONS_MD: &str = "| Course | Exam Type | Est. Week | Dates | Source |\n|---|---|---|---|---|\n| CS 101 | Lecture Exam 1 | Week 5 | Sep 3 (Wed) | guide |\n";

const RECRUITMENT_MD: &str = "## Timeline\n| Date | Day | Activities |\n|---|---|---|\n| Aug 12 | Wed | **Orientation** |\n";

fn d(y: i32, m: u32, day: u32) -> Date {
    Date::from_ymd_opt(y, m, day).unwrap()
}

fn text(v: &serde_json::Value, key: &str) -> String {
    v[key].as_str().unwrap().to_string()
}

fn grade_entries(json: &str) -> Vec<GradeReturnEntry> {
    let v: serde_json::Value = serde_json::from_str(json).unwrap();
    v["returns"]
        .as_array()
        .unwrap()
        .iter()
        .map(|r| GradeReturnEntry {
            course: text(r, "course"),
            assignment: text(r, "assignment"),
            detected_at: text(r, "detected_at"),
        })
        .collect()
}

fn classroom(json: &str) -> RawClassroomData {
    let v: serde_json::Value = serde_json::from_str(json).unwrap();
    let courses = v["courses"].as_array().map(|cs| {
        cs.iter()
            .map(|c| RawCourse {
                name: text(c, "name"),
                assignments: c["assignments"].as_array().map(|asg| {
                    asg.iter()
                        .map(|a| RawAssignment {
                            id: text(a, "id"),
                            title: text(a, "title"),
                            due: a["due"].as_str().map(|s| s.to_string()),
                            submitted: a["submitted"].as_bool().unwrap(),
                            submission_state: a["submission_state"].as_str().map(|s| s.to_string()),
                        })
                        .collect()
                }),
            })
            .collect()
    });
    RawClassroomData { courses }
}

#[test]
fn test_integration_mock_vault_read() {
    // GitHub
    let git = read_github_contributions("github-contributions.csv", GITHUB_CSV.as_bytes()).unwrap();
    assert_eq!(git.len(), 2);

    // Todos
    let todos = read_todo_completions(TODOS_MD);
    assert_eq!(todos.len(), 2);

    // Grades
    let gradings = load_all_gradings(&vec![(Some("CS101".to_string()), CS101_GRADING_MD.to_string())]);
    assert_eq!(gradings.len(), 1);
    let grades = read_grade_returns("grade-returns.json", &grade_entries(GRADE_RETURNS_JSON)).unwrap();
    assert_eq!(grades.len(), 2);

    // Attendance: the course's grading note (with no limits) sits under its directory
    let counts = course_absence_counts(ATTENDANCE_MD);
    assert_eq!(course_grading_dir(&counts[0].course), "CS101");
    let att = get_attendance_status(&counts, &vec![Some(CS101_GRADING_MD.to_string())]);
    assert_eq!(att.len(), 1);
    assert_eq!(att[0].course, "CS 101");
    assert_eq!(att[0].lecture_absences, 1);

    // Deadlines
    let dl = read_classroom_deadlines(&classroom(CLASSROOM_JSON));
    assert_eq!(dl.len(), 1);
    assert_eq!(dl[0].title, "Exercise 1");

    // Holidays
    let holidays = load_holiday_days(NO_CLASS_DAYS_MD);
    assert!(holidays.contains(&d(2026, 8, 21)));

    // Schedule
    let sched = expand_schedule("schedule.ics", SCHEDULE_ICS, d(2026, 8, 3), d(2026, 8, 20))
        .unwrap()
        .unwrap();
    assert_eq!(sched.len(), 3);

    // Exams
    let exams = read_exam_events(EXAM_SEASONS_MD);
    assert_eq!(exams.len(), 1);
    assert_eq!(exams[0].course, "CS 101");

    // Org events
    let org = read_org_events(Some(RECRUITMENT_MD));
    assert_eq!(org.len(), 1);
    assert_eq!(org[0].label, "Orientation");
}
