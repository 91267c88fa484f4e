//! Readers and calculators behind a semester dashboard: activity metrics per day,
//! attendance limits, deadlines, exam and organisation calendars, class schedules,
//! sleep logs and streaks.
pub mod data;
