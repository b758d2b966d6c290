use timetrax::activity_class::{ActivityClass, ActivityClassInner};
use timetrax::day::DayInner;
use timetrax::activity::Activity;
use timetrax::identifier::{Identifier, IdentifierConvertError};
use timetrax::interval::Interval;
use timetrax::job_config::JobConfig;
use timetrax::project::{Project, ProjectInner};
use timetrax::render::{format_duration_hms, format_duration_pretty, format_time_of_day, format_u64,
    parse_time_of_day};
use timetrax::time_of_day::TimeOfDay;

#[test]
fn default_job_config_has_three_classes() {
    let job = JobConfig::default();
    assert_eq!(job.classes.len(), 3);
    assert_eq!(job.classes[0].inner.name, "work");
    assert_eq!(job.classes[0].inner.priority, 0);
    assert_eq!(job.classes[1].inner.name, "break");
    assert_eq!(job.classes[1].inner.priority, 5);
    assert_eq!(job.classes[2].inner.name, "holiday");
    assert_eq!(job.classes[2].inner.priority, 10);
    assert!(job.projects.is_empty());
}

#[test]
fn lowest_priority_keeps_first_among_ties() {
    let class = |id: u128, name: &str, priority: i32| ActivityClass {
        id,
        inner: ActivityClassInner {
            name: name.to_string(),
            priority,
            description: None,
        },
    };
    let job = JobConfig {
        classes: vec![class(1, "first", 3), class(2, "second", 3), class(3, "third", 5)],
        projects: vec![],
    };
    let lowest = job.lowest_priority_class();
    assert_eq!(lowest.id, 1);
    assert_eq!(lowest.inner.name, "first");
}

#[test]
fn add_and_remove_class() {
    let mut job = JobConfig { classes: vec![], projects: vec![] };
    let class = ActivityClass {
        id: 9,
        inner: ActivityClassInner {
            name: "work".to_string(),
            priority: 1,
            description: None,
        },
    };
    assert!(job.add_class(class.clone()));
    // a second class under the same name is refused
    assert!(!job.add_class(class.clone()));
    assert_eq!(job.classes.len(), 1);
    assert!(!job.remove_class(&Identifier::ByName("other".to_string())));
    assert!(job.remove_class(&Identifier::Uuid(9)));
    assert!(job.classes.is_empty());
}

#[test]
fn add_and_remove_project() {
    let mut job = JobConfig { classes: vec![], projects: vec![] };
    let project = Project {
        id: 4,
        inner: ProjectInner { name: "garden".to_string(), description: None },
    };
    assert!(job.add_project(project.clone()));
    assert!(!job.add_project(project));
    assert!(job.remove_project(&Identifier::ByName("garden".to_string())));
    assert!(job.projects.is_empty());
}

#[test]
fn identifier_parsing() {
    assert_eq!(
        Identifier::from_str("@work"),
        Ok(Identifier::ByName("work".to_string()))
    );
    assert_eq!(Identifier::from_str(""), Err(IdentifierConvertError::Empty));
    assert_eq!(
        Identifier::from_str("not a uuid"),
        Err(IdentifierConvertError::UuidFormat)
    );
    assert_eq!(
        Identifier::from_str("00000000-0000-0000-0000-000000000001"),
        Ok(Identifier::Uuid(1))
    );
}

#[test]
fn duration_rendering() {
    let hour: i64 = 3_600_000_000_000;
    let minute: i64 = 60_000_000_000;
    let second: i64 = 1_000_000_000;
    assert_eq!(format_duration_pretty(hour + minute + 30 * second, true), "1h 1m 30s");
    assert_eq!(format_duration_pretty(hour + minute + 30 * second, false), "1h 1m ");
    assert_eq!(format_duration_pretty(-(2 * minute), true), "-2m 0s");
    assert_eq!(format_duration_pretty(0, true), "");
    assert_eq!(format_duration_pretty(45 * second, true), "45s");
    assert_eq!(format_u64(907), "907");
    assert_eq!(format_duration_hms(2 * hour + 3 * minute + 4 * second),
        Some("02h 03m 04s".to_string()));
    assert_eq!(format_duration_hms(100 * hour), Some("100h 00m 00s".to_string()));
    assert_eq!(format_duration_hms(-second), None);
    assert_eq!(format_time_of_day(TimeOfDay::from_hms(7, 5, 9)), "07:05:09");
}

#[test]
fn time_text_round_trip() {
    let t = TimeOfDay::from_hms(23, 59, 7);
    assert_eq!(parse_time_of_day(&format_time_of_day(t)), Some(t));
    assert_eq!(parse_time_of_day("09:30:00"), Some(TimeOfDay::from_hms(9, 30, 0)));
    assert_eq!(parse_time_of_day("24:00:00"), None);
    assert_eq!(parse_time_of_day("12:60:00"), None);
    assert_eq!(parse_time_of_day("12:00"), None);
    assert_eq!(parse_time_of_day("ab:cd:ef"), None);
}

#[test]
fn complete_latest_open_picks_latest_start() {
    let open = |h: u8| Activity {
        id: 0,
        name: None,
        class: Identifier::Uuid(1),
        time: Interval { start: TimeOfDay::from_hms(h, 0, 0), end: None },
        description: None,
        projects: vec![],
    };
    let mut day = DayInner {
        blockers: vec![],
        activities: vec![open(9), open(11), open(10)],
    };
    let now = TimeOfDay::from_hms(12, 0, 0);
    let picked = day.complete_latest_open(now);
    assert_eq!(picked, Some(1));
    assert_eq!(day.activities[1].time.end, Some(now));
    assert_eq!(day.activities[0].time.end, None);
    assert_eq!(day.activities[2].time.end, None);
    // nothing open once all have ended
    day.complete_latest_open(now);
    day.complete_latest_open(now);
    assert_eq!(day.complete_latest_open(now), None);
}
