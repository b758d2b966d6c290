use timetrax::activity::Activity;
use timetrax::activity_class::{ActivityClass, ActivityClassInner};
use timetrax::identifier::Identifier;
use timetrax::interval::Interval;
use timetrax::job_config::JobConfig;
use timetrax::time_of_day::TimeOfDay;

fn job_config_with_work_and_break() -> JobConfig {
    JobConfig {
        classes: vec![
            ActivityClass {
                id: 1,
                inner: ActivityClassInner {
                    name: "work".into(),
                    priority: 1,
                    description: None,
                },
            },
            ActivityClass {
                id: 2,
                inner: ActivityClassInner {
                    name: "break".into(),
                    priority: 2,
                    description: None,
                },
            },
        ],
        projects: vec![],
    }
}

fn activity(name: &str, class: &str, start: (u8, u8, u8), end: Option<(u8, u8, u8)>)
    -> Activity {
    Activity {
        id: 0,
        name: Some(name.to_string()),
        class: Identifier::ByName(class.to_string()),
        time: Interval {
            start: TimeOfDay::from_hms(start.0, start.1, start.2),
            end: end.map(|(h, m, s)| TimeOfDay::from_hms(h, m, s)),
        },
        description: None,
        projects: vec![],
    }
}

#[test]
fn test_fold_activities() {
    let job_config = job_config_with_work_and_break();
    let work_day = activity("Working at the office", "work", (9, 0, 0), Some((18, 0, 0)));
    let break_time = activity("Lunch break", "break", (12, 0, 0), Some((13, 0, 0)));
    let project_meeting = activity("Project meeting", "work", (10, 0, 0), Some((11, 0, 0)));
    let project_meeting2 = activity("Project meeting 2", "work", (10, 30, 0),
        Some((11, 30, 0)));
    let project_meeting3 = activity("Project meeting 3", "work", (13, 0, 0),
        Some((14, 0, 0)));

    let day = vec![
        work_day,
        break_time,
        project_meeting,
        project_meeting2,
        project_meeting3,
    ];

    let closure = Activity::calculate_activity_closure(&job_config, &day, None, None);
    for activity in &closure {
        println!(" - {}", activity.display_string());
    }

    assert_eq!(closure.len(), 8);
    assert_eq!(
        closure[0].display_string(),
        "09:00:00 - 10:00:00: Working at the office"
    );
    assert_eq!(closure[0].class, Identifier::Uuid(1));
    assert_eq!(
        closure[1].display_string(),
        "10:00:00 - 10:30:00: Project meeting; Working at the office"
    );
    assert_eq!(closure[1].class, Identifier::Uuid(1));
    assert_eq!(
        closure[2].display_string(),
        "10:30:00 - 11:00:00: Project meeting; Project meeting 2; Working at the office"
    );
    assert_eq!(closure[2].class, Identifier::Uuid(1));
    assert_eq!(
        closure[3].display_string(),
        "11:00:00 - 11:30:00: Project meeting 2; Working at the office"
    );
    assert_eq!(closure[3].class, Identifier::Uuid(1));
    assert_eq!(
        closure[4].display_string(),
        "11:30:00 - 12:00:00: Working at the office"
    );
    assert_eq!(closure[4].class, Identifier::Uuid(1));
    assert_eq!(
        closure[5].display_string(),
        "12:00:00 - 13:00:00: Lunch break; Working at the office"
    );
    assert_eq!(closure[5].class, Identifier::Uuid(2));
    assert_eq!(
        closure[6].display_string(),
        "13:00:00 - 14:00:00: Project meeting 3; Working at the office"
    );
    assert_eq!(closure[6].class, Identifier::Uuid(1));
    assert_eq!(
        closure[7].display_string(),
        "14:00:00 - 18:00:00: Working at the office"
    );
    assert_eq!(closure[7].class, Identifier::Uuid(1));
}

#[test]
fn empty_input_yields_empty_closure() {
    let job_config = job_config_with_work_and_break();
    let day: Vec<Activity> = vec![];
    let closure = Activity::calculate_activity_closure(&job_config, &day, None, None);
    assert_eq!(closure.len(), 0);
}

#[test]
fn single_open_activity_yields_open_segment() {
    let job_config = job_config_with_work_and_break();
    let day = vec![activity("Working at the office", "work", (9, 0, 0), None)];
    let closure = Activity::calculate_activity_closure(&job_config, &day, None, None);
    assert_eq!(closure.len(), 1);
    assert_eq!(closure[0].time.start, TimeOfDay::from_hms(9, 0, 0));
    assert_eq!(closure[0].time.end, None);
    assert_eq!(
        closure[0].display_string(),
        "09:00:00 - <OPEN>: Working at the office"
    );
}

#[test]
fn disjoint_input_passes_through() {
    let job_config = job_config_with_work_and_break();
    let day = vec![
        activity("B", "work", (3, 0, 0), Some((4, 0, 0))),
        activity("A", "work", (1, 0, 0), Some((2, 0, 0))),
    ];
    let closure = Activity::calculate_activity_closure(&job_config, &day, None, None);
    assert_eq!(closure.len(), 2);
    assert_eq!(closure[0].time.start, TimeOfDay::from_hms(1, 0, 0));
    assert_eq!(closure[0].time.end, Some(TimeOfDay::from_hms(2, 0, 0)));
    assert_eq!(closure[0].name, Some("A".to_string()));
    assert_eq!(closure[1].time.start, TimeOfDay::from_hms(3, 0, 0));
    assert_eq!(closure[1].time.end, Some(TimeOfDay::from_hms(4, 0, 0)));
    assert_eq!(closure[1].name, Some("B".to_string()));
}

#[test]
fn window_clamp_truncates_and_drops() {
    let job_config = job_config_with_work_and_break();
    let day = vec![
        activity("Working at the office", "work", (9, 0, 0), Some((18, 0, 0))),
        activity("Early", "work", (6, 0, 0), Some((7, 0, 0))),
    ];
    let closure = Activity::calculate_activity_closure(&job_config, &day,
        Some(TimeOfDay::from_hms(10, 0, 0)), Some(TimeOfDay::from_hms(12, 30, 0)));
    assert_eq!(closure.len(), 1);
    assert_eq!(closure[0].time.start, TimeOfDay::from_hms(10, 0, 0));
    assert_eq!(closure[0].time.end, Some(TimeOfDay::from_hms(12, 30, 0)));
}

#[test]
fn empty_window_yields_empty_closure() {
    let job_config = job_config_with_work_and_break();
    let day = vec![activity("Working at the office", "work", (9, 0, 0), Some((18, 0, 0)))];
    let closure = Activity::calculate_activity_closure(&job_config, &day,
        Some(TimeOfDay::from_hms(12, 0, 0)), Some(TimeOfDay::from_hms(12, 0, 0)));
    assert_eq!(closure.len(), 0);
}

#[test]
fn fold_inner_of_nothing_is_none() {
    let job_config = job_config_with_work_and_break();
    let none: Vec<Activity> = vec![];
    assert!(Activity::fold_inner(&job_config, &none, None, None).is_none());
}

#[test]
fn fold_inner_merges_and_clamps() {
    let job_config = job_config_with_work_and_break();
    let both = vec![
        activity("Working at the office", "work", (9, 0, 0), Some((18, 0, 0))),
        activity("Lunch break", "break", (12, 0, 0), Some((13, 0, 0))),
    ];
    let folded = Activity::fold_inner(&job_config, &both, None, None).unwrap();
    // latest start, earliest defined end, highest priority class
    assert_eq!(folded.time.start, TimeOfDay::from_hms(12, 0, 0));
    assert_eq!(folded.time.end, Some(TimeOfDay::from_hms(13, 0, 0)));
    assert_eq!(folded.class, Identifier::Uuid(2));
    assert_eq!(
        folded.name,
        Some("Lunch break; Working at the office".to_string())
    );

    // an upper bound below the merged start makes the fold collapse
    let collapsed = Activity::fold_inner(&job_config, &both, None,
        Some(TimeOfDay::from_hms(11, 0, 0)));
    assert!(collapsed.is_none());
}

#[test]
fn fold_inner_deduplicates_names_and_projects() {
    let job_config = job_config_with_work_and_break();
    let mut first = activity("Same", "work", (9, 0, 0), Some((10, 0, 0)));
    first.projects = vec![Identifier::ByName("p2".to_string()), Identifier::Uuid(7)];
    let mut second = activity("Same", "work", (9, 30, 0), Some((10, 0, 0)));
    second.projects = vec![Identifier::ByName("p1".to_string()), Identifier::Uuid(7)];
    let folded = Activity::fold_inner(&job_config, &vec![first, second], None, None)
        .unwrap();
    assert_eq!(folded.name, Some("Same".to_string()));
    assert_eq!(
        folded.projects,
        vec![
            Identifier::Uuid(7),
            Identifier::ByName("p1".to_string()),
            Identifier::ByName("p2".to_string()),
        ]
    );
}

#[test]
fn unresolved_class_falls_back_to_lowest_priority() {
    let job_config = job_config_with_work_and_break();
    let stale = activity("Ghost", "deleted", (9, 0, 0), Some((10, 0, 0)));
    let folded = Activity::fold_inner(&job_config, &vec![stale], None, None).unwrap();
    // the lowest-priority class of the registry is "work" with id 1
    assert_eq!(folded.class, Identifier::Uuid(1));
}

#[test]
fn lowest_priority_class_of_empty_registry_is_dummy() {
    let job_config = JobConfig { classes: vec![], projects: vec![] };
    let lowest = job_config.lowest_priority_class();
    assert_eq!(lowest.id, 0);
    assert_eq!(lowest.inner.priority, 0);
    assert_eq!(lowest.inner.name, "<UNDEFINED>");
}

#[test]
fn resolve_class_finds_first_match() {
    let job_config = job_config_with_work_and_break();
    let by_name = job_config
        .resolve_class(&Identifier::ByName("break".to_string()))
        .unwrap();
    assert_eq!(by_name.id, 2);
    let by_id = job_config.resolve_class(&Identifier::Uuid(1)).unwrap();
    assert_eq!(by_id.inner.name, "work");
    assert!(job_config
        .resolve_class(&Identifier::ByName("missing".to_string()))
        .is_none());
}
