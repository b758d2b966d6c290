use timetrax::day::{Date, Day};
use timetrax::dirty::DirtyMarker;
use timetrax::interval::Interval;
use timetrax::time_of_day::TimeOfDay;

#[test]
fn dirty_marker_tracks_changes() {
    let mut marker = DirtyMarker::clean(42u32);
    assert!(!marker.is_dirty());
    marker.mark_dirty();
    assert!(marker.is_dirty());
    marker.mark_clean();
    assert!(!marker.is_dirty());
    let marker2 = DirtyMarker::dirty(7u32);
    assert!(marker2.is_dirty());
    assert_eq!(marker2.inner, 7);
}

#[test]
fn new_day_is_empty() {
    let day = Day::new(Date { year: 2024, month: 6, day: 1 });
    assert_eq!(day.inner.activities.len(), 0);
    assert_eq!(day.inner.blockers.len(), 0);
    assert_eq!(day.date.year, 2024);
}

#[test]
fn interval_duration_and_completion() {
    let open = Interval { start: TimeOfDay::from_hms(9, 0, 0), end: None };
    assert!(!open.is_complete());
    assert_eq!(open.duration(), None);
    let closed = Interval {
        start: TimeOfDay::from_hms(9, 0, 0),
        end: Some(TimeOfDay::from_hms(10, 30, 0)),
    };
    assert!(closed.is_complete());
    assert_eq!(closed.duration(), Some(90 * 60 * 1_000_000_000));
    assert_eq!(closed.end_time_or_end_of_day(), TimeOfDay::from_hms(10, 30, 0));
    let mut running = Interval::start_now();
    assert!(!running.is_complete());
    running.complete_now();
    assert!(running.is_complete());
}
