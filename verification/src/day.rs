use vstd::prelude::*;
use crate::activity::{Activity, ActivityView};
use crate::identifier::Identifier;
use crate::interval::Interval;
use crate::time_of_day::TimeOfDay;

verus! {

/// A calendar date, as plain year, month and day numbers.
#[derive(Debug, Clone, Copy, PartialEq, Eq, Structural)]
pub struct Date {
    pub year: i32,
    pub month: u8,
    pub day: u8,
}

/// A fixed amount of time credited to the day without a recorded
/// activity.
#[derive(Debug, Clone)]
pub struct Blocker {
    /// Unique id, used for editing reference.
    pub id: u128,
    /// Optional name.
    pub name: Option<String>,
    /// Classification of the blocked time.
    pub class: Identifier,
    /// Blocked time span.
    pub time: Interval,
    /// Projects concerned.
    pub projects: Vec<Identifier>,
}

/// The data recorded for one day, without its date.
#[derive(Debug, Clone)]
pub struct DayInner {
    /// Blockers.
    pub blockers: Vec<Blocker>,
    /// Activities.
    pub activities: Vec<Activity>,
}

impl Default for DayInner {
    fn default() -> (r: Self)
        ensures
            r.blockers@.len() == 0,
            r.activities@.len() == 0,
    {
        Self { blockers: Vec::new(), activities: Vec::new() }
    }
}

/// One tracked day: its date and its recorded data.
#[derive(Debug, Clone)]
pub struct Day {
    /// Date of the day.
    pub date: Date,
    /// Data.
    pub inner: DayInner,
}

impl Day {
    /// Create a new day with no recorded data.
    pub fn new(date: Date) -> (r: Self)
        ensures
            r.date == date,
            r.inner.blockers@.len() == 0,
            r.inner.activities@.len() == 0,
    {
        Self { date, inner: DayInner { blockers: Vec::new(), activities: Vec::new() } }
    }
}

impl DayInner {
    /// Completes the open activity that started last (the latest entry
    /// among equal starts), at the given instant; reports its position,
    /// or nothing when every activity has already ended.
    pub fn complete_latest_open(&mut self, now: TimeOfDay) -> (r: Option<usize>)
        ensures
            final(self).blockers == old(self).blockers,
            final(self).activities@.len() == old(self).activities@.len(),
            match r {
                Some(i) => {
                    let acts = old(self).activities@;
                    &&& 0 <= i < acts.len()
                    &&& acts[i as int].time.end is None
                    &&& forall|k: int| 0 <= k < acts.len() && k != i
                        ==> final(self).activities@[k]@ == (#[trigger] acts[k])@
                    &&& final(self).activities@[i as int]@ == (ActivityView {
                        time: Interval { start: acts[i as int].time.start, end: Some(now) },
                        ..acts[i as int]@
                    })
                    &&& forall|k: int| 0 <= k < acts.len()
                        && (#[trigger] acts[k]).time.end is None
                        ==> acts[k].time.start.nanos < acts[i as int].time.start.nanos
                            || (acts[k].time.start.nanos == acts[i as int].time.start.nanos
                                && k <= i)
                },
                None => {
                    &&& forall|k: int| 0 <= k < old(self).activities@.len()
                        ==> (#[trigger] old(self).activities@[k]).time.end is Some
                    &&& forall|k: int| 0 <= k < old(self).activities@.len()
                        ==> final(self).activities@[k]@
                            == (#[trigger] old(self).activities@[k])@
                },
            },
    {
        let ghost acts = self.activities@;
        let mut found: Option<usize> = None;
        let mut k: usize = 0;
        while k < self.activities.len()
            invariant
                0 <= k <= self.activities@.len(),
                acts == self.activities@,
                match found {
                    Some(i) => {
                        &&& 0 <= i < k
                        &&& acts[i as int].time.end is None
                        &&& forall|p: int| 0 <= p < k
                            && (#[trigger] acts[p]).time.end is None
                            ==> acts[p].time.start.nanos < acts[i as int].time.start.nanos
                                || (acts[p].time.start.nanos
                                    == acts[i as int].time.start.nanos && p <= i)
                    },
                    None => forall|p: int| 0 <= p < k
                        ==> (#[trigger] acts[p]).time.end is Some,
                },
            decreases self.activities@.len() - k,
        {
            if !self.activities[k].time.is_complete() {
                let replace = match found {
                    Option::Some(i) => self.activities[k].time.start.nanos
                        >= self.activities[i].time.start.nanos,
                    Option::None => true,
                };
                if replace {
                    found = Some(k);
                }
            }
            k = k + 1;
        }
        match found {
            Option::None => None,
            Option::Some(i) => {
                let mut updated: Vec<Activity> = Vec::new();
                let mut p: usize = 0;
                while p < self.activities.len()
                    invariant
                        0 <= p <= self.activities@.len(),
                        acts == self.activities@,
                        0 <= i < acts.len(),
                        acts[i as int].time.end is None,
                        updated@.len() == p,
                        forall|q: int| 0 <= q < p && q != i
                            ==> updated@[q]@ == (#[trigger] acts[q])@,
                        i < p ==> updated@[i as int]@ == (ActivityView {
                            time: Interval {
                                start: acts[i as int].time.start,
                                end: Some(now),
                            },
                            ..acts[i as int]@
                        }),
                    decreases self.activities@.len() - p,
                {
                    let mut copy = self.activities[p].duplicate();
                    if p == i {
                        copy.time.end = Some(now);
                    }
                    updated.push(copy);
                    p = p + 1;
                }
                self.activities = updated;
                Some(i)
            },
        }
    }
}

} // verus!
