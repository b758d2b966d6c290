use vstd::prelude::*;
use crate::time_of_day::TimeOfDay;

verus! {

/// A time interval within one day; an absent end means the interval is
/// still open (the activity is still running).
#[derive(Clone, Copy, Debug, PartialEq, Eq)]
pub struct Interval {
    pub start: TimeOfDay,
    pub end: Option<TimeOfDay>,
}

impl Interval {
    /// Both bounds represent real times of day.
    pub open spec fn has_valid_times(self) -> bool {
        &&& self.start.is_valid()
        &&& match self.end {
            Some(e) => e.is_valid(),
            None => true,
        }
    }

    /// Well-formed input data: valid times, and the end (when present) not
    /// before the start. Inputs are not required to satisfy this; results
    /// about the closure assume it.
    pub open spec fn is_well_formed(self) -> bool {
        &&& self.has_valid_times()
        &&& match self.end {
            Some(e) => self.start.nanos <= e.nanos,
            None => true,
        }
    }

    /// The end used for ordering: the defined end, or the last instant of
    /// the day for an open interval.
    pub open spec fn spec_effective_end(self) -> TimeOfDay {
        match self.end {
            Some(e) => e,
            None => TimeOfDay::spec_max(),
        }
    }

    /// The instants the interval covers, as a half-open range.
    pub open spec fn covers(self, t: int) -> bool {
        self.start.nanos <= t < self.spec_effective_end().nanos
    }

    /// Signed length in nanoseconds, defined only once the interval ended.
    pub fn duration(&self) -> (r: Option<i64>)
        requires
            self.has_valid_times(),
        ensures
            match self.end {
                Some(e) => r == Some((e.nanos - self.start.nanos) as i64),
                None => r is None,
            },
    {
        match self.end {
            Some(end_time) => Some(end_time.nanos as i64 - self.start.nanos as i64),
            None => None,
        }
    }

    /// Whether the interval has ended.
    pub fn is_complete(&self) -> (r: bool)
        ensures
            r == (self.end is Some),
    {
        self.end.is_some()
    }

    /// The defined end, or the last instant of the day when open.
    pub fn end_time_or_end_of_day(&self) -> (r: TimeOfDay)
        ensures
            r == self.spec_effective_end(),
    {
        match self.end {
            Some(e) => e,
            None => TimeOfDay::max(),
        }
    }

    /// An open interval starting at the given instant.
    pub fn starting_at(t: TimeOfDay) -> (r: Self)
        ensures
            r.start == t,
            r.end is None,
    {
        Self { start: t, end: None }
    }

    /// Completes the interval at the given instant; an interval that has
    /// already ended is left as it is.
    pub fn complete_at(&mut self, t: TimeOfDay)
        ensures
            final(self).start == old(self).start,
            match old(self).end {
                Some(_) => final(self).end == old(self).end,
                None => final(self).end == Some(t),
            },
    {
        if self.end.is_none() {
            self.end = Some(t);
        }
    }

    /// A new open interval starting at the present moment.
    pub fn start_now() -> (r: Self)
        ensures
            r.start.is_valid(),
            r.end is None,
    {
        Self::starting_at(crate::local_time::now_time())
    }

    /// Completes the interval at the present moment; an interval that has
    /// already ended is left as it is.
    pub fn complete_now(&mut self)
        ensures
            final(self).start == old(self).start,
            match old(self).end {
                Some(_) => final(self).end == old(self).end,
                None => match final(self).end {
                    Some(e) => e.is_valid(),
                    None => false,
                },
            },
    {
        self.complete_at(crate::local_time::now_time());
    }
}

} // verus!
