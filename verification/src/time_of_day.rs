use vstd::prelude::*;

verus! {

/// Number of nanoseconds in one civil day.
pub const NANOS_PER_DAY: u64 = 86_400_000_000_000;

/// A time of day with nanosecond resolution, counted from midnight.
#[derive(Clone, Copy, Debug, PartialEq, Eq, Structural)]
pub struct TimeOfDay {
    pub nanos: u64,
}

impl TimeOfDay {
    /// A value represents a real time of day when it lies inside one day.
    pub open spec fn is_valid(self) -> bool {
        self.nanos < NANOS_PER_DAY
    }

    /// Latest representable instant of the day, 23:59:59.999999999.
    pub open spec fn spec_max() -> TimeOfDay {
        TimeOfDay { nanos: (NANOS_PER_DAY - 1) as u64 }
    }

    /// Latest representable instant of the day.
    pub fn max() -> (r: TimeOfDay)
        ensures
            r == Self::spec_max(),
    {
        TimeOfDay { nanos: NANOS_PER_DAY - 1 }
    }

    pub open spec fn spec_from_hms_nano(h: u8, m: u8, s: u8, n: u32) -> int {
        ((h * 3600 + m * 60 + s) * 1_000_000_000) + n
    }

    /// Build a time of day from hours, minutes, seconds and nanoseconds.
    pub fn from_hms_nano(h: u8, m: u8, s: u8, n: u32) -> (r: TimeOfDay)
        requires
            h < 24,
            m < 60,
            s < 60,
            n < 1_000_000_000,
        ensures
            r.nanos == Self::spec_from_hms_nano(h, m, s, n),
            r.is_valid(),
    {
        TimeOfDay {
            nanos: ((h as u64) * 3600 + (m as u64) * 60 + (s as u64)) * 1_000_000_000
                + (n as u64),
        }
    }

    /// Build a time of day from hours, minutes and seconds.
    pub fn from_hms(h: u8, m: u8, s: u8) -> (r: TimeOfDay)
        requires
            h < 24,
            m < 60,
            s < 60,
        ensures
            r.nanos == Self::spec_from_hms_nano(h, m, s, 0),
            r.is_valid(),
    {
        Self::from_hms_nano(h, m, s, 0)
    }
}

} // verus!
