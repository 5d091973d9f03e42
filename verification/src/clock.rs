//! The in-world day clock.

use vstd::prelude::*;

verus! {

/// The authoritative simulation interval. Presentation speed changes how
/// quickly ticks are consumed, never this value.
pub const TICK_DURATION_MS: u64 = 250;

/// The number of ticks that advance the in-world clock by one minute. One
/// in-world minute per tick makes a full day 1440 ticks; the value is a fixed
/// simulation semantic, unrelated to presentation speed.
pub const TICKS_PER_IN_WORLD_MINUTE: u64 = 1;

/// Minutes in one village day.
pub const MINUTES_PER_DAY: u32 = 1440;

/// A wall-clock time of day within a single 24-hour village day. The clock is
/// deterministic: it is a pure function of the tick and the scenario's authored
/// starting time, never of presentation speed.
#[derive(Clone, Copy, Debug, Eq, Ord, PartialEq, PartialOrd, Structural)]
pub struct TimeOfDay {
    pub hour: u8,
    pub minute: u8,
}

/// The time of day `minutes` after midnight, wrapping across days.
pub open spec fn time_at_minute(minutes: int) -> TimeOfDay {
    TimeOfDay {
        hour: (minutes % (MINUTES_PER_DAY as int) / 60) as u8,
        minute: (minutes % (MINUTES_PER_DAY as int) % 60) as u8,
    }
}

impl TimeOfDay {
    /// Whether the fields name a minute of one day.
    pub open spec fn on_the_clock(self) -> bool {
        self.hour < 24 && self.minute < 60
    }

    /// Minutes since midnight.
    pub open spec fn minutes(self) -> int {
        self.hour * 60 + self.minute
    }

    /// Builds a time of day from minutes since midnight, wrapping across a day.
    #[must_use]
    pub fn from_minute_of_day(minutes: u32) -> (r: Self)
        ensures
            r == time_at_minute(minutes as int),
            r.on_the_clock(),
            r.minutes() == minutes as int % MINUTES_PER_DAY as int,
    {
        let minutes: u32 = minutes % MINUTES_PER_DAY;
        TimeOfDay { hour: (minutes / 60) as u8, minute: (minutes % 60) as u8 }
    }

    /// Minutes elapsed since midnight.
    #[must_use]
    pub fn minute_of_day(self) -> (r: u32)
        ensures
            r == self.minutes(),
    {
        u32::from(self.hour) * 60 + u32::from(self.minute)
    }
}

/// When a scenario begins that does not say so: in the morning.
pub fn default_start_time_of_day() -> (r: TimeOfDay)
    ensures
        r == (TimeOfDay { hour: 8, minute: 0 }),
{
    TimeOfDay { hour: 8, minute: 0 }
}

/// Reading the minutes of a time of day and building a time of day from them
/// gives that time of day back.
pub proof fn law_minutes_round_trip(time: TimeOfDay)
    requires
        time.on_the_clock(),
    ensures
        time_at_minute(time.minutes()) == time,
{
}

/// The clock wraps: a whole day later it shows the same time.
pub proof fn law_clock_wraps_each_day(minutes: int, days: int)
    ensures
        time_at_minute(minutes + days * MINUTES_PER_DAY) == time_at_minute(minutes),
{
    vstd::arithmetic::div_mod::lemma_mod_multiples_vanish(days, minutes, MINUTES_PER_DAY as int);
    assert(days * MINUTES_PER_DAY == MINUTES_PER_DAY * days) by (nonlinear_arith);
}

/// A time of day is the hours and minutes past midnight: sixty minutes to the
/// hour, and twenty-four hours until midnight comes again.
pub proof fn law_time_is_minutes_past_midnight(minutes: int)
    requires
        minutes >= 0,
    ensures
        time_at_minute(minutes).hour < 24,
        time_at_minute(minutes).minute < 60,
        time_at_minute(minutes).hour * 60 + time_at_minute(minutes).minute == minutes % 1440,
{
}

} // verus!
