//! Calendar days, counted as whole days.

use vstd::prelude::*;

verus! {

/// A calendar day, as the number of days from the first day of the common
/// era (0001-01-01 is day 1), the way `chrono`'s `num_days_from_ce` counts.
#[derive(Clone, Copy, Debug, PartialEq, Eq, Structural)]
pub struct Date {
    pub day: i32,
}

impl Date {
    /// The day with this number.
    pub fn from_day_number(day: i32) -> (r: Date)
        ensures
            r.day == day,
    {
        Date { day }
    }

    /// Whether two dates are the same day.
    pub fn same_day(self, other: Date) -> (r: bool)
        ensures
            r == (self.day == other.day),
    {
        self.day == other.day
    }
}

} // verus!
