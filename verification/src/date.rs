//! Plain calendar dates, ordered by year, then month, then day.

use vstd::prelude::*;

verus! {

/// A calendar date held as plain numbers. The collection logic only ever
/// compares dates, so no calendar arithmetic is needed here; the rendering
/// and clock collaborators convert to and from their own date values.
#[derive(Clone, Copy, Debug, PartialEq, Eq, Structural)]
pub struct Date {
    pub year: i32,
    pub month: u8,
    pub day: u8,
}

/// Lexicographic order on (year, month, day): `a` is on or before `b`.
pub open spec fn date_le_spec(a: Date, b: Date) -> bool {
    ||| a.year < b.year
    ||| (a.year == b.year && a.month < b.month)
    ||| (a.year == b.year && a.month == b.month && a.day <= b.day)
}

impl Date {
    /// True when `self` is on or before `other` in calendar order.
    pub fn le(&self, other: &Date) -> (r: bool)
        ensures
            r == date_le_spec(*self, *other),
    {
        if self.year != other.year {
            self.year < other.year
        } else if self.month != other.month {
            self.month < other.month
        } else {
            self.day <= other.day
        }
    }
}

} // verus!
