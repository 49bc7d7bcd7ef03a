//! The time-interval model: one contiguous weekly time block and the
//! pairwise overlap test that every conflict decision rests on.
use vstd::prelude::*;

verus! {

/// One contiguous weekly time block: a weekday (0 = Monday .. 4 = Friday),
/// a start time given as an hour and minutes past that hour, and a length
/// in minutes.
#[derive(Clone, Copy, Debug, PartialEq, Eq, Structural)]
pub struct TimeDuration {
    pub day: u8,
    pub hour: u32,
    pub minutes: u32,
    pub length_in_minutes: u32,
}

impl TimeDuration {
    /// Minute of the day at which this block begins.
    pub open spec fn spec_minute_begin(self) -> int {
        self.hour * 60 + self.minutes
    }

    /// Minute of the day at which this block ends.
    pub open spec fn spec_minute_end(self) -> int {
        self.spec_minute_begin() + self.length_in_minutes
    }

    /// A well-formed block lies on a weekday, begins within the day, lasts a
    /// positive number of minutes and does not cross midnight.
    pub open spec fn wf(self) -> bool {
        &&& self.day < 5
        &&& self.spec_minute_begin() < 1440
        &&& self.length_in_minutes > 0
        &&& self.spec_minute_end() <= 1440
    }

    /// Two blocks overlap when they lie on the same day and neither ends
    /// strictly before the other begins.  Intervals are closed: a block that
    /// ends exactly when the other begins counts as overlapping.
    pub open spec fn spec_intersects(self, other: TimeDuration) -> bool {
        &&& self.day == other.day
        &&& !(self.spec_minute_end() < other.spec_minute_begin()
            || other.spec_minute_end() < self.spec_minute_begin())
    }

    pub fn minute_begin(&self) -> (mb: u32)
        requires
            self.spec_minute_begin() < 1440,
        ensures
            mb == self.spec_minute_begin(),
    {
        self.hour * 60 + self.minutes
    }

    pub fn minute_end(&self) -> (me: u32)
        requires
            self.spec_minute_begin() < 1440,
            self.spec_minute_end() <= 1440,
        ensures
            me == self.spec_minute_end(),
    {
        self.minute_begin() + self.length_in_minutes
    }

    pub fn intersects_with(&self, other: &Self) -> (r: bool)
        requires
            self.wf(),
            other.wf(),
        ensures
            r == self.spec_intersects(*other),
    {
        if self.day != other.day {
            return false;
        }
        let this_begin = self.minute_begin();
        let this_end = self.minute_end();
        let other_begin = other.minute_begin();
        let other_end = other.minute_end();

        // If one ends strictly before the other begins they do not overlap.
        if this_end < other_begin || other_end < this_begin {
            return false;
        }
        true
    }
}

/// Blocks on different days never intersect, whatever their times.
pub proof fn lemma_intersects_different_days(a: TimeDuration, b: TimeDuration)
    requires
        a.day != b.day,
    ensures
        !a.spec_intersects(b),
{
}

/// The overlap test is symmetric.
pub proof fn lemma_intersects_symmetric(a: TimeDuration, b: TimeDuration)
    ensures
        a.spec_intersects(b) == b.spec_intersects(a),
{
}

/// Touching blocks — one ends exactly when the other begins — are reported
/// as intersecting: the intervals are closed.
pub proof fn lemma_touching_intersects(a: TimeDuration, b: TimeDuration)
    requires
        a.day == b.day,
        a.spec_minute_end() == b.spec_minute_begin(),
    ensures
        a.spec_intersects(b),
{
}

} // verus!
