use vstd::prelude::*;

verus! {

/// The fixed-step clock: how many fixed ticks have completed.
#[derive(Debug, Clone, Copy, PartialEq, Eq, Structural)]
pub struct FixedTime {
    completed_ticks: u64,
}

impl View for FixedTime {
    type V = u64;

    closed spec fn view(&self) -> u64 {
        self.completed_ticks
    }
}

impl Default for FixedTime {
    fn default() -> (time: Self)
        ensures
            time@ == 0,
    {
        FixedTime { completed_ticks: 0 }
    }
}

impl FixedTime {
    /// A clock that has already counted `completed_ticks` ticks, as when a run resumes.
    pub fn starting_at(completed_ticks: u64) -> (time: Self)
        ensures
            time@ == completed_ticks,
    {
        FixedTime { completed_ticks }
    }

    /// Number of completed fixed ticks.
    pub fn completed_ticks(&self) -> (ticks: u64)
        ensures
            ticks == self@,
    {
        self.completed_ticks
    }

    /// Counts one more completed tick.
    pub(crate) fn advance(&mut self)
        requires
            old(self)@ < u64::MAX,
        ensures
            final(self)@ == old(self)@ + 1,
    {
        self.completed_ticks = self.completed_ticks + 1;
    }
}

/// A resource value that can hold the fixed-step clock.
pub trait FixedTimeValue: Sized {
    /// The clock this value holds, if it holds one.
    spec fn clock(&self) -> Option<FixedTime>;

    /// A resource value holding `time`.
    fn from_fixed_time(time: FixedTime) -> (value: Self)
        ensures
            value.clock() == Some(time),
    ;

    /// The clock this value holds, for writing, if it holds one; writing it changes the
    /// clock the value holds.
    fn fixed_time_mut(&mut self) -> (time: Option<&mut FixedTime>)
        ensures
            old(self).clock() is None ==> time is None && *final(self) == *old(self),
            old(self).clock() is Some ==> time is Some && *time->0 == old(self).clock()->0 && final(self).clock() == Some(
                *final(time->0),
            ),
    ;
}

/// The clock is a resource value that holds itself.
impl FixedTimeValue for FixedTime {
    open spec fn clock(&self) -> Option<FixedTime> {
        Some(*self)
    }

    fn from_fixed_time(time: FixedTime) -> (value: Self) {
        time
    }

    fn fixed_time_mut(&mut self) -> (time: Option<&mut FixedTime>) {
        Some(self)
    }
}

} // verus!
