use vstd::prelude::*;

verus! {

/// A frame-tick countdown used to tell a fast second click (flood reveal)
/// from a slow one (single reveal). It is ticked once per frame and reset
/// on every qualifying click; while `has_time_left()` is true a second
/// click counts as a double click.
#[derive(Debug)]
pub struct CountDown {
    pub reset_time: u32,
    pub time_left: u32,
}

impl CountDown {
    pub fn new(start_time: u32) -> (c: CountDown)
        ensures
            c.time_left == start_time,
            c.reset_time == start_time,
    {
        CountDown { reset_time: start_time, time_left: start_time }
    }

    /// Saturating decrement: once the counter reaches zero it stays there.
    pub fn tick(&mut self)
        ensures
            final(self).time_left == if old(self).time_left == 0 {
                0u32
            } else {
                (old(self).time_left - 1) as u32
            },
            final(self).reset_time == old(self).reset_time,
    {
        if self.time_left == 0 {
            self.time_left += 1;
        }
        self.time_left -= 1;
    }

    pub fn reset(&mut self)
        ensures
            final(self).time_left == old(self).reset_time,
            final(self).reset_time == old(self).reset_time,
    {
        self.time_left = self.reset_time;
    }

    pub fn has_time_left(&self) -> (r: bool)
        ensures
            r == (self.time_left > 0),
    {
        self.time_left > 0
    }
}

} // verus!
