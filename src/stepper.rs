use vstd::prelude::*;

verus! {

/// Yields `start`, `start + step`, ... while below `end`.
pub struct Stepper {
    start: usize,
    end: usize,
    step: usize,
}

impl Stepper {
    /// The next value to be yielded.
    pub closed spec fn start(&self) -> usize {
        self.start
    }

    /// The exclusive bound.
    pub closed spec fn end(&self) -> usize {
        self.end
    }

    /// The distance between two values.
    pub closed spec fn step(&self) -> usize {
        self.step
    }

    pub fn new(start: usize, end: usize, step: usize) -> (r: Self)
        ensures
            r.start() == start,
            r.end() == end,
            r.step() == step,
    {
        Stepper { start: start, end: end, step: step }
    }

    /// Yields the next value, or `None` once the values have reached `end`.
    pub fn next(&mut self) -> (r: Option<usize>)
        ensures
            final(self).end() == old(self).end(),
            final(self).step() == old(self).step(),
            old(self).start() >= old(self).end() ==> r is None && final(self).start() == old(
                self,
            ).start(),
            old(self).start() < old(self).end() ==> r == Some(old(self).start())
                && final(self).start() == (if old(self).start() + old(self).step() < old(
                self,
            ).end() {
                old(self).start() + old(self).step()
            } else {
                old(self).end() as int
            }),
    {
        if self.start >= self.end {
            return None;
        }
        let next = self.start;
        if self.end - self.start > self.step {
            self.start = self.start + self.step;
        } else {
            self.start = self.end;
        }
        Some(next)
    }
}

} // verus!
