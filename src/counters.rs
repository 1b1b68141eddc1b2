//! Two counters that hand out successive integers: one that stops at a
//! limit, and one that wraps around to zero at its limit.
use vstd::prelude::*;

verus! {

pub struct LimitedIterator {
    limit: i32,
    i: i32,
}

impl LimitedIterator {
    pub closed spec fn limit_spec(&self) -> i32 {
        self.limit
    }

    pub closed spec fn position(&self) -> i32 {
        self.i
    }

    /// Counts 0, 1, ..., `limit - 1`.
    pub fn new(i: i32) -> (r: LimitedIterator)
        ensures
            r.limit_spec() == i,
            r.position() == 0,
    {
        LimitedIterator { limit: i, i: 0 }
    }

    /// The next number below the limit, or `None` once the limit is reached.
    pub fn next(&mut self) -> (r: Option<i32>)
        ensures
            final(self).limit_spec() == old(self).limit_spec(),
            old(self).position() >= old(self).limit_spec() ==> r is None && final(self).position()
                == old(self).position(),
            old(self).position() < old(self).limit_spec() ==> r == Some(old(self).position())
                && final(self).position() == old(self).position() + 1,
    {
        if self.i >= self.limit {
            None
        } else {
            let to_ret = self.i;
            self.i += 1;
            Some(to_ret)
        }
    }
}

pub struct WrappingIterator {
    limit: i32,
    i: i32,
}

impl WrappingIterator {
    pub closed spec fn limit_spec(&self) -> i32 {
        self.limit
    }

    pub closed spec fn position(&self) -> i32 {
        self.i
    }

    /// Counts 0, 1, ..., `limit - 1`, 0, 1, ... without end.
    pub fn new(i: i32) -> (r: WrappingIterator)
        ensures
            r.limit_spec() == i,
            r.position() == 0,
    {
        WrappingIterator { limit: i, i: 0 }
    }

    /// The current position taken modulo the limit; the count then moves on
    /// by one. The remainder takes the sign of the position, which is never
    /// negative, so a negative limit counts like its absolute value.
    pub fn next(&mut self) -> (r: Option<i32>)
        requires
            old(self).limit_spec() != 0,
            0 <= old(self).position(),
            old(self).position() % old(self).limit_spec() < i32::MAX,
        ensures
            final(self).limit_spec() == old(self).limit_spec(),
            r == Some((old(self).position() % old(self).limit_spec()) as i32),
            final(self).position() == old(self).position() % old(self).limit_spec() + 1,
    {
        self.i = self.i % self.limit;
        let to_ret = self.i;
        self.i += 1;
        Some(to_ret)
    }
}

} // verus!
