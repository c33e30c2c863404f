//! Stepping sequence numbers forwards and backwards with `+` and `-`, wrapping round
//! the circle.
use vstd::prelude::*;
use std::ops::{Add, AddAssign, Sub, SubAssign};
use crate::seq_num::{SeqNum, wrap16};

verus! {

impl Add<u16> for SeqNum {
    type Output = SeqNum;

    /// The number `rhs` steps on, wrapping.
    fn add(self, rhs: u16) -> (r: SeqNum)
        ensures
            r.0 == wrap16(self.0 + rhs),
    {
        self.plus(rhs)
    }
}

impl vstd::std_specs::ops::AddSpecImpl<u16> for SeqNum {
    open spec fn obeys_add_spec() -> bool {
        true
    }

    open spec fn add_req(self, rhs: u16) -> bool {
        true
    }

    open spec fn add_spec(self, rhs: u16) -> SeqNum {
        SeqNum(wrap16(self.0 + rhs))
    }
}

impl Add<SeqNum> for SeqNum {
    type Output = SeqNum;

    /// The number `rhs.0` steps on, wrapping.
    fn add(self, rhs: SeqNum) -> (r: SeqNum)
        ensures
            r.0 == wrap16(self.0 + rhs.0),
    {
        self.plus(rhs.0)
    }
}

impl vstd::std_specs::ops::AddSpecImpl<SeqNum> for SeqNum {
    open spec fn obeys_add_spec() -> bool {
        true
    }

    open spec fn add_req(self, rhs: SeqNum) -> bool {
        true
    }

    open spec fn add_spec(self, rhs: SeqNum) -> SeqNum {
        SeqNum(wrap16(self.0 + rhs.0))
    }
}

impl Sub<u16> for SeqNum {
    type Output = SeqNum;

    /// The number `rhs` steps back, wrapping.
    fn sub(self, rhs: u16) -> (r: SeqNum)
        ensures
            r.0 == wrap16(self.0 - rhs),
    {
        self.minus(rhs)
    }
}

impl vstd::std_specs::ops::SubSpecImpl<u16> for SeqNum {
    open spec fn obeys_sub_spec() -> bool {
        true
    }

    open spec fn sub_req(self, rhs: u16) -> bool {
        true
    }

    open spec fn sub_spec(self, rhs: u16) -> SeqNum {
        SeqNum(wrap16(self.0 - rhs))
    }
}

impl Sub<SeqNum> for SeqNum {
    type Output = SeqNum;

    /// The number `rhs.0` steps back, wrapping.
    fn sub(self, rhs: SeqNum) -> (r: SeqNum)
        ensures
            r.0 == wrap16(self.0 - rhs.0),
    {
        self.minus(rhs.0)
    }
}

impl vstd::std_specs::ops::SubSpecImpl<SeqNum> for SeqNum {
    open spec fn obeys_sub_spec() -> bool {
        true
    }

    open spec fn sub_req(self, rhs: SeqNum) -> bool {
        true
    }

    open spec fn sub_spec(self, rhs: SeqNum) -> SeqNum {
        SeqNum(wrap16(self.0 - rhs.0))
    }
}

impl AddAssign<u16> for SeqNum {
    /// Steps `rhs` on, wrapping.
    fn add_assign(&mut self, rhs: u16)
        ensures
            final(self).0 == wrap16(old(self).0 + rhs),
    {
        self.0 = self.0.wrapping_add(rhs);
    }
}

impl SubAssign<u16> for SeqNum {
    /// Steps `rhs` back, wrapping.
    fn sub_assign(&mut self, rhs: u16)
        ensures
            final(self).0 == wrap16(old(self).0 - rhs),
    {
        self.0 = self.0.wrapping_sub(rhs);
    }
}

} // verus!
