use vstd::prelude::*;

verus! {

/// Number of members of a block, where the full count 65536 does not fit the 16-bit field.
#[derive(Clone, Copy, Debug, PartialEq, Eq, Structural)]
pub enum PopCount {
    Ones(u16),
    Full,
}

impl PopCount {
    pub open spec fn view(&self) -> nat {
        match self {
            PopCount::Ones(p) => *p as nat,
            PopCount::Full => 65536,
        }
    }

    pub fn new(c: u64) -> (r: PopCount)
        requires
            c <= 65536,
        ensures
            r@ == c,
    {
        if c == 65536 {
            PopCount::Full
        } else {
            PopCount::Ones(c as u16)
        }
    }

    pub fn cardinality(&self) -> (r: u64)
        ensures
            r == self@,
    {
        match self {
            PopCount::Ones(p) => *p as u64,
            PopCount::Full => 65536,
        }
    }

    pub fn incr(&mut self)
        requires
            old(self)@ < 65536,
        ensures
            final(self)@ == old(self)@ + 1,
    {
        if let PopCount::Ones(p) = *self {
            if p < 65535 {
                *self = PopCount::Ones(p + 1);
            } else {
                *self = PopCount::Full;
            }
        }
    }

    pub fn decr(&mut self)
        requires
            old(self)@ > 0,
        ensures
            final(self)@ == old(self)@ - 1,
    {
        match *self {
            PopCount::Ones(p) => {
                *self = PopCount::Ones(p - 1);
            },
            PopCount::Full => {
                *self = PopCount::Ones(65535);
            },
        }
    }
}

} // verus!
