use vstd::prelude::*;

verus! {

/// A 20-byte account address, held as two integers: the first four bytes
/// (big-endian) in `high` and the last sixteen in `low`.
#[derive(Clone, Copy, Debug, PartialEq, Eq, Structural)]
pub struct Address {
    pub high: u32,
    pub low: u128,
}

impl Address {
    pub open spec fn is_null(self) -> bool {
        self.high == 0 && self.low == 0
    }

    pub fn new(high: u32, low: u128) -> (r: Address)
        ensures
            r.high == high,
            r.low == low,
    {
        Address { high, low }
    }

    /// The null address, which can never own a badge.
    pub fn zero() -> (r: Address)
        ensures
            r.is_null(),
    {
        Address { high: 0, low: 0 }
    }

    pub fn is_zero(&self) -> (r: bool)
        ensures
            r == self.is_null(),
    {
        self.high == 0 && self.low == 0
    }
}

} // verus!
