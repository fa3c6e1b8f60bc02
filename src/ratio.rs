use vstd::prelude::*;

verus! {

/// A non-negative rational number `num / den`, kept exactly as computed (not
/// reduced). A rate or a statistic with `den == 0` is undefined.
#[derive(Clone, Copy, Debug, PartialEq, Eq, Structural)]
pub struct Ratio {
    pub num: u128,
    pub den: u128,
}

impl Ratio {
    pub fn new(num: u128, den: u128) -> (r: Ratio)
        ensures
            r == (Ratio { num, den }),
    {
        Ratio { num, den }
    }

    /// A rational that names a positive quantity.
    pub open spec fn is_positive(self) -> bool {
        self.num > 0 && self.den > 0
    }
}

/// A rational number with a sign: `-magnitude` when `negative`, else `magnitude`.
#[derive(Clone, Copy, Debug, PartialEq, Eq, Structural)]
pub struct SignedRatio {
    pub negative: bool,
    pub magnitude: Ratio,
}

} // verus!
