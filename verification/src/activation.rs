use vstd::prelude::*;

verus! {

/// The scalar transform a node applies to its accumulated input once all of
/// its incoming contributions have arrived. Every node of a genome shares one
/// activation.
#[derive(Clone, Copy, PartialEq, Eq, Structural, Debug)]
pub enum Activation {
    /// Passes the accumulated sum through unchanged.
    Identity,
    /// Clamps negative sums to zero.
    Relu,
    /// Maps positive sums to one and the rest to zero.
    Step,
}

impl Activation {
    /// What `apply` returns, as a function on unbounded integers.
    pub open spec fn apply_spec(self, x: int) -> int {
        match self {
            Activation::Identity => x,
            Activation::Relu => if x < 0 { 0 } else { x },
            Activation::Step => if x > 0 { 1 } else { 0 },
        }
    }

    pub fn apply(self, x: i64) -> (r: i64)
        ensures
            r == self.apply_spec(x as int),
    {
        match self {
            Activation::Identity => x,
            Activation::Relu => if x < 0 { 0 } else { x },
            Activation::Step => if x > 0 { 1 } else { 0 },
        }
    }
}

} // verus!
