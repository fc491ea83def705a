use vstd::prelude::*;

verus! {

/// Saturating addition on `u64`, the arithmetic all weight accounting uses.
pub open spec fn sat_add_u64(a: u64, b: u64) -> u64 {
    if a + b > u64::MAX {
        u64::MAX
    } else {
        (a + b) as u64
    }
}

/// A two-dimensional resource cost: computation time and proof size.
/// A budget is exceeded as soon as either component is exceeded.
#[derive(Clone, Copy, Debug, PartialEq, Eq, Structural)]
pub struct Weight {
    pub ref_time: u64,
    pub proof_size: u64,
}

impl Weight {
    pub open spec fn spec_all_lte(self, other: Weight) -> bool {
        self.ref_time <= other.ref_time && self.proof_size <= other.proof_size
    }

    pub open spec fn spec_any_gt(self, other: Weight) -> bool {
        self.ref_time > other.ref_time || self.proof_size > other.proof_size
    }

    pub open spec fn spec_saturating_add(self, other: Weight) -> Weight {
        Weight {
            ref_time: sat_add_u64(self.ref_time, other.ref_time),
            proof_size: sat_add_u64(self.proof_size, other.proof_size),
        }
    }

    pub fn from_parts(ref_time: u64, proof_size: u64) -> (w: Weight)
        ensures
            w == (Weight { ref_time, proof_size }),
    {
        Weight { ref_time, proof_size }
    }

    pub fn zero() -> (w: Weight)
        ensures
            w == (Weight { ref_time: 0u64, proof_size: 0u64 }),
    {
        Weight { ref_time: 0, proof_size: 0 }
    }

    pub fn max_value() -> (w: Weight)
        ensures
            w == (Weight { ref_time: u64::MAX, proof_size: u64::MAX }),
    {
        Weight { ref_time: u64::MAX, proof_size: u64::MAX }
    }

    /// Componentwise `<=`: `self` fits inside `other`.
    pub fn all_lte(&self, other: &Weight) -> (r: bool)
        ensures
            r == self.spec_all_lte(*other),
    {
        self.ref_time <= other.ref_time && self.proof_size <= other.proof_size
    }

    /// True when `self` exceeds `other` in at least one component: the check
    /// used both for the per-message ceiling and for the remaining budget.
    pub fn any_gt(&self, other: &Weight) -> (r: bool)
        ensures
            r == self.spec_any_gt(*other),
    {
        self.ref_time > other.ref_time || self.proof_size > other.proof_size
    }

    pub fn saturating_add(self, other: Weight) -> (w: Weight)
        ensures
            w == self.spec_saturating_add(other),
    {
        let ref_time = if self.ref_time > u64::MAX - other.ref_time {
            u64::MAX
        } else {
            self.ref_time + other.ref_time
        };
        let proof_size = if self.proof_size > u64::MAX - other.proof_size {
            u64::MAX
        } else {
            self.proof_size + other.proof_size
        };
        Weight { ref_time, proof_size }
    }

    /// Componentwise subtraction, defined exactly when `other` fits in `self`.
    pub fn checked_sub(self, other: Weight) -> (r: Option<Weight>)
        ensures
            other.spec_all_lte(self) ==> r == Some(
                Weight {
                    ref_time: (self.ref_time - other.ref_time) as u64,
                    proof_size: (self.proof_size - other.proof_size) as u64,
                },
            ),
            !other.spec_all_lte(self) ==> r is None,
    {
        if other.ref_time <= self.ref_time && other.proof_size <= self.proof_size {
            Some(
                Weight {
                    ref_time: self.ref_time - other.ref_time,
                    proof_size: self.proof_size - other.proof_size,
                },
            )
        } else {
            None
        }
    }
}

} // verus!
