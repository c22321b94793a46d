//! Numerical seeds: sources of successive random values.
use vstd::prelude::*;
use crate::std_rng::{fraction_scale, point_in_range, random_i32_in_range};

verus! {

/// A source of random values of type `T`.
pub trait RN<T> {
    /// The next value.
    fn r_next(&mut self) -> T;
}

/// A seed of random integers between the two bounds of `r`.
pub struct Si32 {
    pub r: (i32, i32),
}

impl RN<i32> for Si32 {
    /// A random integer between `r.0` and `r.1`, both included.
    fn r_next(&mut self) -> (x: i32)
        ensures
            exists|k: int|
                0 <= k < fraction_scale() && x == point_in_range(
                    old(self).r.0 as int,
                    old(self).r.1 as int,
                    k,
                ),
            old(self).r.0 <= old(self).r.1 ==> old(self).r.0 <= x <= old(self).r.1,
            old(self).r.1 < old(self).r.0 ==> old(self).r.1 <= x <= old(self).r.0,
            *final(self) == *old(self),
    {
        random_i32_in_range(self.r)
    }
}

} // verus!
