//! The first and the last cell of a range.

use vstd::prelude::*;
use crate::id::range::pow2_i64;
use crate::id::{f_domain, lemma_domain_fits, xy_domain, DimensionRange};

verus! {

/// The first and the last cell that a range holds on a horizontal axis at
/// zoom level `z`: its own bounds, and for an open end the end of the axis,
/// `0` or `2^z - 1`.
pub fn dimension_range_to_bounds_xy(dim: &DimensionRange<u32>, z: u8) -> (res: (u32, u32))
    requires
        z < 32,
    ensures
        res.0 == dim@.first_on(xy_domain(z as int)),
        res.1 == dim@.last_on(xy_domain(z as int)),
{
    proof {
        lemma_domain_fits(z as int);
    }
    let max = (pow2_i64(z) - 1) as u32;
    match *dim {
        DimensionRange::Single(v) => (v, v),
        DimensionRange::LimitRange(s, e) => (s, e),
        DimensionRange::BeforeUnLimitRange(e) => (0, e),
        DimensionRange::AfterUnLimitRange(s) => (s, max),
        DimensionRange::Any => (0, max),
    }
}

/// The first and the last cell that a range holds on the vertical axis at
/// zoom level `z`: its own bounds, and for an open end the end of the axis,
/// `-2^z` or `2^z - 1`.
pub fn dimension_range_to_bounds_f(dim: &DimensionRange<i32>, z: u8) -> (res: (i32, i32))
    requires
        z < 32,
    ensures
        res.0 == dim@.first_on(f_domain(z as int)),
        res.1 == dim@.last_on(f_domain(z as int)),
{
    proof {
        lemma_domain_fits(z as int);
    }
    let side = pow2_i64(z);
    let min = (-side) as i32;
    let max = (side - 1) as i32;
    match *dim {
        DimensionRange::Single(v) => (v, v),
        DimensionRange::LimitRange(s, e) => (s, e),
        DimensionRange::BeforeUnLimitRange(e) => (min, e),
        DimensionRange::AfterUnLimitRange(s) => (s, max),
        DimensionRange::Any => (min, max),
    }
}

} // verus!
