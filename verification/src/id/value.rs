//! The fields of an identifier.

use vstd::prelude::*;
use crate::id::{DimensionRange, SpaceTimeId};

verus! {

impl SpaceTimeId {
    /// The range on the vertical axis.
    pub fn f(&self) -> (r: DimensionRange<i32>)
        ensures
            r@ == self@.f,
    {
        self.f
    }

    /// The range on the first horizontal axis.
    pub fn x(&self) -> (r: DimensionRange<u32>)
        ensures
            r@ == self@.x,
    {
        self.x
    }

    /// The range on the second horizontal axis.
    pub fn y(&self) -> (r: DimensionRange<u32>)
        ensures
            r@ == self@.y,
    {
        self.y
    }

    /// The range of time indices.
    pub fn t(&self) -> (r: DimensionRange<u32>)
        ensures
            r@ == self@.t,
    {
        self.t
    }

    /// The zoom level.
    pub fn z(&self) -> (r: u8)
        ensures
            r == self@.z,
    {
        self.z
    }

    /// The length of a time interval in seconds, 0 for all time.
    pub fn i(&self) -> (r: u32)
        ensures
            r == self@.i,
    {
        self.i
    }
}

} // verus!
