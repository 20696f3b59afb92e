//! Copies of an identifier with one field replaced.

use vstd::prelude::*;
use crate::id::{id_result_view, model_new, DimensionRange, IdError, SpaceTimeId};

verus! {

impl SpaceTimeId {
    /// The identifier with the zoom level `z` in place of its own, validated
    /// anew.
    pub fn with_z(&self, z: u8) -> (res: Result<Self, IdError>)
        ensures
            id_result_view(res) == model_new(
                z as int,
                self@.f,
                self@.x,
                self@.y,
                self@.i,
                self@.t,
            ),
            res matches Ok(id) ==> id.wf(),
    {
        Self::new(z, self.f, self.x, self.y, self.i, self.t)
    }

    /// The identifier with the vertical range `f` in place of its own,
    /// validated anew.
    pub fn with_f(&self, f: DimensionRange<i32>) -> (res: Result<Self, IdError>)
        ensures
            id_result_view(res) == model_new(self@.z, f@, self@.x, self@.y, self@.i, self@.t),
            res matches Ok(id) ==> id.wf(),
    {
        Self::new(self.z, f, self.x, self.y, self.i, self.t)
    }

    /// The identifier with the range `x` in place of its own, validated anew.
    pub fn with_x(&self, x: DimensionRange<u32>) -> (res: Result<Self, IdError>)
        ensures
            id_result_view(res) == model_new(self@.z, self@.f, x@, self@.y, self@.i, self@.t),
            res matches Ok(id) ==> id.wf(),
    {
        Self::new(self.z, self.f, x, self.y, self.i, self.t)
    }

    /// The identifier with the range `y` in place of its own, validated anew.
    pub fn with_y(&self, y: DimensionRange<u32>) -> (res: Result<Self, IdError>)
        ensures
            id_result_view(res) == model_new(self@.z, self@.f, self@.x, y@, self@.i, self@.t),
            res matches Ok(id) ==> id.wf(),
    {
        Self::new(self.z, self.f, self.x, y, self.i, self.t)
    }

    /// The identifier with the interval `i` in place of its own, validated
    /// anew.
    pub fn with_i(&self, i: u32) -> (res: Result<Self, IdError>)
        ensures
            id_result_view(res) == model_new(
                self@.z,
                self@.f,
                self@.x,
                self@.y,
                i as int,
                self@.t,
            ),
            res matches Ok(id) ==> id.wf(),
    {
        Self::new(self.z, self.f, self.x, self.y, i, self.t)
    }

    /// The identifier with the time range `t` in place of its own, validated
    /// anew.
    pub fn with_t(&self, t: DimensionRange<u32>) -> (res: Result<Self, IdError>)
        ensures
            id_result_view(res) == model_new(self@.z, self@.f, self@.x, self@.y, self@.i, t@),
            res matches Ok(id) ==> id.wf(),
    {
        Self::new(self.z, self.f, self.x, self.y, self.i, t)
    }
}

} // verus!
