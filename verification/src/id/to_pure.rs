//! The single cells that an identifier is made of, under a second name.

use vstd::prelude::*;
use crate::id::SpaceTimeId;
use crate::set::views;

verus! {

impl SpaceTimeId {
    /// The same as [`SpaceTimeId::pure`].
    pub fn to_pure(&self) -> (res: Vec<SpaceTimeId>)
        requires
            self.wf(),
        ensures
            views(res@) == self@.unit_cells(),
    {
        self.pure()
    }
}

} // verus!
