//! The single cells that a set is made of, under a second name.

use vstd::prelude::*;
use crate::id::SpaceTimeId;
use crate::set::pure::all_cells;
use crate::set::{views, SpaceTimeIdSet};

verus! {

impl SpaceTimeIdSet {
    /// The same as [`SpaceTimeIdSet::pure`].
    pub fn to_pure(&self) -> (res: Vec<SpaceTimeId>)
        requires
            self.wf(),
        ensures
            views(res@) == all_cells(self@),
    {
        self.pure()
    }
}

} // verus!
