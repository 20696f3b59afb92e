//! The single cells that a set is made of.

use vstd::prelude::*;
use crate::id::{IdView, SpaceTimeId};
use crate::set::{views, SpaceTimeIdSet};

verus! {

/// The identifiers of the single cells that the identifiers of a sequence
/// are made of, identifier after identifier.
pub open spec fn all_cells(s: Seq<IdView>) -> Seq<IdView>
    decreases s.len(),
{
    if s.len() == 0 {
        Seq::empty()
    } else {
        all_cells(s.drop_last()) + s.last().unit_cells()
    }
}

impl SpaceTimeIdSet {
    /// The identifiers of the single cells that the identifiers of the set
    /// are made of, identifier after identifier, each as
    /// [`SpaceTimeId::pure`] gives them.
    pub fn pure(&self) -> (res: Vec<SpaceTimeId>)
        requires
            self.wf(),
        ensures
            views(res@) == all_cells(self@),
    {
        let items = self.entries();
        let mut out: Vec<SpaceTimeId> = Vec::new();
        let mut k: usize = 0;
        proof {
            assert(self@.subrange(0, 0) =~= Seq::<IdView>::empty());
            assert(views(out@) =~= Seq::<IdView>::empty());
        }
        while k < items.len()
            invariant
                k <= items.len(),
                views(items@) == self@,
                self.wf(),
                views(out@) == all_cells(self@.subrange(0, k as int)),
            decreases items.len() - k,
        {
            let ghost head = self@.subrange(0, k as int);
            let ghost more = self@.subrange(0, k + 1);
            proof {
                assert(more.drop_last() =~= head);
                assert(more.last() == items@[k as int]@);
                assert(self@[k as int].wf());
            }
            let cells = items[k].pure();
            let ghost before = views(out@);
            let mut j: usize = 0;
            while j < cells.len()
                invariant
                    j <= cells.len(),
                    views(out@) == before + views(cells@).subrange(0, j as int),
                decreases cells.len() - j,
            {
                let ghost prev = views(out@);
                out.push(cells[j]);
                proof {
                    assert(views(out@) =~= prev.push(cells@[j as int]@));
                    assert(views(cells@).subrange(0, j + 1) =~= views(cells@).subrange(
                        0,
                        j as int,
                    ).push(cells@[j as int]@));
                    assert(views(out@) =~= before + views(cells@).subrange(0, j + 1));
                }
                j = j + 1;
            }
            proof {
                assert(views(cells@).subrange(0, cells.len() as int) =~= views(cells@));
            }
            k = k + 1;
        }
        proof {
            assert(self@.subrange(0, self@.len() as int) =~= self@);
        }
        out
    }
}

} // verus!
