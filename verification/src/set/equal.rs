//! Whether two sets cover the same.

use vstd::prelude::*;
use crate::id::cover::{first_point, lemma_inhabited, Point};
use crate::id::{IdError, IdView};
use crate::set::insert::unfit;
use crate::set::and::shared_parts;
use crate::set::not::{all_complement_exact, model_set_complement};
use crate::set::{all_spatial, all_wf, covered, SpaceTimeIdSet};

verus! {

/// The two sequences cover the same points.
pub open spec fn same_volume(a: Seq<IdView>, b: Seq<IdView>) -> bool {
    forall|p: Point| covered(a, p) == covered(b, p)
}

/// A sequence of well-formed identifiers covers a point unless it is empty.
pub proof fn lemma_empty_covers_nothing(s: Seq<IdView>)
    requires
        all_wf(s),
    ensures
        s.len() == 0 <==> forall|p: Point| !covered(s, p),
{
    if s.len() > 0 {
        assert(s[0].wf());
        lemma_inhabited(s[0]);
        assert(covered(s, first_point(s[0])));
    }
}

/// Whether two sequences cover the same, as it is found: whether the
/// complement of `b` shares nothing with `a`, nor the complement of `a` with
/// `b`; or the first error on the way.
pub open spec fn model_physical_equals(a: Seq<IdView>, b: Seq<IdView>) -> Result<bool, IdError> {
    match model_set_complement(b, b.len()) {
        Err(e) => Err(e),
        Ok(not_b) => match shared_parts(not_b, a, (not_b.len() * a.len()) as nat) {
            Err(e) => Err(e),
            Ok(a_only) => match model_set_complement(a, a.len()) {
                Err(e) => Err(e),
                Ok(not_a) => match shared_parts(not_a, b, (not_a.len() * b.len()) as nat) {
                    Err(e) => Err(e),
                    Ok(b_only) => Ok(a_only.len() == 0 && b_only.len() == 0),
                },
            },
        },
    }
}

/// What the answer `same` of [`SpaceTimeIdSet::physical_equals`] says of two
/// sets: `false` only of sets that do not cover the same; and `true` only of
/// sets that cover the same, where the complement of each of their
/// identifiers covers all that the identifier leaves out.
pub open spec fn compared(a: Seq<IdView>, b: Seq<IdView>, same: bool) -> bool {
    &&& (!same ==> !same_volume(a, b))
    &&& (all_complement_exact(a) && all_complement_exact(b) ==> (same <==> same_volume(a, b)))
}

impl SpaceTimeIdSet {
    /// Whether this set and `other` cover the same volume, whatever
    /// identifiers they hold: whether this set shares nothing with the
    /// complement of `other`, nor `other` with the complement of this set.
    ///
    /// It fails where a complement or an intersection fails, never for two
    /// sets without intervals; [`compared`] says what the answer means.
    pub fn physical_equals(&self, other: &SpaceTimeIdSet) -> (res: Result<bool, IdError>)
        requires
            self.wf(),
            other.wf(),
        ensures
            res == model_physical_equals(self@, other@),
            res matches Ok(same) ==> compared(self@, other@, same),
            res matches Err(e) ==> unfit(e),
            all_spatial(self@) && all_spatial(other@) ==> res is Ok,
    {
        let not_other = match other.complement() {
            Ok(c) => c,
            Err(e) => {
                return Err(e);
            },
        };
        let a_minus_b = match not_other.intersection(self) {
            Ok(s) => s,
            Err(e) => {
                return Err(e);
            },
        };
        let not_self = match self.complement() {
            Ok(c) => c,
            Err(e) => {
                return Err(e);
            },
        };
        let b_minus_a = match not_self.intersection(other) {
            Ok(s) => s,
            Err(e) => {
                return Err(e);
            },
        };
        let same = a_minus_b.is_empty() && b_minus_a.is_empty();
        proof {
            lemma_empty_covers_nothing(a_minus_b@);
            lemma_empty_covers_nothing(b_minus_a@);
            if !same {
                if a_minus_b@.len() > 0 {
                    let p = choose|p: Point| covered(a_minus_b@, p);
                    assert(covered(self@, p) && !covered(other@, p));
                } else {
                    let p = choose|p: Point| covered(b_minus_a@, p);
                    assert(covered(other@, p) && !covered(self@, p));
                }
            }
            if same && all_complement_exact(self@) && all_complement_exact(other@) {
                assert forall|p: Point| covered(self@, p) == covered(other@, p) by {
                    assert(!covered(a_minus_b@, p));
                    assert(!covered(b_minus_a@, p));
                    if covered(self@, p) {
                        let k = choose|k: int|
                            0 <= k < self@.len() && (#[trigger] self@[k]).covers(p);
                        assert(p.in_space());
                    }
                    if covered(other@, p) {
                        let k = choose|k: int|
                            0 <= k < other@.len() && (#[trigger] other@[k]).covers(p);
                        assert(p.in_space());
                    }
                }
            }
        }
        Ok(same)
    }
}

} // verus!
