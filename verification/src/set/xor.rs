//! The symmetric difference of two sets.

use vstd::prelude::*;
use crate::id::cover::Point;
use crate::id::{IdError, IdView};
use crate::set::and::shared_parts;
use crate::set::insert::unfit;
use crate::set::not::{all_complement_exact, complemented, model_set_complement};
use crate::set::or::{beside, joins, model_union, unioned};
use crate::set::{all_spatial, all_wf, covered, disjoint, set_result_view, SpaceTimeIdSet};

verus! {

/// The symmetric difference of two sequences: the union of what `a` shares
/// with the complement of `b`, and what the complement of `a` shares with
/// `b`; or the first error on the way, the complement of `b` being taken
/// first.
pub open spec fn model_symmetric_difference(a: Seq<IdView>, b: Seq<IdView>) -> Result<
    Seq<IdView>,
    IdError,
> {
    match model_set_complement(b, b.len()) {
        Err(e) => Err(e),
        Ok(not_b) => match model_set_complement(a, a.len()) {
            Err(e) => Err(e),
            Ok(not_a) => match shared_parts(a, not_b, (a.len() * not_b.len()) as nat) {
                Err(e) => Err(e),
                Ok(left) => match shared_parts(not_a, b, (not_a.len() * b.len()) as nat) {
                    Err(e) => Err(e),
                    Ok(right) => model_union(left, right, right.len()),
                },
            },
        },
    }
}

/// What holds of the symmetric difference `x` of two sets `a` and `b`, in
/// each of which the identifiers share no point.
///
/// It has no intervals where the two have none, its identifiers share no
/// point, and it covers no point that both or neither of the two cover. It
/// covers every point that one of them alone covers where the complement of
/// each identifier covers all that the identifier leaves out.
pub open spec fn differed(a: Seq<IdView>, b: Seq<IdView>, x: Seq<IdView>) -> bool {
    disjoint(a) && disjoint(b) ==> {
        &&& (all_spatial(a) && all_spatial(b) ==> all_spatial(x))
        &&& disjoint(x)
        &&& (forall|p: Point| #[trigger] covered(x, p) ==> (covered(a, p) != covered(b, p)))
        &&& (all_complement_exact(a) && all_complement_exact(b) ==> forall|p: Point|
            (covered(a, p) != covered(b, p)) ==> #[trigger] covered(x, p))
    }
}

impl SpaceTimeIdSet {
    /// The symmetric difference of this set and `other`: the union of what
    /// this set shares with the complement of `other`, and of what `other`
    /// shares with the complement of this set.
    ///
    /// It fails where a complement, an intersection or the union fails, never
    /// for two sets without intervals; [`differed`] says what holds of the
    /// result.
    pub fn symmetric_difference(&self, other: &SpaceTimeIdSet) -> (res: Result<
        SpaceTimeIdSet,
        IdError,
    >)
        requires
            self.wf(),
            other.wf(),
        ensures
            set_result_view(res) == model_symmetric_difference(self@, other@),
            res matches Ok(x) ==> x.wf() && differed(self@, other@, x@),
            res matches Err(e) ==> unfit(e),
            all_spatial(self@) && all_spatial(other@) ==> res is Ok,
    {
        let not_other = match other.complement() {
            Ok(c) => c,
            Err(e) => {
                return Err(e);
            },
        };
        let not_self = match self.complement() {
            Ok(c) => c,
            Err(e) => {
                return Err(e);
            },
        };
        let left = match self.intersection(&not_other) {
            Ok(s) => s,
            Err(e) => {
                return Err(e);
            },
        };
        let right = match not_self.intersection(other) {
            Ok(s) => s,
            Err(e) => {
                return Err(e);
            },
        };
        let both = match left.union(&right) {
            Ok(s) => s,
            Err(e) => {
                return Err(e);
            },
        };
        proof {
            lemma_differed(
                self@,
                other@,
                not_self@,
                not_other@,
                left@,
                right@,
                both@,
            );
        }
        Ok(both)
    }
}

/// The union of what `a` shares with the complement of `b` and of what the
/// complement of `a` shares with `b` is the symmetric difference of the two.
pub proof fn lemma_differed(
    a: Seq<IdView>,
    b: Seq<IdView>,
    not_a: Seq<IdView>,
    not_b: Seq<IdView>,
    left: Seq<IdView>,
    right: Seq<IdView>,
    x: Seq<IdView>,
)
    requires
        all_wf(a),
        all_wf(b),
        all_wf(not_a),
        all_wf(not_b),
        complemented(a, not_a),
        complemented(b, not_b),
        shared_parts(a, not_b, (a.len() * not_b.len()) as nat) == Ok::<Seq<IdView>, IdError>(left),
        shared_parts(not_a, b, (not_a.len() * b.len()) as nat) == Ok::<Seq<IdView>, IdError>(
            right,
        ),
        unioned(left, right, x),
    ensures
        differed(a, b, x),
{
    if disjoint(a) && disjoint(b) {
        let nl = (a.len() * not_b.len()) as nat;
        let nr = (not_a.len() * b.len()) as nat;
        crate::set::and::lemma_shared_parts_wf(a, not_b, nl);
        crate::set::and::lemma_shared_parts_wf(not_a, b, nr);
        crate::set::and::lemma_shared_parts_cover(a, not_b, nl);
        crate::set::and::lemma_shared_parts_cover(not_a, b, nr);
        crate::set::and::lemma_shared_parts_apart(a, not_b, nl);
        if all_spatial(a) && all_spatial(b) {
            assert(all_spatial(left) && all_spatial(right));
        }
        assert(disjoint(left));
        assert forall|p: Point| #[trigger] covered(x, p) implies (covered(a, p) != covered(
            b,
            p,
        )) by {
            crate::set::and::lemma_shared_parts_all(a, not_b, left, p);
            crate::set::and::lemma_shared_parts_all(not_a, b, right, p);
            assert(covered(left, p) || covered(right, p));
        }
        crate::set::and::lemma_shared_parts_apart(not_a, b, nr);
        assert(beside(left, right)) by {
            assert forall|p: Point| !(#[trigger] covered(left, p) && covered(right, p)) by {
                crate::set::and::lemma_shared_parts_all(a, not_b, left, p);
                crate::set::and::lemma_shared_parts_all(not_a, b, right, p);
            }
        }
        if all_complement_exact(a) && all_complement_exact(b) {
            assert(joins(left, right));
            assert forall|p: Point| (covered(a, p) != covered(b, p)) implies #[trigger] covered(
                x,
                p,
            ) by {
                crate::set::and::lemma_shared_parts_all(a, not_b, left, p);
                crate::set::and::lemma_shared_parts_all(not_a, b, right, p);
                if covered(a, p) {
                    let k = choose|k: int| 0 <= k < a.len() && (#[trigger] a[k]).covers(p);
                    assert(p.in_space());
                    assert(covered(not_b, p));
                    assert(covered(left, p));
                } else {
                    let k = choose|k: int| 0 <= k < b.len() && (#[trigger] b[k]).covers(p);
                    assert(p.in_space());
                    assert(covered(not_a, p));
                    assert(covered(right, p));
                }
            }
        }
    }
}

} // verus!
