//! The union of two sets.

use vstd::prelude::*;
use crate::id::cover::Point;
use crate::id::{IdError, IdView};
use crate::set::insert::{
    apart_outside, inserted, kept, model_insert, steady, tall_before, unfit,
};
use crate::set::{
    all_spatial, all_tall, all_timed, covered, disjoint, set_result_view, views, SpaceTimeIdSet,
};

verus! {

/// The sequence `a` after the first `n` identifiers of `b` were put into it
/// one after the other by [`model_insert`]; or the first error on the way.
pub open spec fn model_union(a: Seq<IdView>, b: Seq<IdView>, n: nat) -> Result<Seq<IdView>, IdError>
    decreases n,
{
    if n == 0 {
        Ok(a)
    } else {
        match model_union(a, b, (n - 1) as nat) {
            Err(e) => Err(e),
            Ok(u) => model_insert(u, b[n - 1]),
        }
    }
}

/// An error on the way stays the error of the union.
pub proof fn lemma_union_stays(a: Seq<IdView>, b: Seq<IdView>, n: nat, m: nat)
    requires
        n <= m,
    ensures
        model_union(a, b, n) is Err ==> model_union(a, b, m) == model_union(a, b, n),
    decreases m - n,
{
    if n < m && model_union(a, b, n) is Err {
        lemma_union_stays(a, b, n, (m - 1) as nat);
    }
}

/// No identifier of the sequence is the whole grid at zoom level 0.
pub open spec fn none_whole_at_zero(s: Seq<IdView>) -> bool {
    forall|k: int| 0 <= k < s.len() ==> !(#[trigger] s[k]).whole_at_zero()
}

/// No identifier of the sequence reaches every height: none has the
/// vertical range `Any`.
pub open spec fn all_short(s: Seq<IdView>) -> bool {
    forall|k: int| 0 <= k < s.len() ==> !((#[trigger] s[k]).f is Any)
}

/// The identifiers of `b` share no point, neither with each other nor with
/// those of `a`.
pub open spec fn beside(a: Seq<IdView>, b: Seq<IdView>) -> bool {
    disjoint(b) && forall|p: Point| !(#[trigger] covered(a, p) && covered(b, p))
}

/// Each identifier of `b` is covered once it is put into a set that has
/// grown from `a`. Without intervals: `b` does not hold the whole grid at
/// zoom level 0. With them: each identifier of `b` has a time range other
/// than `Any`, and either none of them has the vertical range `Any`, or each
/// identifier of `a` and of `b` has it.
pub open spec fn joins_in_turn(a: Seq<IdView>, b: Seq<IdView>) -> bool {
    (all_spatial(a) && all_spatial(b) && none_whole_at_zero(b)) || (all_timed(b) && (all_short(b)
        || (all_tall(a) && all_tall(b))))
}

/// The union of `a` and `b` covers all that the two cover: the identifiers
/// of `b` lie beside each other and those of `a`, or each is covered once it
/// is put in.
pub open spec fn joins(a: Seq<IdView>, b: Seq<IdView>) -> bool {
    beside(a, b) || joins_in_turn(a, b)
}

/// What holds of the union `u` of two sets `a` and `b`.
///
/// Each identifier of `a` is still there and covers what it covered; `u` has
/// no intervals where neither `a` nor `b` has, and its identifiers reach
/// every height where those of `a` and `b` do. Where the identifiers
/// of `a` share no point, those of `u` share none, and `u` covers nothing but
/// what `a` or `b` covers; it covers all of that where the two are as
/// [`joins`] says; and it is `a` where `a` covers all of `b`.
pub open spec fn unioned(a: Seq<IdView>, b: Seq<IdView>, u: Seq<IdView>) -> bool {
    &&& kept(a, u)
    &&& (all_spatial(a) && all_spatial(b) ==> all_spatial(u))
    &&& (all_tall(a) && all_tall(b) ==> all_tall(u))
    &&& (disjoint(a) ==> {
        &&& disjoint(u)
        &&& (forall|p: Point| #[trigger] covered(u, p) ==> covered(a, p) || covered(b, p))
        &&& (joins(a, b) ==> forall|p: Point|
            covered(a, p) || covered(b, p) ==> #[trigger] covered(u, p))
        &&& ((forall|p: Point| #[trigger] covered(b, p) ==> covered(a, p)) ==> u == a)
    })
}

/// What holds of a set after the first `j` identifiers of `b` were put into
/// it, one more is put in.
proof fn lemma_union_step(
    a: Seq<IdView>,
    b: Seq<IdView>,
    cur: Seq<IdView>,
    after: Seq<IdView>,
    j: int,
)
    requires
        0 <= j < b.len(),
        all_spatial(a) && all_spatial(b) ==> all_spatial(cur),
        all_tall(a) && all_tall(b) ==> all_tall(cur),
        kept(a, cur),
        inserted(cur, after, b[j], 0, cur.len() as int),
        disjoint(a) ==> {
            &&& disjoint(cur)
            &&& (forall|p: Point| #[trigger]
                covered(cur, p) ==> covered(a, p) || covered(b.subrange(0, j), p))
            &&& (joins_in_turn(a, b) ==> forall|p: Point|
                covered(a, p) || covered(b.subrange(0, j), p) ==> #[trigger] covered(cur, p))
            &&& ((forall|p: Point| #[trigger] covered(b, p) ==> covered(a, p)) ==> cur == a)
        },
    ensures
        all_spatial(a) && all_spatial(b) ==> all_spatial(after),
        all_tall(a) && all_tall(b) ==> all_tall(after),
        kept(a, after),
        disjoint(a) ==> {
            &&& disjoint(after)
            &&& (forall|p: Point| #[trigger]
                covered(after, p) ==> covered(a, p) || covered(b.subrange(0, j + 1), p))
            &&& (joins_in_turn(a, b) ==> forall|p: Point|
                covered(a, p) || covered(b.subrange(0, j + 1), p) ==> #[trigger] covered(after, p))
            &&& ((forall|p: Point| #[trigger] covered(b, p) ==> covered(a, p)) ==> after == a)
        },
{
    let head = b.subrange(0, j);
    let more = b.subrange(0, j + 1);
    if all_spatial(a) && all_spatial(b) {
        assert(b[j].i == 0);
    }
    if all_tall(a) && all_tall(b) {
        assert(b[j].f is Any);
    }
    assert(kept(a, after)) by {
        assert forall|k: int, p: Point|
            0 <= k < a.len() && #[trigger] a[k].covers(p) implies after[k].covers(p) by {
            assert(cur[k].covers(p));
        }
    }
    if disjoint(a) {
        assert(apart_outside(cur, b[j], 0, cur.len() as int));
        assert forall|p: Point| #[trigger] covered(after, p) implies covered(a, p) || covered(
            more,
            p,
        ) by {
            let k = choose|k: int| 0 <= k < after.len() && (#[trigger] after[k]).covers(p);
            if k < cur.len() && cur[k].covers(p) {
                assert(covered(cur, p));
                if !covered(a, p) {
                    let i = choose|i: int| 0 <= i < head.len() && (#[trigger] head[i]).covers(p);
                    assert(more[i].covers(p));
                }
            } else {
                crate::set::insert::lemma_single(seq![b[j]], b[j], p);
                assert(more[j].covers(p));
            }
        }
        if joins_in_turn(a, b) {
            assert(steady(cur, b[j], cur.len() as int)) by {
                if all_spatial(a) && all_spatial(b) && none_whole_at_zero(b) {
                    assert(!b[j].whole_at_zero());
                } else {
                    assert(b[j].timed());
                    if all_short(b) {
                        assert(!(b[j].f is Any));
                    } else {
                        assert(tall_before(cur, cur.len() as int));
                    }
                }
            }
            assert forall|p: Point| covered(a, p) || covered(more, p) implies #[trigger] covered(
                after,
                p,
            ) by {
                if covered(more, p) && !covered(a, p) {
                    let i = choose|i: int| 0 <= i < more.len() && (#[trigger] more[i]).covers(p);
                    if i < j {
                        assert(head[i].covers(p));
                    } else {
                        assert(b[j].covers(p));
                    }
                }
                if covered(a, p) || covered(head, p) {
                    assert(covered(cur, p));
                    let k = choose|k: int| 0 <= k < cur.len() && (#[trigger] cur[k]).covers(p);
                    assert(after[k].covers(p));
                }
            }
        }
        if forall|p: Point| #[trigger] covered(b, p) ==> covered(a, p) {
            assert forall|p: Point| #[trigger] b[j].covers(p) implies covered(cur, p) by {
                assert(covered(b, p));
            }
        }
    }
}

impl SpaceTimeIdSet {
    /// The union of this set and `other`: this set with every identifier of
    /// `other` put into it by [`SpaceTimeIdSet::insert`], in their order.
    ///
    /// It fails where `insert` fails, never for two sets without intervals;
    /// [`unioned`] says what holds of the result.
    pub fn union(&self, other: &SpaceTimeIdSet) -> (res: Result<SpaceTimeIdSet, IdError>)
        requires
            self.wf(),
            other.wf(),
        ensures
            set_result_view(res) == model_union(self@, other@, other@.len()),
            res matches Ok(u) ==> u.wf() && self@.len() <= u@.len() && unioned(self@, other@, u@),
            res matches Err(e) ==> unfit(e),
            all_spatial(self@) && all_spatial(other@) ==> res is Ok,
            other@.len() == 0 ==> (res matches Ok(u) && u@ == self@),
    {
        let mut acc = SpaceTimeIdSet::from_entries(Self::copy_entries(self.entries()));
        let items = other.entries();
        let mut j: usize = 0;
        proof {
            assert(other@.subrange(0, 0) =~= Seq::<IdView>::empty());
        }
        while j < items.len()
            invariant
                j <= items.len(),
                views(items@) == other@,
                self.wf(),
                other.wf(),
                acc.wf(),
                self@.len() <= acc@.len(),
                model_union(self@, other@, j as nat) == Ok::<Seq<IdView>, IdError>(acc@),
                j == 0 ==> acc@ == self@,
                all_spatial(self@) && all_spatial(other@) ==> all_spatial(acc@),
                all_tall(self@) && all_tall(other@) ==> all_tall(acc@),
                kept(self@, acc@),
                disjoint(self@) ==> {
                    &&& disjoint(acc@)
                    &&& (forall|p: Point| #[trigger]
                        covered(acc@, p) ==> covered(self@, p) || covered(
                            other@.subrange(0, j as int),
                            p,
                        ))
                    &&& (joins_in_turn(self@, other@) ==> forall|p: Point|
                        covered(self@, p) || covered(other@.subrange(0, j as int), p)
                            ==> #[trigger] covered(acc@, p))
                    &&& ((forall|p: Point| #[trigger] covered(other@, p) ==> covered(self@, p))
                        ==> acc@ == self@)
                },
            decreases items.len() - j,
        {
            let item = items[j];
            let ghost cur = acc@;
            proof {
                assert(other@[j as int] == item@);
                assert(other@[j as int].wf());
                if all_spatial(self@) && all_spatial(other@) {
                    assert(other@[j as int].i == 0);
                }
            }
            match acc.insert(item) {
                Err(e) => {
                    proof {
                        assert(model_union(self@, other@, (j + 1) as nat) == Err::<
                            Seq<IdView>,
                            IdError,
                        >(e));
                        lemma_union_stays(self@, other@, (j + 1) as nat, other@.len());
                    }
                    return Err(e);
                },
                Ok(()) => {},
            }
            proof {
                lemma_union_step(self@, other@, cur, acc@, j as int);
            }
            j = j + 1;
        }
        proof {
            assert(other@.subrange(0, other@.len() as int) =~= other@);
            if disjoint(self@) && beside(self@, other@) {
                crate::set::apart::lemma_union_apart(self@, other@, other@.len());
            }
        }
        Ok(acc)
    }
}

} // verus!
