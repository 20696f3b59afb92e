//! The complement of a set.

use vstd::prelude::*;
use crate::id::cover::Point;
use crate::id::{DimensionRange, IdError, IdView, SpaceTimeId};
use crate::id::complement::model_complement;
use crate::set::and::shared_parts;
use crate::set::insert::unfit;
use crate::set::{
    all_spatial, all_tall, covered, disjoint, set_result_view, views, SpaceTimeIdSet,
};

verus! {

/// The identifier that covers the whole grid and all time: zoom level 0,
/// each range `Any`, no interval.
pub open spec fn whole_grid() -> IdView {
    IdView {
        z: 0,
        f: DimensionRange::Any,
        x: DimensionRange::Any,
        y: DimensionRange::Any,
        i: 0,
        t: DimensionRange::Any,
    }
}

/// The complement of the first `n` identifiers of a sequence: the whole
/// grid, of which only what it shares with the complement of each of them in
/// turn is kept; or the first error on the way.
pub open spec fn model_set_complement(a: Seq<IdView>, n: nat) -> Result<Seq<IdView>, IdError>
    decreases n,
{
    if n == 0 {
        Ok(seq![whole_grid()])
    } else {
        match model_set_complement(a, (n - 1) as nat) {
            Err(e) => Err(e),
            Ok(acc) => match model_complement(a[n - 1]) {
                Err(e) => Err(e),
                Ok(c) => shared_parts(acc, c, (acc.len() * c.len()) as nat),
            },
        }
    }
}

/// An error on the way stays the error of the complement.
pub proof fn lemma_set_complement_stays(a: Seq<IdView>, n: nat, m: nat)
    requires
        n <= m,
    ensures
        model_set_complement(a, n) is Err ==> model_set_complement(a, m) == model_set_complement(
            a,
            n,
        ),
    decreases m - n,
{
    if n < m && model_set_complement(a, n) is Err {
        lemma_set_complement_stays(a, n, (m - 1) as nat);
    }
}

/// The complement of every identifier of the sequence covers all that the
/// identifier leaves out.
pub open spec fn all_complement_exact(s: Seq<IdView>) -> bool {
    forall|k: int| 0 <= k < s.len() ==> (#[trigger] s[k]).complement_exact()
}

/// What holds of the complement `c` of a set `a`.
///
/// Its identifiers share no point, and it covers no point that `a` covers; it
/// covers every other point of the grid where the complement of each
/// identifier of `a` covers all that the identifier leaves out. It has no
/// intervals where `a` has none, and its identifiers reach every height
/// where those of `a` do.
pub open spec fn complemented(a: Seq<IdView>, c: Seq<IdView>) -> bool {
    &&& (all_spatial(a) ==> all_spatial(c))
    &&& (all_tall(a) ==> all_tall(c))
    &&& disjoint(c)
    &&& (forall|p: Point| #[trigger] covered(c, p) ==> p.in_space() && !covered(a, p))
    &&& (all_complement_exact(a) ==> forall|p: Point|
        p.in_space() && !covered(a, p) ==> #[trigger] covered(c, p))
}

impl SpaceTimeIdSet {
    /// The set of the one identifier that covers the whole grid and all
    /// time: zoom level 0, each range `Any`, no interval.
    pub fn universe() -> (res: Self)
        ensures
            res@ == seq![whole_grid()],
            res.wf(),
            res@.len() == 1,
            res@[0].z == 0,
            res@[0].i == 0,
            res@[0].full_space(),
            res@[0].t is Any,
            disjoint(res@),
            forall|p: Point| #[trigger] covered(res@, p) <==> p.in_space(),
    {
        let made = SpaceTimeId::new(
            0,
            DimensionRange::Any,
            DimensionRange::Any,
            DimensionRange::Any,
            0,
            DimensionRange::Any,
        );
        match made {
            Ok(all) => {
                let mut inner: Vec<SpaceTimeId> = Vec::new();
                inner.push(all);
                let res = Self::from_entries(inner);
                proof {
                    assert(res@[0] == all@);
                    assert(res@ =~= seq![whole_grid()]);
                    assert forall|p: Point| #[trigger] covered(res@, p) <==> p.in_space() by {
                        crate::set::insert::lemma_single(res@, all@, p);
                    }
                    crate::set::insert::lemma_single(res@, all@, crate::id::cover::first_point(all@));
                }
                res
            },
            Err(_) => vstd::pervasive::unreached(),
        }
    }

    /// The complement of the set: the intersection of the complements of its
    /// identifiers, taken one after the other, starting from the whole grid.
    ///
    /// It fails where a complement or an intersection fails, never for a set
    /// without intervals; [`complemented`] says what holds of the result.
    pub fn complement(&self) -> (res: Result<SpaceTimeIdSet, IdError>)
        requires
            self.wf(),
        ensures
            set_result_view(res) == model_set_complement(self@, self@.len()),
            res matches Ok(c) ==> c.wf() && complemented(self@, c@),
            res matches Err(e) ==> unfit(e),
            all_spatial(self@) ==> res is Ok,
    {
        let items = self.entries();
        let mut acc = Self::universe();
        let mut j: usize = 0;
        proof {
            assert(self@.subrange(0, 0) =~= Seq::<IdView>::empty());
        }
        while j < items.len()
            invariant
                j <= items.len(),
                views(items@) == self@,
                self.wf(),
                acc.wf(),
                model_set_complement(self@, j as nat) == Ok::<Seq<IdView>, IdError>(acc@),
                all_spatial(self@) ==> all_spatial(acc@),
                all_tall(self@) ==> all_tall(acc@),
                disjoint(acc@),
                forall|p: Point| #[trigger]
                    covered(acc@, p) ==> p.in_space() && !covered(self@.subrange(0, j as int), p),
                all_complement_exact(self@) ==> forall|p: Point|
                    p.in_space() && !covered(self@.subrange(0, j as int), p) ==> #[trigger] covered(
                        acc@,
                        p,
                    ),
            decreases items.len() - j,
        {
            let item = items[j];
            let ghost cur = acc@;
            let ghost head = self@.subrange(0, j as int);
            let ghost more = self@.subrange(0, j + 1);
            proof {
                assert(self@[j as int] == item@);
                assert(self@[j as int].wf());
            }
            proof {
                lemma_set_complement_stays(self@, (j + 1) as nat, self@.len());
            }
            let rest = match item.complement() {
                Ok(c) => c,
                Err(e) => {
                    return Err(e);
                },
            };
            proof {
                if all_spatial(self@) {
                    assert(self@[j as int].i == 0);
                    assert(all_spatial(rest@));
                }
                if all_tall(self@) {
                    assert(self@[j as int].f is Any);
                }
            }
            acc = match acc.intersection(&rest) {
                Ok(s) => s,
                Err(e) => {
                    return Err(e);
                },
            };
            proof {
                assert forall|p: Point| #[trigger] covered(acc@, p) implies p.in_space()
                    && !covered(more, p) by {
                    if covered(more, p) {
                        let i = choose|i: int|
                            0 <= i < more.len() && (#[trigger] more[i]).covers(p);
                        if i < j {
                            assert(head[i].covers(p));
                        }
                    }
                }
                if all_complement_exact(self@) {
                    assert(self@[j as int].complement_exact());
                    assert forall|p: Point| p.in_space() && !covered(more, p) implies #[trigger] covered(
                        acc@,
                        p,
                    ) by {
                        if covered(head, p) {
                            let i = choose|i: int|
                                0 <= i < head.len() && (#[trigger] head[i]).covers(p);
                            assert(more[i].covers(p));
                        }
                        if self@[j as int].covers(p) {
                            assert(more[j as int].covers(p));
                        }
                    }
                }
            }
            j = j + 1;
        }
        proof {
            assert(self@.subrange(0, self@.len() as int) =~= self@);
        }
        Ok(acc)
    }
}

} // verus!
