//! A set of identifiers, and what it covers.

use vstd::prelude::*;
use vstd::string::StringExecFns;
use crate::id::cover::Point;
use crate::id::text::{id_text, ids_text, inspect_text, inspect_texts};
use crate::id::{IdError, IdView, SpaceTimeId};
use crate::set::insert::unfit;
use crate::set::or::unioned;

pub mod and;
pub mod apart;
pub mod equal;
pub mod insert;
pub mod merge;
pub mod not;
pub mod optimal;
pub mod or;
pub mod pure;
pub mod to_pure;
pub mod xor;

verus! {

/// The identifiers of a sequence, as mathematical values.
pub open spec fn views(s: Seq<SpaceTimeId>) -> Seq<IdView> {
    Seq::new(s.len(), |k: int| s[k]@)
}

/// Every identifier of the sequence is well-formed.
pub open spec fn all_wf(s: Seq<IdView>) -> bool {
    forall|k: int| 0 <= k < s.len() ==> (#[trigger] s[k]).wf()
}

/// No identifier of the sequence has a time interval.
pub open spec fn all_spatial(s: Seq<IdView>) -> bool {
    forall|k: int| 0 <= k < s.len() ==> (#[trigger] s[k]).i == 0
}

/// Every identifier of the sequence has a time interval and does not cover
/// all time.
pub open spec fn all_timed(s: Seq<IdView>) -> bool {
    forall|k: int| 0 <= k < s.len() ==> (#[trigger] s[k]).timed()
}

/// Every identifier of the sequence reaches every height: its vertical
/// range is `Any`.
pub open spec fn all_tall(s: Seq<IdView>) -> bool {
    forall|k: int| 0 <= k < s.len() ==> (#[trigger] s[k]).f is Any
}

/// Some identifier of the sequence covers the point.
pub open spec fn covered(s: Seq<IdView>, p: Point) -> bool {
    exists|k: int| 0 <= k < s.len() && (#[trigger] s[k]).covers(p)
}

/// No point is covered by two identifiers of the sequence.
pub open spec fn disjoint(s: Seq<IdView>) -> bool {
    forall|j: int, k: int, p: Point|
        0 <= j < k < s.len() ==> !(#[trigger] s[j].covers(p) && #[trigger] s[k].covers(p))
}

/// What a function that makes a set returns, read as the model reads it.
pub open spec fn set_result_view(res: Result<SpaceTimeIdSet, crate::id::IdError>) -> Result<
    Seq<IdView>,
    crate::id::IdError,
> {
    match res {
        Ok(s) => Ok(s@),
        Err(e) => Err(e),
    }
}

/// A set of identifiers. What it stands for is the volume that its
/// identifiers cover together: two sets that cover the same are taken as
/// equal by [`SpaceTimeIdSet::physical_equals`], whatever they hold.
#[derive(Debug, Clone)]
pub struct SpaceTimeIdSet {
    inner: Vec<SpaceTimeId>,
}

impl View for SpaceTimeIdSet {
    type V = Seq<IdView>;

    closed spec fn view(&self) -> Seq<IdView> {
        views(self.inner@)
    }
}

impl SpaceTimeIdSet {
    /// The identifiers that the set holds, in their order.
    pub closed spec fn items(&self) -> Seq<SpaceTimeId> {
        self.inner@
    }

    /// The view of a set is made of the views of its identifiers.
    pub proof fn lemma_items(&self)
        ensures
            self@ == views(self.items()),
    {
    }
}

impl SpaceTimeIdSet {
    /// Every identifier of the set is well-formed.
    pub open spec fn wf(&self) -> bool {
        all_wf(self@)
    }

    /// The set that holds the given identifiers, as they are and in their
    /// order.
    pub(crate) fn from_entries(inner: Vec<SpaceTimeId>) -> (res: Self)
        ensures
            res@ == views(inner@),
    {
        SpaceTimeIdSet { inner }
    }

    /// The identifiers that the set holds, in their order.
    pub(crate) fn entries(&self) -> (r: &Vec<SpaceTimeId>)
        ensures
            views(r@) == self@,
    {
        &self.inner
    }

    /// A set that holds nothing.
    pub fn new() -> (res: Self)
        ensures
            res@ == Seq::<IdView>::empty(),
            res.wf(),
    {
        let res = SpaceTimeIdSet { inner: Vec::new() };
        assert(res@ =~= Seq::<IdView>::empty());
        res
    }

    /// The set holds no identifier.
    pub fn is_empty(&self) -> (r: bool)
        ensures
            r == (self@.len() == 0),
    {
        self.inner.len() == 0
    }

    /// The number of identifiers that the set holds.
    pub fn len(&self) -> (r: usize)
        ensures
            r == self@.len(),
    {
        self.inner.len()
    }

    /// The identifier at place `k`.
    pub fn get(&self, k: usize) -> (r: SpaceTimeId)
        requires
            k < self@.len(),
        ensures
            r == self.items()[k as int],
            r@ == self@[k as int],
    {
        self.inner[k]
    }

    /// The identifiers of the set, one after the other in their order.
    pub fn iter(&self) -> (it: std::slice::Iter<'_, SpaceTimeId>)
        ensures
            vstd::std_specs::slice::into_iter_elts(it) == self.items(),
    {
        broadcast use vstd::std_specs::slice::axiom_spec_slice_iter;

        let it = self.inner.iter();
        assert(vstd::std_specs::slice::into_iter_elts(it) =~= self.inner@);
        it
    }

    /// The set that holds the one identifier, in the form in which a set
    /// stores it: with the longest interval, and then at the coarsest zoom
    /// level, at which it covers what it covers.
    pub fn from(id: SpaceTimeId) -> (res: Self)
        requires
            id.wf(),
        ensures
            res@ == seq![id@.optimal()],
            res.wf(),
            forall|p: Point| #[trigger] covered(res@, p) <==> id@.covers(p),
            disjoint(res@),
            res@[0].i == 0 <==> id@.i == 0,
            id@.timed() ==> res@[0].timed(),
            id@.f is Any ==> res@[0].f is Any,
    {
        Self::single(id)
    }

    /// The set that the identifiers make when they are put, in their order,
    /// into an empty set by [`SpaceTimeIdSet::insert`].
    ///
    /// It fails where `insert` fails, never for identifiers without
    /// intervals; [`unioned`] says what holds of the result.
    pub fn from_iter(ids: Vec<SpaceTimeId>) -> (res: Result<Self, IdError>)
        requires
            all_wf(views(ids@)),
        ensures
            set_result_view(res) == crate::set::or::model_union(
                Seq::<IdView>::empty(),
                views(ids@),
                ids@.len(),
            ),
            res matches Ok(s) ==> s.wf() && unioned(Seq::<IdView>::empty(), views(ids@), s@),
            res matches Err(e) ==> unfit(e),
            all_spatial(views(ids@)) ==> res is Ok,
    {
        let items = Self::from_entries(ids);
        let empty = Self::new();
        empty.union(&items)
    }

    /// The identifiers of the set as they are written, with `, ` between
    /// them.
    pub fn to_string(&self) -> (res: String)
        ensures
            res@ == ids_text(self@),
    {
        let mut out = String::new();
        let mut k: usize = 0;
        proof {
            assert(self@.subrange(0, 0) =~= Seq::<IdView>::empty());
        }
        while k < self.inner.len()
            invariant
                k <= self.inner.len(),
                out@ == ids_text(self@.subrange(0, k as int)),
            decreases self.inner.len() - k,
        {
            let ghost before = out@;
            let ghost head = self@.subrange(0, k as int);
            let ghost more = self@.subrange(0, k + 1);
            proof {
                reveal_strlit(", ");
                assert(more.drop_last() =~= head);
                assert(more.last() == self.inner@[k as int]@);
            }
            if k > 0 {
                out.append(", ");
            }
            self.inner[k].write_to(&mut out);
            proof {
                if k > 0 {
                    assert(out@ =~= ids_text(head) + seq![',', ' '] + id_text(more.last()));
                } else {
                    assert(out@ =~= id_text(more.last()));
                }
            }
            k = k + 1;
        }
        proof {
            assert(self@.subrange(0, self@.len() as int) =~= self@);
        }
        out
    }

    /// The identifiers of the set as they are written for inspection, each
    /// as `z/x/y/f_i/t`, with `, ` between them and in square brackets.
    pub fn to_debug_string(&self) -> (res: String)
        ensures
            res@ == seq!['['] + inspect_texts(self@) + seq![']'],
    {
        let mut out = String::new();
        proof {
            reveal_strlit("[");
            reveal_strlit("]");
        }
        out.append("[");
        let mut k: usize = 0;
        proof {
            assert(self@.subrange(0, 0) =~= Seq::<IdView>::empty());
            assert(out@ =~= seq!['['] + inspect_texts(self@.subrange(0, 0)));
        }
        while k < self.inner.len()
            invariant
                k <= self.inner.len(),
                out@ == seq!['['] + inspect_texts(self@.subrange(0, k as int)),
            decreases self.inner.len() - k,
        {
            let ghost head = self@.subrange(0, k as int);
            let ghost more = self@.subrange(0, k + 1);
            proof {
                reveal_strlit(", ");
                assert(more.drop_last() =~= head);
                assert(more.last() == self.inner@[k as int]@);
            }
            if k > 0 {
                out.append(", ");
            }
            self.inner[k].inspect_to(&mut out);
            proof {
                if k > 0 {
                    assert(out@ =~= seq!['['] + (inspect_texts(head) + seq![',', ' ']
                        + inspect_text(more.last())));
                } else {
                    assert(out@ =~= seq!['['] + inspect_text(more.last()));
                }
            }
            k = k + 1;
        }
        proof {
            assert(self@.subrange(0, self@.len() as int) =~= self@);
        }
        out.append("]");
        out
    }
}

} // verus!
