//! Whether one identifier holds another.

use vstd::prelude::*;
use crate::id::cover::Point;
use crate::id::relation::{model_relation, relates, relation, Relation, RelationView};
use crate::id::{IdError, IdView, SpaceTimeId};

verus! {

/// How far an identifier holds another one.
#[derive(Debug, PartialEq)]
pub enum Containment {
    /// It holds all of the other.
    Full,
    /// It holds the part of the other given here, and not all of it.
    Partial(SpaceTimeId),
    /// It holds nothing of the other.
    Nothing,
}

/// A containment, with the identifier it holds as mathematical values.
pub enum ContainmentView {
    Full,
    Partial(IdView),
    Nothing,
}

impl View for Containment {
    type V = ContainmentView;

    open spec fn view(&self) -> ContainmentView {
        match *self {
            Containment::Full => ContainmentView::Full,
            Containment::Partial(v) => ContainmentView::Partial(v@),
            Containment::Nothing => ContainmentView::Nothing,
        }
    }
}

/// How far `a` holds `b`, by the relation of the two: all of it where they
/// are equal or `b` lies within `a`, the shared part where `a` lies within `b`
/// or they overlap, nothing where they are disjoint.
pub open spec fn model_containment(a: IdView, b: IdView) -> Result<ContainmentView, IdError> {
    match model_relation(a, b) {
        Err(e) => Err(e),
        Ok(RelationView::Equal(_)) => Ok(ContainmentView::Full),
        Ok(RelationView::Superset(_)) => Ok(ContainmentView::Full),
        Ok(RelationView::Subset(v)) => Ok(ContainmentView::Partial(v)),
        Ok(RelationView::Overlap(v)) => Ok(ContainmentView::Partial(v)),
        Ok(RelationView::Disjoint) => Ok(ContainmentView::Nothing),
    }
}

/// What a containment `c` says of what `a` and `b` cover: `a` covers all
/// that `b` covers where it is `Full`, the two share no point where it is
/// `Nothing`, and else the identifier that it holds covers what both cover.
pub open spec fn contains_as(a: IdView, b: IdView, c: ContainmentView) -> bool {
    match c {
        ContainmentView::Full => forall|p: Point| #[trigger] b.covers(p) ==> a.covers(p),
        ContainmentView::Partial(v) => forall|p: Point| #[trigger]
            v.covers(p) <==> a.covers(p) && b.covers(p),
        ContainmentView::Nothing => forall|p: Point| !(#[trigger] a.covers(p) && b.covers(p)),
    }
}

/// What [`SpaceTimeId::containment_relation`] returns, read as the model
/// reads it.
pub open spec fn containment_view(res: Result<Containment, IdError>) -> Result<
    ContainmentView,
    IdError,
> {
    match res {
        Ok(c) => Ok(c@),
        Err(e) => Err(e),
    }
}

impl SpaceTimeId {
    /// How far this identifier holds `other`, both compared as [`relation`]
    /// compares them, so that the answer holds of what the two cover; it
    /// fails where `relation` fails.
    pub fn containment_relation(&self, other: &SpaceTimeId) -> (res: Result<Containment, IdError>)
        requires
            self.wf(),
            other.wf(),
        ensures
            containment_view(res) == model_containment(self@, other@),
            res matches Ok(Containment::Partial(v)) ==> v.wf(),
            res matches Ok(c) ==> contains_as(self@, other@, c@),
            res matches Err(e) ==> e == IdError::ScaleError(crate::id::ScaleFault::TimeOverflow),
            self@.i == other@.i || self@.i == 0 || other@.i == 0 ==> res is Ok,
    {
        proof {
            if model_relation(self@, other@) is Ok {
                crate::id::relation::lemma_relates(self@, other@);
                let r = model_relation(self@, other@)->Ok_0;
                let a = self@;
                let b = other@;
                assert(relates(a, b, r));
                match r {
                    RelationView::Disjoint => {
                        assert forall|p: Point| !(#[trigger] a.covers(p) && b.covers(p)) by {}
                    },
                    RelationView::Equal(v) => {
                        assert forall|p: Point| #[trigger] b.covers(p) implies a.covers(p) by {}
                    },
                    RelationView::Superset(v) => {
                        assert forall|p: Point| #[trigger] b.covers(p) implies a.covers(p) by {}
                    },
                    RelationView::Subset(v) => {
                        assert forall|p: Point| #[trigger]
                            v.covers(p) <==> a.covers(p) && b.covers(p) by {
                            if v.covers(p) {
                                assert(a.covers(p));
                            }
                        }
                    },
                    RelationView::Overlap(v) => {
                        assert forall|p: Point| #[trigger]
                            v.covers(p) <==> a.covers(p) && b.covers(p) by {
                            if v.covers(p) {
                                assert(a.covers(p));
                            }
                        }
                    },
                }
            }
        }
        match relation(*self, *other) {
            Err(e) => Err(e),
            Ok(Relation::Equal(_)) => Ok(Containment::Full),
            Ok(Relation::Superset(_)) => Ok(Containment::Full),
            Ok(Relation::Subset(v)) => Ok(Containment::Partial(v)),
            Ok(Relation::Overlap(v)) => Ok(Containment::Partial(v)),
            Ok(Relation::Disjoint) => Ok(Containment::Nothing),
        }
    }
}

} // verus!
