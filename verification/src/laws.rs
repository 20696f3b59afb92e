//! Laws that the functions of the library obey, each stated over what the
//! functions promise of their results.

use vstd::prelude::*;
use crate::id::complement::complement_of;
use crate::id::cover::{first_point, Point};
use crate::id::range::{
    lemma_canonical_bounds, lemma_meet_self, lemma_normalize_canonical, lemma_widen_one,
};
use crate::id::relation::{model_intersection, model_relation, RelationView};
use crate::id::scale::{lemma_scale_covers, lemma_scale_wf, model_scale, scaled_time};
use crate::id::{
    f_domain, lemma_domain_fits, lemma_new_idempotent, lemma_new_wf, model_new, t_domain,
    xy_domain, DimensionRange, IdError, IdView,
};
use crate::set::and::{lemma_shared_parts_all, lemma_shared_parts_wf, shared_parts};
use crate::set::equal::{lemma_empty_covers_nothing, same_volume};
use crate::set::insert::{apart_outside, beside_all, inserted, lemma_single, steady};
use crate::set::not::{all_complement_exact, complemented};
use crate::set::optimal::lemma_optimal;
use crate::set::or::{joins, unioned};
use crate::set::apart::lemma_union_apart;
use crate::set::or::model_union;
use crate::set::xor::differed;
use crate::set::{all_wf, covered, disjoint};

verus! {

/// Building an identifier again from the fields of one that was built gives
/// that identifier: bringing to canonical form what is canonical changes
/// nothing.
pub proof fn law_new_is_idempotent(
    z: int,
    f: DimensionRange<int>,
    x: DimensionRange<int>,
    y: DimensionRange<int>,
    i: int,
    t: DimensionRange<int>,
)
    requires
        0 <= z,
        0 <= i <= u32::MAX,
        t.bounds_within(0, u32::MAX as int),
    ensures
        model_new(z, f, x, y, i, t) matches Ok(v) ==> model_new(v.z, v.f, v.x, v.y, v.i, v.t)
            == Ok::<IdView, IdError>(v),
{
    lemma_new_wf(z, f, x, y, i, t);
    if model_new(z, f, x, y, i, t) is Ok {
        lemma_new_idempotent(model_new(z, f, x, y, i, t)->Ok_0);
    }
}

/// An identifier and its complement share nothing, and cover the grid
/// together, each point once: the intersection of the set of the identifier
/// with its complement is empty, the identifiers of their union share no
/// point, and the union covers every point of the grid.
///
/// The first two hold of every identifier, with or without an interval. The
/// last holds of one whose complement covers all that it leaves out; that
/// leaves out the identifiers whose complement is taken to be empty without a
/// look though they leave something out, and those at zoom level 0 whose
/// vertical range is not `Any`.
pub proof fn law_complement_total(r: IdView, c: Seq<IdView>, u: Seq<IdView>, n: Seq<IdView>)
    requires
        r.wf(),
        all_wf(c),
        complement_of(r, c),
        model_union(seq![r.optimal()], c, c.len()) == Ok::<Seq<IdView>, IdError>(u),
        shared_parts(seq![r.optimal()], c, (1 * c.len()) as nat) == Ok::<Seq<IdView>, IdError>(n),
    ensures
        n.len() == 0,
        disjoint(u),
        forall|p: Point| #[trigger] covered(u, p) <==> r.covers(p) || covered(c, p),
        r.complement_exact() ==> forall|p: Point| p.in_space() ==> covered(u, p),
{
    let own = seq![r.optimal()];
    lemma_optimal(r);
    assert(all_wf(own));
    lemma_single(own, r.optimal(), first_point(r));
    assert forall|p: Point| !(#[trigger] covered(own, p) && covered(c, p)) by {
        lemma_single(own, r.optimal(), p);
    }
    lemma_union_apart(own, c, c.len());
    assert(c.subrange(0, c.len() as int) =~= c);
    assert forall|p: Point| #[trigger] covered(u, p) <==> r.covers(p) || covered(c, p) by {
        lemma_single(own, r.optimal(), p);
    }
    if r.complement_exact() {
        assert forall|p: Point| p.in_space() implies covered(u, p) by {
            lemma_single(own, r.optimal(), p);
            if !r.covers(p) {
                assert(covered(c, p));
            }
        }
    }
    lemma_shared_parts_wf(own, c, (1 * c.len()) as nat);
    assert forall|p: Point| !covered(n, p) by {
        lemma_shared_parts_all(own, c, n, p);
        lemma_single(own, r.optimal(), p);
    }
    lemma_empty_covers_nothing(n);
}

/// The complement of the complement of an identifier, with or without an
/// interval, covers what the identifier covers.
///
/// This holds where the complement of the identifier, and that of each
/// identifier of its complement, covers all that is left out; it fails of an
/// identifier whose complement holds half of the grid at zoom level 0.
pub proof fn law_complement_involution(r: IdView, c: Seq<IdView>, cc: Seq<IdView>)
    requires
        r.wf(),
        r.complement_exact(),
        all_wf(c),
        complement_of(r, c),
        all_complement_exact(c),
        complemented(c, cc),
    ensures
        forall|p: Point| covered(cc, p) <==> r.covers(p),
{
    assert forall|p: Point| covered(cc, p) <==> r.covers(p) by {
        if r.covers(p) {
            assert(p.in_space());
            assert(!covered(c, p));
        }
    }
}

/// Putting an identifier into a set a second time changes nothing: the set
/// holds the same identifiers and covers the same.
///
/// This holds of a set whose identifiers share no point, with or without
/// intervals, and of an identifier that is covered once it is put in: one
/// that shares no point with the set, or is as [`steady`] says.
pub proof fn law_insert_idempotent(s: Seq<IdView>, once: Seq<IdView>, twice: Seq<IdView>, r: IdView)
    requires
        disjoint(s),
        steady(s, r, s.len() as int) || beside_all(s, r),
        inserted(s, once, r, 0, s.len() as int),
        inserted(once, twice, r, 0, once.len() as int),
    ensures
        twice == once,
        twice.len() == once.len(),
        same_volume(twice, once),
{
    assert(apart_outside(s, r, 0, s.len() as int));
    assert(apart_outside(once, r, 0, once.len() as int));
}

/// The union of two sets covers the same, whichever of the two comes first.
///
/// This holds of sets, with or without intervals, whose identifiers share
/// no point, and of which each can be the second of a union that covers all
/// that the two cover, as [`joins`] says.
pub proof fn law_union_commutes(a: Seq<IdView>, b: Seq<IdView>, ab: Seq<IdView>, ba: Seq<IdView>)
    requires
        disjoint(a),
        disjoint(b),
        joins(a, b),
        joins(b, a),
        unioned(a, b, ab),
        unioned(b, a, ba),
    ensures
        same_volume(ab, ba),
{
    assert forall|p: Point| covered(ab, p) == covered(ba, p) by {
        if covered(ab, p) {
            assert(covered(a, p) || covered(b, p));
            assert(covered(ba, p));
        }
        if covered(ba, p) {
            assert(covered(a, p) || covered(b, p));
            assert(covered(ab, p));
        }
    }
}

/// The intersection of two sets, with or without intervals, covers the
/// same, whichever of the two comes first.
pub proof fn law_intersection_commutes(
    a: Seq<IdView>,
    b: Seq<IdView>,
    ab: Seq<IdView>,
    ba: Seq<IdView>,
)
    requires
        all_wf(a),
        all_wf(b),
        shared_parts(a, b, (a.len() * b.len()) as nat) == Ok::<Seq<IdView>, IdError>(ab),
        shared_parts(b, a, (b.len() * a.len()) as nat) == Ok::<Seq<IdView>, IdError>(ba),
    ensures
        same_volume(ab, ba),
{
    assert forall|p: Point| covered(ab, p) == covered(ba, p) by {
        lemma_shared_parts_all(a, b, ab, p);
        lemma_shared_parts_all(b, a, ba, p);
    }
}

/// The symmetric difference of a set with itself is empty, where the
/// identifiers of the set share no point.
pub proof fn law_difference_with_self_is_empty(a: Seq<IdView>, x: Seq<IdView>)
    requires
        disjoint(a),
        all_wf(x),
        differed(a, a, x),
    ensures
        x.len() == 0,
{
    assert forall|p: Point| !covered(x, p) by {
        if covered(x, p) {
            assert(covered(a, p) != covered(a, p));
        }
    }
    lemma_empty_covers_nothing(x);
}

/// The complement of a union covers what the complements of the two sets
/// share.
///
/// This holds of sets, with or without intervals, where the identifiers of
/// the first share no point, the union covers all that the two cover, as
/// [`joins`] says, and the complement of each identifier of the two sets and
/// of their union covers all that the identifier leaves out.
pub proof fn law_de_morgan(
    a: Seq<IdView>,
    b: Seq<IdView>,
    u: Seq<IdView>,
    not_u: Seq<IdView>,
    not_a: Seq<IdView>,
    not_b: Seq<IdView>,
    both: Seq<IdView>,
)
    requires
        disjoint(a),
        joins(a, b),
        all_complement_exact(a),
        all_complement_exact(b),
        all_complement_exact(u),
        unioned(a, b, u),
        complemented(u, not_u),
        complemented(a, not_a),
        complemented(b, not_b),
        all_wf(not_a),
        all_wf(not_b),
        shared_parts(not_a, not_b, (not_a.len() * not_b.len()) as nat) == Ok::<
            Seq<IdView>,
            IdError,
        >(both),
    ensures
        same_volume(not_u, both),
{
    assert forall|p: Point| covered(not_u, p) == covered(both, p) by {
        lemma_shared_parts_all(not_a, not_b, both, p);
        if covered(not_u, p) {
            assert(p.in_space() && !covered(u, p));
            assert(!covered(a, p) && !covered(b, p));
            assert(covered(not_a, p) && covered(not_b, p));
        }
        if covered(not_a, p) && covered(not_b, p) {
            assert(p.in_space() && !covered(a, p) && !covered(b, p));
            assert(!covered(u, p));
            assert(covered(not_u, p));
        }
    }
}

/// A scaled identifier shares with itself all that it is: its relation to
/// itself is `Equal`, with the identifier itself. And it covers what the
/// identifier covered that it was scaled from.
pub proof fn law_scale_keeps(r: IdView, z: Option<int>, i: Option<int>, p: Point)
    requires
        r.wf(),
        z matches Some(n) ==> 0 <= n,
        i matches Some(n) ==> 0 <= n <= u32::MAX,
        model_scale(r, z, i) is Ok,
    ensures
        model_intersection(model_scale(r, z, i)->Ok_0, model_scale(r, z, i)->Ok_0) == Some(
            model_scale(r, z, i)->Ok_0,
        ),
        model_relation(model_scale(r, z, i)->Ok_0, model_scale(r, z, i)->Ok_0) == Ok::<
            RelationView,
            IdError,
        >(RelationView::Equal(model_scale(r, z, i)->Ok_0)),
        model_scale(r, z, i)->Ok_0.covers(p) <==> r.covers(p),
{
    let s = model_scale(r, z, i)->Ok_0;
    lemma_scale_wf(r, z, i);
    lemma_scale_covers(r, z, i, p);
    lemma_relation_with_self(s);
}

/// A well-formed identifier is `Equal` to itself, and shares with itself all
/// that it is.
pub proof fn lemma_relation_with_self(s: IdView)
    requires
        s.wf(),
    ensures
        model_scale(s, Some(s.z), Some(s.i)) == Ok::<IdView, IdError>(s),
        model_intersection(s, s) == Some(s),
        model_relation(s, s) == Ok::<RelationView, IdError>(RelationView::Equal(s)),
{
    lemma_domain_fits(s.z);
    crate::id::relation::lemma_common_interval(s.i, s.i);
    vstd::arithmetic::power2::lemma2_to64();
    lemma_widen_one(s.f, f_domain(s.z));
    lemma_widen_one(s.x, xy_domain(s.z));
    lemma_widen_one(s.y, xy_domain(s.z));
    lemma_normalize_canonical(s.t, t_domain());
    assert(scaled_time(s, Some(s.i)) == Ok::<(int, DimensionRange<int>), crate::id::ScaleFault>(
        (s.i, s.t),
    ));
    assert(model_scale(s, Some(s.z), Some(s.i)) == Ok::<IdView, IdError>(s));
    lemma_canonical_bounds(s.f, f_domain(s.z));
    lemma_canonical_bounds(s.x, xy_domain(s.z));
    lemma_canonical_bounds(s.y, xy_domain(s.z));
    lemma_meet_self(s.f);
    lemma_meet_self(s.x);
    lemma_meet_self(s.y);
    lemma_meet_self(s.t);
    lemma_new_idempotent(s);
}

} // verus!
