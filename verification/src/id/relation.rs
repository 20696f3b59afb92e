//! How two identifiers lie to each other.

use vstd::prelude::*;
use crate::id::cover::{cell_at, lemma_new_covers, Point};
use crate::id::range::{
    lemma_canonical_bounds, lemma_meet_contains, lemma_meet_normal, lift_i32, lift_u32, lower_i32,
    lower_u32, same_level_dimension_intersection,
};
use crate::id::scale::{
    gcd_of, lemma_divisor_below, lemma_gcd, lemma_gcd_of_divisor, lemma_scale_covers,
    lemma_scale_wf, model_scale, scaled_interval, scaled_time,
};
use crate::id::{
    f_domain, lemma_domain_fits, lemma_new_wf, lemma_view_injective, model_new, t_domain,
    xy_domain, DimensionRange, IdError, IdView, ScaleFault, SpaceTimeId,
};

verus! {

/// How two identifiers `a` and `b` lie to each other, once both are brought to
/// the finer of their zoom levels and to a common interval.
#[derive(Debug, Clone, Copy)]
pub enum Relation {
    /// Both are the same, here brought to the common level.
    Equal(SpaceTimeId),
    /// `a` lies within `b`; it holds `a` at the common level.
    Subset(SpaceTimeId),
    /// `b` lies within `a`; it holds `b` at the common level.
    Superset(SpaceTimeId),
    /// They share the part held here, which is neither of the two.
    Overlap(SpaceTimeId),
    /// They share nothing.
    Disjoint,
}

/// A relation, with the identifier it holds as mathematical values.
pub enum RelationView {
    Equal(IdView),
    Subset(IdView),
    Superset(IdView),
    Overlap(IdView),
    Disjoint,
}

impl View for Relation {
    type V = RelationView;

    open spec fn view(&self) -> RelationView {
        match *self {
            Relation::Equal(v) => RelationView::Equal(v@),
            Relation::Subset(v) => RelationView::Subset(v@),
            Relation::Superset(v) => RelationView::Superset(v@),
            Relation::Overlap(v) => RelationView::Overlap(v@),
            Relation::Disjoint => RelationView::Disjoint,
        }
    }
}

impl RelationView {
    /// The identifier that the relation holds has the zoom level `z` and the
    /// interval `i`.
    pub open spec fn at_level(self, z: int, i: int) -> bool {
        match self {
            RelationView::Equal(v) => v.z == z && v.i == i,
            RelationView::Subset(v) => v.z == z && v.i == i,
            RelationView::Superset(v) => v.z == z && v.i == i,
            RelationView::Overlap(v) => v.z == z && v.i == i,
            RelationView::Disjoint => true,
        }
    }

    /// The identifier that the relation holds is well-formed.
    pub open spec fn wf(self) -> bool {
        match self {
            RelationView::Equal(v) => v.wf(),
            RelationView::Subset(v) => v.wf(),
            RelationView::Superset(v) => v.wf(),
            RelationView::Overlap(v) => v.wf(),
            RelationView::Disjoint => true,
        }
    }
}

/// The interval at which two identifiers are compared: the one that is not
/// 0, or the greatest common divisor of the two, which is the shorter one
/// where that divides the longer.
pub open spec fn common_interval(a: int, b: int) -> int {
    if a == 0 {
        b
    } else if b == 0 {
        a
    } else {
        gcd_of(a as nat, b as nat) as int
    }
}

/// The common interval of two intervals is one that each of them can be
/// scaled to, and an identifier scaled to it has it.
pub proof fn lemma_common_interval(a: int, b: int)
    requires
        0 <= a <= u32::MAX,
        0 <= b <= u32::MAX,
    ensures
        0 <= common_interval(a, b) <= u32::MAX,
        common_interval(a, b) == common_interval(b, a),
        common_interval(a, b) == 0 <==> a == 0 && b == 0,
        a == b ==> common_interval(a, b) == a,
        a != 0 ==> common_interval(a, b) <= a && a % common_interval(a, b) == 0,
        b != 0 ==> common_interval(a, b) <= b && b % common_interval(a, b) == 0,
        scaled_interval(a, Some(common_interval(a, b))) == common_interval(a, b),
        scaled_interval(b, Some(common_interval(a, b))) == common_interval(a, b),
{
    if a != 0 && b != 0 {
        let g = gcd_of(a as nat, b as nat);
        lemma_gcd(a as nat, b as nat);
        lemma_gcd(b as nat, a as nat);
        let h = gcd_of(b as nat, a as nat);
        lemma_divisor_below(g as int, h as int);
        lemma_divisor_below(h as int, g as int);
        lemma_divisor_below(g as int, a);
        lemma_divisor_below(g as int, b);
        lemma_gcd_of_divisor(g, a as nat);
        lemma_gcd_of_divisor(g, b as nat);
        if a == b {
            lemma_divisor_below(a, a);
            lemma_gcd_of_divisor(a as nat, a as nat);
        }
    } else if a != 0 {
        lemma_divisor_below(a, a);
    } else if b != 0 {
        lemma_divisor_below(b, b);
    }
}

/// The zoom level at which two identifiers are compared: the finer one.
pub open spec fn common_zoom(a: int, b: int) -> int {
    if a >= b {
        a
    } else {
        b
    }
}

/// The part that two identifiers of one zoom level and interval share, `None`
/// where their ranges on some axis share no value.
pub open spec fn model_intersection(a: IdView, b: IdView) -> Option<IdView> {
    match (a.f.meet(b.f), a.x.meet(b.x), a.y.meet(b.y), a.t.meet(b.t)) {
        (Some(f), Some(x), Some(y), Some(t)) => Some(model_new(a.z, f, x, y, a.i, t)->Ok_0),
        _ => None,
    }
}

/// How `a` and `b` lie to each other, or why they cannot be compared.
///
/// Both are scaled to the common zoom level and interval. If that fails for
/// `a`, its error is returned, else that of `b`. They are `Disjoint` if on some
/// axis their ranges share no value; `Equal` if the scaled identifiers are the
/// same; `Subset` if their shared part is the scaled `a`, `Superset` if it is
/// the scaled `b`; else they `Overlap` in that part.
pub open spec fn model_relation(a: IdView, b: IdView) -> Result<RelationView, IdError> {
    let z = Some(common_zoom(a.z, b.z));
    let i = Some(common_interval(a.i, b.i));
    match (model_scale(a, z, i), model_scale(b, z, i)) {
        (Err(e), _) => Err(e),
        (Ok(_), Err(e)) => Err(e),
        (Ok(sa), Ok(sb)) => Ok(
            match model_intersection(sa, sb) {
                None => RelationView::Disjoint,
                Some(shared) => if sa == sb {
                    RelationView::Equal(sa)
                } else if shared == sa {
                    RelationView::Subset(sa)
                } else if shared == sb {
                    RelationView::Superset(sb)
                } else {
                    RelationView::Overlap(shared)
                },
            },
        ),
    }
}

/// What [`relation`] returns, read as the model reads it.
pub open spec fn relation_view(res: Result<Relation, IdError>) -> Result<RelationView, IdError> {
    match res {
        Ok(r) => Ok(r@),
        Err(e) => Err(e),
    }
}

/// The shared part of two well-formed identifiers of one zoom level and
/// interval is well-formed, and covers what both cover.
pub proof fn lemma_intersection(a: IdView, b: IdView)
    requires
        a.wf(),
        b.wf(),
        a.z == b.z,
        a.i == b.i,
    ensures
        model_intersection(a, b) matches Some(v) ==> v.wf() && v.z == a.z && v.i == a.i && (forall|
            p: Point,
        | #[trigger] v.covers(p) <==> a.covers(p) && b.covers(p)),
        model_intersection(a, b) is None ==> forall|p: Point| !(#[trigger] a.covers(p) && b.covers(p)),
{
    lemma_domain_fits(a.z);
    lemma_meet_contains(a.f, b.f);
    lemma_meet_contains(a.x, b.x);
    lemma_meet_contains(a.y, b.y);
    lemma_meet_contains(a.t, b.t);
    if model_intersection(a, b) is Some {
        let f = a.f.meet(b.f)->0;
        let x = a.x.meet(b.x)->0;
        let y = a.y.meet(b.y)->0;
        let t = a.t.meet(b.t)->0;
        lemma_meet_normal(a.f, b.f, f_domain(a.z));
        lemma_meet_normal(a.x, b.x, xy_domain(a.z));
        lemma_meet_normal(a.y, b.y, xy_domain(a.z));
        lemma_meet_normal(a.t, b.t, t_domain());
        assert(t.bounds_within(0, u32::MAX as int));
        assert(model_new(a.z, f, x, y, a.i, t) is Ok);
        lemma_new_wf(a.z, f, x, y, a.i, t);
        let v = model_intersection(a, b)->0;
        assert forall|p: Point| #[trigger] v.covers(p) <==> a.covers(p) && b.covers(p) by {
            lemma_new_covers(a.z, f, x, y, a.i, t, p);
        }
    } else {
        assert forall|p: Point| !(#[trigger] a.covers(p) && b.covers(p)) by {
            if a.covers(p) && b.covers(p) {
                if a.t.meet(b.t) is None {
                    assert(a.i != 0);
                    assert(a.t.contains(p.s / a.i) && b.t.contains(p.s / a.i));
                } else if a.f.meet(b.f) is None {
                    assert(a.f.contains(cell_at(p.f, a.z)) && b.f.contains(cell_at(p.f, a.z)));
                } else if a.x.meet(b.x) is None {
                    assert(a.x.contains(cell_at(p.x, a.z)) && b.x.contains(cell_at(p.x, a.z)));
                } else {
                    assert(a.y.contains(cell_at(p.y, a.z)) && b.y.contains(cell_at(p.y, a.z)));
                }
            }
        }
    }
}

/// Two well-formed identifiers can be compared unless a time index of one of
/// them, brought to the interval of the other, is above `u32::MAX`; and the
/// identifier that the relation holds is well-formed.
pub proof fn lemma_relation_wf(a: IdView, b: IdView)
    requires
        a.wf(),
        b.wf(),
    ensures
        model_relation(a, b) matches Ok(r) ==> r.wf() && r.at_level(
            common_zoom(a.z, b.z),
            common_interval(a.i, b.i),
        ),
        model_relation(a, b) matches Err(e) ==> e == IdError::ScaleError(ScaleFault::TimeOverflow)
            && a.i != 0 && b.i != 0 && a.i != b.i,
        model_relation(a, b) is Err <==> scaled_time(a, Some(common_interval(a.i, b.i))) is Err
            || scaled_time(b, Some(common_interval(a.i, b.i))) is Err,
{
    let z = Some(common_zoom(a.z, b.z));
    let i = Some(common_interval(a.i, b.i));
    lemma_common_interval(a.i, b.i);
    lemma_scale_wf(a, z, i);
    lemma_scale_wf(b, z, i);
    if model_scale(a, z, i) is Ok && model_scale(b, z, i) is Ok {
        let sa = model_scale(a, z, i)->Ok_0;
        let sb = model_scale(b, z, i)->Ok_0;
        lemma_scale_level(a, z, i);
        lemma_scale_level(b, z, i);
        lemma_intersection(sa, sb);
    }
}

/// A scaled identifier has the zoom level asked for, and the interval that
/// [`scaled_interval`] names.
pub proof fn lemma_scale_level(v: IdView, z: Option<int>, i: Option<int>)
    requires
        model_scale(v, z, i) is Ok,
    ensures
        model_scale(v, z, i)->Ok_0.z == z.unwrap_or(v.z),
        model_scale(v, z, i)->Ok_0.i == scaled_interval(v.i, i),
{
}

/// What a relation `r` of `a` and `b` says of what they cover: `Disjoint`
/// ones share no point, the identifier in `Equal` covers what each covers,
/// the one in `Subset` what `a` covers, which `b` covers too, the one in
/// `Superset` what `b` covers, which `a` covers too, and the one in
/// `Overlap` what both cover.
pub open spec fn relates(a: IdView, b: IdView, r: RelationView) -> bool {
    forall|p: Point|
        #![trigger a.covers(p)]
        #![trigger b.covers(p)]
        match r {
            RelationView::Disjoint => !(a.covers(p) && b.covers(p)),
            RelationView::Equal(v) => (v.covers(p) <==> a.covers(p)) && (v.covers(p) <==> b.covers(
                p,
            )),
            RelationView::Subset(v) => (v.covers(p) <==> a.covers(p)) && (a.covers(p) ==> b.covers(
                p,
            )),
            RelationView::Superset(v) => (v.covers(p) <==> b.covers(p)) && (b.covers(p)
                ==> a.covers(p)),
            RelationView::Overlap(v) => (v.covers(p) <==> a.covers(p) && b.covers(p)),
        }
}

/// The relation of two well-formed identifiers says of what they cover what
/// [`relates`] states.
pub proof fn lemma_relates(a: IdView, b: IdView)
    requires
        a.wf(),
        b.wf(),
        model_relation(a, b) is Ok,
    ensures
        relates(a, b, model_relation(a, b)->Ok_0),
{
    assert forall|p: Point|
        #![trigger a.covers(p)]
        #![trigger b.covers(p)]
        match model_relation(a, b)->Ok_0 {
            RelationView::Disjoint => !(a.covers(p) && b.covers(p)),
            RelationView::Equal(v) => (v.covers(p) <==> a.covers(p)) && (v.covers(p) <==> b.covers(
                p,
            )),
            RelationView::Subset(v) => (v.covers(p) <==> a.covers(p)) && (a.covers(p) ==> b.covers(
                p,
            )),
            RelationView::Superset(v) => (v.covers(p) <==> b.covers(p)) && (b.covers(p)
                ==> a.covers(p)),
            RelationView::Overlap(v) => (v.covers(p) <==> a.covers(p) && b.covers(p)),
        } by {
        lemma_relation_covers(a, b, p);
    }
}

/// The time range starts after index 0 or ends: it is not all time, and no
/// canonical form of it is.
pub open spec fn limited(t: DimensionRange<int>) -> bool {
    t.upper() is Some || (t.lower() matches Some(l) && l > 0)
}

/// The part that two identifiers share does not cover all time where one of
/// them does not, and has no interval only where neither has one.
pub proof fn lemma_part_timed(a: IdView, b: IdView)
    requires
        a.wf(),
        b.wf(),
        model_relation(a, b) is Ok,
    ensures
        match model_relation(a, b)->Ok_0 {
            RelationView::Disjoint => true,
            RelationView::Equal(v) => (a.timed() || b.timed() ==> v.timed()) && (v.i == 0 <==> a.i
                == 0 && b.i == 0),
            RelationView::Subset(v) => (a.timed() || b.timed() ==> v.timed()) && (v.i == 0 <==> a.i
                == 0 && b.i == 0),
            RelationView::Superset(v) => (a.timed() || b.timed() ==> v.timed()) && (v.i == 0
                <==> a.i == 0 && b.i == 0),
            RelationView::Overlap(v) => (a.timed() || b.timed() ==> v.timed()) && (v.i == 0
                <==> a.i == 0 && b.i == 0),
        },
{
    let z = Some(common_zoom(a.z, b.z));
    let i = Some(common_interval(a.i, b.i));
    lemma_common_interval(a.i, b.i);
    lemma_scale_level(a, z, i);
    lemma_scale_level(b, z, i);
    lemma_scaled_limited(a, z, i);
    lemma_scaled_limited(b, z, i);
    let sa = model_scale(a, z, i)->Ok_0;
    let sb = model_scale(b, z, i)->Ok_0;
    lemma_shared_limited(sa, sb);
}

/// The part that two identifiers share reaches every height where both do.
pub proof fn lemma_part_tall(a: IdView, b: IdView)
    requires
        a.wf(),
        b.wf(),
        a.f is Any,
        b.f is Any,
        model_relation(a, b) is Ok,
    ensures
        match model_relation(a, b)->Ok_0 {
            RelationView::Disjoint => true,
            RelationView::Equal(v) => v.f is Any,
            RelationView::Subset(v) => v.f is Any,
            RelationView::Superset(v) => v.f is Any,
            RelationView::Overlap(v) => v.f is Any,
        },
{
    let z = Some(common_zoom(a.z, b.z));
    let i = Some(common_interval(a.i, b.i));
    let sa = model_scale(a, z, i)->Ok_0;
    let sb = model_scale(b, z, i)->Ok_0;
    lemma_common_interval(a.i, b.i);
    lemma_scale_level(a, z, i);
    lemma_scale_level(b, z, i);
    lemma_scaled_limited(a, z, i);
    lemma_scaled_limited(b, z, i);
    assert(sa.f is Any);
    assert(sb.f is Any);
    assert(sa.f.meet(sb.f) == Some(DimensionRange::<int>::Any));
    if model_intersection(sa, sb) is Some {
        lemma_domain_fits(sa.z);
        lemma_meet_normal(sa.f, sb.f, f_domain(sa.z));
        lemma_meet_normal(sa.x, sb.x, xy_domain(sa.z));
        lemma_meet_normal(sa.y, sb.y, xy_domain(sa.z));
        lemma_meet_normal(sa.t, sb.t, t_domain());
        assert(model_intersection(sa, sb)->0.f is Any);
    }
}

/// The part that two identifiers of one zoom level and interval share has a
/// time range that starts after index 0 or ends where that of one of them
/// does.
pub proof fn lemma_shared_limited(a: IdView, b: IdView)
    requires
        a.wf(),
        b.wf(),
        a.z == b.z,
        a.i == b.i,
    ensures
        model_intersection(a, b) matches Some(v) ==> v.i == a.i && (limited(a.t) || limited(b.t)
            ==> limited(v.t)),
{
    if model_intersection(a, b) is Some {
        lemma_intersection(a, b);
        let t = a.t.meet(b.t)->0;
        lemma_meet_normal(a.t, b.t, t_domain());
        lemma_domain_fits(a.z);
        lemma_meet_normal(a.f, b.f, f_domain(a.z));
        lemma_meet_normal(a.x, b.x, xy_domain(a.z));
        lemma_meet_normal(a.y, b.y, xy_domain(a.z));
        lemma_meet_limited(a.t, b.t);
        assert(model_intersection(a, b)->0.t == t.normalize(t_domain())->Ok_0);
    }
}

/// The meet of two time ranges starts after index 0 or ends where one of
/// them does, and so does its canonical form.
pub proof fn lemma_meet_limited(a: DimensionRange<int>, b: DimensionRange<int>)
    requires
        a.meet(b) is Some,
        a.meet(b)->0.normalize(t_domain()) is Ok,
    ensures
        limited(a) || limited(b) ==> limited(a.meet(b)->0) && limited(
            a.meet(b)->0.normalize(t_domain())->Ok_0,
        ),
{
}

/// A scaled identifier that does not cover all time has a time range that
/// starts after index 0 or ends.
pub proof fn lemma_scaled_limited(v: IdView, z: Option<int>, i: Option<int>)
    requires
        v.wf(),
        z matches Some(n) ==> 0 <= n,
        i matches Some(n) ==> 0 <= n <= u32::MAX,
        model_scale(v, z, i) is Ok,
    ensures
        v.timed() ==> limited(model_scale(v, z, i)->Ok_0.t),
        model_scale(v, z, i)->Ok_0.wf(),
{
    lemma_scale_wf(v, z, i);
    if v.timed() && !(z is None && i is None) {
        let (i2, t2) = scaled_time(v, i)->Ok_0;
        crate::id::scale::lemma_scaled_time(v, i);
        if i is Some && i->0 != v.i {
            let n = i->0;
            crate::id::scale::lemma_scaled_time_factor(n as nat, v.i as nat);
            let k = v.i / (gcd_of(n as nat, v.i as nat) as int);
            assert(forall|l: int| l > 0 ==> #[trigger] (l * k) > 0) by (nonlinear_arith)
                requires
                    k >= 1,
            ;
            assert(limited(v.t.widen(k)));
        }
        assert(limited(t2));
        assert(limited(t2.normalize(t_domain())->Ok_0));
    }
}

/// What a relation says of two identifiers holds of what they cover:
/// `Disjoint` ones share no point, the identifier in `Equal` covers what each
/// covers, the one in `Subset` what `a` covers, which `b` covers too, the one
/// in `Superset` what `b` covers, which `a` covers too, and the one in
/// `Overlap` what both cover.
pub proof fn lemma_relation_covers(a: IdView, b: IdView, p: Point)
    requires
        a.wf(),
        b.wf(),
        model_relation(a, b) is Ok,
    ensures
        match model_relation(a, b)->Ok_0 {
            RelationView::Disjoint => !(a.covers(p) && b.covers(p)),
            RelationView::Equal(v) => (v.covers(p) <==> a.covers(p)) && (v.covers(p) <==> b.covers(
                p,
            )),
            RelationView::Subset(v) => (v.covers(p) <==> a.covers(p)) && (a.covers(p) ==> b.covers(
                p,
            )),
            RelationView::Superset(v) => (v.covers(p) <==> b.covers(p)) && (b.covers(p)
                ==> a.covers(p)),
            RelationView::Overlap(v) => (v.covers(p) <==> a.covers(p) && b.covers(p)),
        },
{
    let z = Some(common_zoom(a.z, b.z));
    let i = Some(common_interval(a.i, b.i));
    lemma_common_interval(a.i, b.i);
    lemma_scale_wf(a, z, i);
    lemma_scale_wf(b, z, i);
    let sa = model_scale(a, z, i)->Ok_0;
    let sb = model_scale(b, z, i)->Ok_0;
    lemma_scale_level(a, z, i);
    lemma_scale_level(b, z, i);
    lemma_scale_covers(a, z, i, p);
    lemma_scale_covers(b, z, i, p);
    lemma_intersection(sa, sb);
}

/// The part of two identifiers of one zoom level and interval that both
/// cover, `None` where there is none.
fn intersection_at_level(a: &SpaceTimeId, b: &SpaceTimeId) -> (res: Option<SpaceTimeId>)
    requires
        a.wf(),
        b.wf(),
        a@.z == b@.z,
        a@.i == b@.i,
    ensures
        match res {
            Some(v) => model_intersection(a@, b@) == Some(v@) && v.wf(),
            None => model_intersection(a@, b@) is None,
        },
{
    proof {
        lemma_domain_fits(a@.z);
        lemma_canonical_bounds(a@.f, f_domain(a@.z));
        lemma_canonical_bounds(a@.x, xy_domain(a@.z));
        lemma_canonical_bounds(a@.y, xy_domain(a@.z));
        lemma_canonical_bounds(b@.f, f_domain(a@.z));
        lemma_canonical_bounds(b@.x, xy_domain(a@.z));
        lemma_canonical_bounds(b@.y, xy_domain(a@.z));
        lemma_intersection(a@, b@);
    }
    let f = match same_level_dimension_intersection(lift_i32(a.f()), lift_i32(b.f())) {
        Some(v) => v,
        None => {
            return None;
        },
    };
    let x = match same_level_dimension_intersection(lift_u32(a.x()), lift_u32(b.x())) {
        Some(v) => v,
        None => {
            return None;
        },
    };
    let y = match same_level_dimension_intersection(lift_u32(a.y()), lift_u32(b.y())) {
        Some(v) => v,
        None => {
            return None;
        },
    };
    let t = match same_level_dimension_intersection(lift_u32(a.t()), lift_u32(b.t())) {
        Some(v) => v,
        None => {
            return None;
        },
    };
    proof {
        lemma_meet_normal(a@.f, b@.f, f_domain(a@.z));
        lemma_meet_normal(a@.x, b@.x, xy_domain(a@.z));
        lemma_meet_normal(a@.y, b@.y, xy_domain(a@.z));
        lemma_meet_normal(a@.t, b@.t, t_domain());
        assert(a@.f.bounds_within(i32::MIN as int, i32::MAX as int));
        assert(b@.f.bounds_within(i32::MIN as int, i32::MAX as int));
        assert(a@.x.bounds_within(0, u32::MAX as int));
        assert(b@.x.bounds_within(0, u32::MAX as int));
        assert(a@.y.bounds_within(0, u32::MAX as int));
        assert(b@.y.bounds_within(0, u32::MAX as int));
    }
    match SpaceTimeId::new(a.z(), lower_i32(f), lower_u32(x), lower_u32(y), a.i(), lower_u32(t)) {
        Ok(v) => Some(v),
        Err(_) => vstd::pervasive::unreached(),
    }
}

/// How `a` and `b` lie to each other.
///
/// Both are brought to the finer of the two zoom levels, and to the shorter of
/// the one interval that is not 0 or to the greatest common divisor of the
/// two, and compared axis by axis, so that what the relation says holds of
/// what the two cover. It fails, with `ScaleError(TimeOverflow)`, only where
/// a time index of one of them does not fit in 32 bits at the common
/// interval.
pub fn relation(a: SpaceTimeId, b: SpaceTimeId) -> (res: Result<Relation, IdError>)
    requires
        a.wf(),
        b.wf(),
    ensures
        relation_view(res) == model_relation(a@, b@),
        res matches Err(e) ==> e == IdError::ScaleError(ScaleFault::TimeOverflow),
        res matches Ok(r) ==> r@.wf() && r@.at_level(
            common_zoom(a@.z, b@.z),
            common_interval(a@.i, b@.i),
        ) && relates(a@, b@, r@),
        a@.i == b@.i || a@.i == 0 || b@.i == 0 ==> res is Ok,
{
    let target_z = if a.z() >= b.z() { a.z() } else { b.z() };
    let target_i = if a.i() == 0 {
        b.i()
    } else if b.i() == 0 {
        a.i()
    } else {
        SpaceTimeId::gcd(a.i(), b.i())
    };
    proof {
        lemma_relation_wf(a@, b@);
        lemma_common_interval(a@.i, b@.i);
        if model_relation(a@, b@) is Ok {
            lemma_relates(a@, b@);
        }
    }
    let a_scaled = match a.scale(Some(target_z), Some(target_i)) {
        Ok(v) => v,
        Err(e) => {
            return Err(e);
        },
    };
    let b_scaled = match b.scale(Some(target_z), Some(target_i)) {
        Ok(v) => v,
        Err(e) => {
            return Err(e);
        },
    };
    proof {
        lemma_scale_level(a@, Some(target_z as int), Some(target_i as int));
        lemma_scale_level(b@, Some(target_z as int), Some(target_i as int));
    }
    let shared = match intersection_at_level(&a_scaled, &b_scaled) {
        Some(v) => v,
        None => {
            return Ok(Relation::Disjoint);
        },
    };
    proof {
        lemma_view_injective(a_scaled, b_scaled);
        lemma_view_injective(shared, a_scaled);
        lemma_view_injective(shared, b_scaled);
    }
    if a_scaled == b_scaled {
        Ok(Relation::Equal(a_scaled))
    } else if shared == a_scaled {
        Ok(Relation::Subset(a_scaled))
    } else if shared == b_scaled {
        Ok(Relation::Superset(b_scaled))
    } else {
        Ok(Relation::Overlap(shared))
    }
}

} // verus!
