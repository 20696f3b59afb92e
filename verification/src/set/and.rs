//! The intersection of two sets.

use vstd::prelude::*;
use vstd::arithmetic::div_mod::{lemma_fundamental_div_mod, lemma_fundamental_div_mod_converse};
use crate::id::cover::Point;
use crate::id::range::lemma_div_bounds;
use crate::id::relation::{
    lemma_relation_covers, lemma_relation_wf, model_relation, relation, Relation, RelationView,
};
use crate::id::{IdError, IdView, ScaleFault, SpaceTimeId};
use crate::set::{
    all_spatial, all_tall, all_timed, all_wf, covered, disjoint, set_result_view, views, SpaceTimeIdSet,
};

verus! {

/// The identifier that a relation holds.
pub open spec fn part_of(r: RelationView) -> Option<IdView> {
    match r {
        RelationView::Equal(v) => Some(v),
        RelationView::Subset(v) => Some(v),
        RelationView::Superset(v) => Some(v),
        RelationView::Overlap(v) => Some(v),
        RelationView::Disjoint => None,
    }
}

/// The parts that the first `n` pairs of an identifier of `a` and one of `b`
/// share, in the order of the pairs: each identifier of `a` in turn with each
/// of `b` in turn. The error of the first pair that cannot be compared, if
/// there is one.
pub open spec fn shared_parts(a: Seq<IdView>, b: Seq<IdView>, n: nat) -> Result<
    Seq<IdView>,
    IdError,
>
    decreases n,
{
    if n == 0 || b.len() == 0 {
        Ok(Seq::empty())
    } else {
        match shared_parts(a, b, (n - 1) as nat) {
            Err(e) => Err(e),
            Ok(prev) => match model_relation(a[(n - 1) / (b.len() as int)], b[(n - 1) % (b.len() as int)]) {
                Err(e) => Err(e),
                Ok(r) => Ok(
                    match part_of(r) {
                        Some(v) => prev.push(v),
                        None => prev,
                    },
                ),
            },
        }
    }
}

/// Pair number `n` of an identifier of `a` and one of `b` covers the point
/// with both.
pub open spec fn pair_covers(a: Seq<IdView>, b: Seq<IdView>, n: int, p: Point) -> bool {
    a[n / (b.len() as int)].covers(p) && b[n % (b.len() as int)].covers(p)
}

/// Pair number `n` is made of places in `a` and in `b`.
pub proof fn lemma_pair_index(la: int, lb: int, n: int)
    requires
        0 <= n < la * lb,
        0 <= la,
        0 < lb,
    ensures
        0 <= n / lb < la,
        0 <= n % lb < lb,
        n == (n / lb) * lb + n % lb,
{
    lemma_fundamental_div_mod(n, lb);
    vstd::arithmetic::div_mod::lemma_mod_bound(n, lb);
    lemma_div_bounds(n, lb, 0);
    lemma_div_bounds(n, lb, la - 1);
    assert((la - 1 + 1) * lb == la * lb);
    assert(lb * (n / lb) == (n / lb) * lb) by (nonlinear_arith);
}

/// The pair of the places `j` and `k` has the number `j * lb + k`.
pub proof fn lemma_pair_number(la: int, lb: int, j: int, k: int)
    requires
        0 <= j < la,
        0 <= k < lb,
    ensures
        0 <= j * lb + k < la * lb,
        (j * lb + k) / lb == j,
        (j * lb + k) % lb == k,
{
    lemma_fundamental_div_mod_converse(j * lb + k, lb, j, k);
    assert(0 <= j * lb && j * lb + lb <= la * lb) by (nonlinear_arith)
        requires
            0 <= j < la,
            0 < lb,
    ;
}

/// The shared parts of well-formed identifiers are well-formed, and there is
/// an error only where a time index does not fit in 32 bits.
pub proof fn lemma_shared_parts_wf(a: Seq<IdView>, b: Seq<IdView>, n: nat)
    requires
        all_wf(a),
        all_wf(b),
        n <= a.len() * b.len(),
    ensures
        shared_parts(a, b, n) matches Ok(s) ==> all_wf(s) && (all_spatial(a) && all_spatial(b)
            ==> all_spatial(s)),
        shared_parts(a, b, n) matches Err(e) ==> e == IdError::ScaleError(ScaleFault::TimeOverflow),
        all_spatial(a) && all_spatial(b) ==> shared_parts(a, b, n) is Ok,
    decreases n,
{
    if n == 0 || b.len() == 0 {
    } else {
        lemma_shared_parts_wf(a, b, (n - 1) as nat);
        lemma_pair_index(a.len() as int, b.len() as int, n - 1);
        let x = a[(n - 1) / (b.len() as int)];
        let y = b[(n - 1) % (b.len() as int)];
        lemma_relation_wf(x, y);
        if shared_parts(a, b, n) is Ok {
            let prev = shared_parts(a, b, (n - 1) as nat)->Ok_0;
            let r = model_relation(x, y)->Ok_0;
            let s = shared_parts(a, b, n)->Ok_0;
            assert forall|k: int| 0 <= k < s.len() implies (#[trigger] s[k]).wf() by {
                if k < prev.len() {
                    assert(prev[k].wf());
                }
            }
            if all_spatial(a) && all_spatial(b) {
                crate::id::relation::lemma_scale_level(
                    x,
                    Some(crate::id::relation::common_zoom(x.z, y.z)),
                    Some(0int),
                );
                crate::id::relation::lemma_scale_level(
                    y,
                    Some(crate::id::relation::common_zoom(x.z, y.z)),
                    Some(0int),
                );
                assert forall|k: int| 0 <= k < s.len() implies (#[trigger] s[k]).i == 0 by {
                    if k < prev.len() {
                        assert(prev[k].i == 0);
                    } else {
                        lemma_part_level(x, y);
                    }
                }
            }
        }
    }
}

/// The shared parts do not cover all time where the identifiers of one of
/// the two sequences do not.
pub proof fn lemma_shared_parts_timed(a: Seq<IdView>, b: Seq<IdView>, n: nat)
    requires
        all_wf(a),
        all_wf(b),
        n <= a.len() * b.len(),
    ensures
        shared_parts(a, b, n) matches Ok(s) ==> (all_timed(a) || all_timed(b) ==> all_timed(s)),
    decreases n,
{
    if n == 0 || b.len() == 0 {
    } else {
        lemma_shared_parts_timed(a, b, (n - 1) as nat);
        lemma_pair_index(a.len() as int, b.len() as int, n - 1);
        let x = a[(n - 1) / (b.len() as int)];
        let y = b[(n - 1) % (b.len() as int)];
        if shared_parts(a, b, n) is Ok && (all_timed(a) || all_timed(b)) {
            crate::id::relation::lemma_part_timed(x, y);
            let prev = shared_parts(a, b, (n - 1) as nat)->Ok_0;
            let s = shared_parts(a, b, n)->Ok_0;
            assert(x.timed() || y.timed());
            assert forall|k: int| 0 <= k < s.len() implies (#[trigger] s[k]).timed() by {
                if k < prev.len() {
                    assert(prev[k].timed());
                }
            }
        }
    }
}

/// The parts that identifiers that reach every height share reach every
/// height.
pub proof fn lemma_shared_parts_tall(a: Seq<IdView>, b: Seq<IdView>, n: nat)
    requires
        all_wf(a),
        all_wf(b),
        n <= a.len() * b.len(),
    ensures
        shared_parts(a, b, n) matches Ok(s) ==> (all_tall(a) && all_tall(b) ==> all_tall(s)),
    decreases n,
{
    if n == 0 || b.len() == 0 {
    } else {
        lemma_shared_parts_tall(a, b, (n - 1) as nat);
        lemma_pair_index(a.len() as int, b.len() as int, n - 1);
        let x = a[(n - 1) / (b.len() as int)];
        let y = b[(n - 1) % (b.len() as int)];
        if shared_parts(a, b, n) is Ok && all_tall(a) && all_tall(b) {
            assert(x.f is Any && y.f is Any);
            crate::id::relation::lemma_part_tall(x, y);
            let prev = shared_parts(a, b, (n - 1) as nat)->Ok_0;
            let s = shared_parts(a, b, n)->Ok_0;
            assert forall|k: int| 0 <= k < s.len() implies (#[trigger] s[k]).f is Any by {
                if k < prev.len() {
                    assert(prev[k].f is Any);
                }
            }
        }
    }
}

/// The part that two identifiers without interval share has no interval.
pub proof fn lemma_part_level(x: IdView, y: IdView)
    requires
        x.wf(),
        y.wf(),
        x.i == 0,
        y.i == 0,
        model_relation(x, y) is Ok,
    ensures
        part_of(model_relation(x, y)->Ok_0) matches Some(v) ==> v.i == 0,
{
    let z = Some(crate::id::relation::common_zoom(x.z, y.z));
    let i = Some(0int);
    crate::id::scale::lemma_scale_wf(x, z, i);
    crate::id::scale::lemma_scale_wf(y, z, i);
    crate::id::relation::lemma_scale_level(x, z, i);
    crate::id::relation::lemma_scale_level(y, z, i);
    crate::id::relation::lemma_intersection(
        crate::id::scale::model_scale(x, z, i)->Ok_0,
        crate::id::scale::model_scale(y, z, i)->Ok_0,
    );
}

/// The shared parts of the first `n` pairs cover a point exactly if one of
/// those pairs covers it with both its identifiers.
pub proof fn lemma_shared_parts_cover(a: Seq<IdView>, b: Seq<IdView>, n: nat)
    requires
        all_wf(a),
        all_wf(b),
        n <= a.len() * b.len(),
        shared_parts(a, b, n) is Ok,
    ensures
        forall|p: Point| #[trigger]
            covered(shared_parts(a, b, n)->Ok_0, p) <==> exists|m: int|
                0 <= m < n && #[trigger] pair_covers(a, b, m, p),
    decreases n,
{
    let s = shared_parts(a, b, n)->Ok_0;
    if n == 0 || b.len() == 0 {
        if b.len() == 0 {
            assert(a.len() * b.len() == 0) by (nonlinear_arith)
                requires
                    b.len() == 0,
            ;
        }
    } else {
        lemma_shared_parts_cover(a, b, (n - 1) as nat);
        lemma_pair_index(a.len() as int, b.len() as int, n - 1);
        let lb = b.len() as int;
        let x = a[(n - 1) / lb];
        let y = b[(n - 1) % lb];
        let prev = shared_parts(a, b, (n - 1) as nat)->Ok_0;
        lemma_relation_wf(x, y);
        assert forall|p: Point| #[trigger]
            covered(s, p) <==> exists|m: int| 0 <= m < n && #[trigger] pair_covers(a, b, m, p) by {
            lemma_last_part(x, y, prev, s, p);
            assert(pair_covers(a, b, n - 1, p) == (x.covers(p) && y.covers(p)));
            if covered(prev, p) {
                let m = choose|m: int| 0 <= m < n - 1 && #[trigger] pair_covers(a, b, m, p);
                assert(pair_covers(a, b, m, p));
            }
            if exists|m: int| 0 <= m < n && #[trigger] pair_covers(a, b, m, p) {
                let m = choose|m: int| 0 <= m < n && #[trigger] pair_covers(a, b, m, p);
                if m < n - 1 {
                    assert(covered(prev, p));
                }
            }
        }
    }
}

/// What the parts cover once the part of one more pair, of `x` and `y`, is
/// added: what they covered, and what `x` and `y` both cover.
pub proof fn lemma_last_part(x: IdView, y: IdView, prev: Seq<IdView>, s: Seq<IdView>, p: Point)
    requires
        x.wf(),
        y.wf(),
        model_relation(x, y) is Ok,
        s == (match part_of(model_relation(x, y)->Ok_0) {
            Some(v) => prev.push(v),
            None => prev,
        }),
    ensures
        covered(s, p) <==> covered(prev, p) || (x.covers(p) && y.covers(p)),
        part_of(model_relation(x, y)->Ok_0) matches Some(v) ==> (v.covers(p) <==> x.covers(p)
            && y.covers(p)),
        part_of(model_relation(x, y)->Ok_0) is None ==> !(x.covers(p) && y.covers(p)),
{
    lemma_relation_covers(x, y, p);
    if covered(s, p) {
        let k = choose|k: int| 0 <= k < s.len() && (#[trigger] s[k]).covers(p);
        if k < prev.len() {
            assert(prev[k].covers(p));
        }
    }
    if covered(prev, p) {
        let k = choose|k: int| 0 <= k < prev.len() && (#[trigger] prev[k]).covers(p);
        assert(s[k].covers(p));
    }
    if x.covers(p) && y.covers(p) {
        assert(part_of(model_relation(x, y)->Ok_0) is Some);
        assert(s[s.len() - 1].covers(p));
    }
}

/// The shared parts share no point among themselves where neither the
/// identifiers of `a` nor those of `b` do.
pub proof fn lemma_shared_parts_apart(a: Seq<IdView>, b: Seq<IdView>, n: nat)
    requires
        all_wf(a),
        all_wf(b),
        n <= a.len() * b.len(),
        shared_parts(a, b, n) is Ok,
        disjoint(a),
        disjoint(b),
    ensures
        disjoint(shared_parts(a, b, n)->Ok_0),
    decreases n,
{
    let s = shared_parts(a, b, n)->Ok_0;
    if n == 0 || b.len() == 0 {
    } else {
        lemma_shared_parts_apart(a, b, (n - 1) as nat);
        lemma_shared_parts_cover(a, b, (n - 1) as nat);
        lemma_pair_index(a.len() as int, b.len() as int, n - 1);
        let lb = b.len() as int;
        let x = a[(n - 1) / lb];
        let y = b[(n - 1) % lb];
        let prev = shared_parts(a, b, (n - 1) as nat)->Ok_0;
        lemma_relation_wf(x, y);
        assert forall|j: int, k: int, p: Point| 0 <= j < k < s.len() implies !(
        #[trigger] s[j].covers(p) && #[trigger] s[k].covers(p)) by {
            if s[j].covers(p) && s[k].covers(p) {
                if k < prev.len() {
                    assert(prev[j].covers(p) && prev[k].covers(p));
                } else {
                    lemma_last_part(x, y, prev, s, p);
                    assert(prev[j].covers(p));
                    assert(covered(prev, p));
                    let m = choose|m: int| 0 <= m < n - 1 && #[trigger] pair_covers(a, b, m, p);
                    assert(pair_covers(a, b, n - 1, p));
                    lemma_pairs_apart(a, b, m, n - 1, p);
                }
            }
        }
    }
}

/// Two different pairs of identifiers of `a` and of `b` do not cover a point
/// both, where neither `a` nor `b` covers a point twice.
pub proof fn lemma_pairs_apart(a: Seq<IdView>, b: Seq<IdView>, m: int, n: int, p: Point)
    requires
        disjoint(a),
        disjoint(b),
        0 <= m < n < a.len() * b.len(),
    ensures
        !(pair_covers(a, b, m, p) && pair_covers(a, b, n, p)),
{
    let lb = b.len() as int;
    assert(lb > 0) by (nonlinear_arith)
        requires
            0 < a.len() * lb,
            lb >= 0,
    ;
    lemma_pair_index(a.len() as int, lb, m);
    lemma_pair_index(a.len() as int, lb, n);
    if pair_covers(a, b, m, p) && pair_covers(a, b, n, p) {
        if m / lb != n / lb {
            if m / lb < n / lb {
                assert(!(a[m / lb].covers(p) && a[n / lb].covers(p)));
            } else {
                assert(!(a[n / lb].covers(p) && a[m / lb].covers(p)));
            }
        } else {
            assert(m % lb != n % lb);
            if m % lb < n % lb {
                assert(!(b[m % lb].covers(p) && b[n % lb].covers(p)));
            } else {
                assert(!(b[n % lb].covers(p) && b[m % lb].covers(p)));
            }
        }
    }
}

/// The shared parts of all pairs cover a point exactly if both `a` and `b`
/// cover it.
pub proof fn lemma_shared_parts_all(a: Seq<IdView>, b: Seq<IdView>, s: Seq<IdView>, p: Point)
    requires
        all_wf(a),
        all_wf(b),
        shared_parts(a, b, (a.len() * b.len()) as nat) == Ok::<Seq<IdView>, IdError>(s),
    ensures
        covered(s, p) <==> covered(a, p) && covered(b, p),
{
    lemma_shared_parts_cover(a, b, (a.len() * b.len()) as nat);
    lemma_pairs_cover(a, b, p);
    assert(covered(shared_parts(a, b, (a.len() * b.len()) as nat)->Ok_0, p) == covered(s, p));
}

/// All the pairs together cover a point exactly if both `a` and `b` cover
/// it.
pub proof fn lemma_pairs_cover(a: Seq<IdView>, b: Seq<IdView>, p: Point)
    ensures
        (exists|m: int| 0 <= m < a.len() * b.len() && #[trigger] pair_covers(a, b, m, p)) <==> covered(
            a,
            p,
        ) && covered(b, p),
{
    let la = a.len() as int;
    let lb = b.len() as int;
    if exists|m: int| 0 <= m < la * lb && #[trigger] pair_covers(a, b, m, p) {
        let m = choose|m: int| 0 <= m < la * lb && #[trigger] pair_covers(a, b, m, p);
        assert(lb > 0) by (nonlinear_arith)
            requires
                0 < la * lb,
                lb >= 0,
                la >= 0,
        ;
        lemma_pair_index(la, lb, m);
        assert(a[m / lb].covers(p));
        assert(b[m % lb].covers(p));
    }
    if covered(a, p) && covered(b, p) {
        let j = choose|j: int| 0 <= j < a.len() && (#[trigger] a[j]).covers(p);
        let k = choose|k: int| 0 <= k < b.len() && (#[trigger] b[k]).covers(p);
        lemma_pair_number(la, lb, j, k);
        assert(pair_covers(a, b, j * lb + k, p));
    }
}

impl SpaceTimeIdSet {
    /// The set of the parts that an identifier of this set and one of `other`
    /// share, pair by pair.
    ///
    /// It fails, with `ScaleError(TimeOverflow)`, where a pair cannot be
    /// compared; never for two sets without intervals. The result covers
    /// exactly what both sets cover, and its identifiers share no point where
    /// those of neither set do.
    pub fn intersection(&self, other: &SpaceTimeIdSet) -> (res: Result<SpaceTimeIdSet, IdError>)
        requires
            self.wf(),
            other.wf(),
        ensures
            set_result_view(res) == shared_parts(
                self@,
                other@,
                (self@.len() * other@.len()) as nat,
            ),
            res matches Err(e) ==> e == IdError::ScaleError(ScaleFault::TimeOverflow),
            all_spatial(self@) && all_spatial(other@) ==> res is Ok,
            res matches Ok(s) ==> {
                &&& s.wf()
                &&& (all_spatial(self@) && all_spatial(other@) ==> all_spatial(s@))
                &&& (all_timed(self@) || all_timed(other@) ==> all_timed(s@))
                &&& (all_tall(self@) && all_tall(other@) ==> all_tall(s@))
                &&& (forall|p: Point| #[trigger]
                    covered(s@, p) <==> covered(self@, p) && covered(other@, p))
                &&& (disjoint(self@) && disjoint(other@) ==> disjoint(s@))
            },
    {
        let a = self.entries();
        let b = other.entries();
        let la = a.len();
        let lb = b.len();
        let mut out: Vec<SpaceTimeId> = Vec::new();
        let mut j: usize = 0;
        proof {
            assert(views(out@) =~= Seq::<IdView>::empty());
            assert(0 * lb == 0);
        }
        while j < la
            invariant
                j <= la,
                la == a.len(),
                lb == b.len(),
                views(a@) == self@,
                views(b@) == other@,
                self.wf(),
                other.wf(),
                shared_parts(self@, other@, (j * lb) as nat) == Ok::<Seq<IdView>, IdError>(
                    views(out@),
                ),
            decreases la - j,
        {
            let mut k: usize = 0;
            while k < lb
                invariant
                    j < la,
                    k <= lb,
                    la == a.len(),
                    lb == b.len(),
                    views(a@) == self@,
                    views(b@) == other@,
                    self.wf(),
                    other.wf(),
                    shared_parts(self@, other@, (j * lb + k) as nat) == Ok::<Seq<IdView>, IdError>(
                        views(out@),
                    ),
                decreases lb - k,
            {
                proof {
                    lemma_pair_number(la as int, lb as int, j as int, k as int);
                    assert(views(a@)[j as int] == a@[j as int]@);
                    assert(views(b@)[k as int] == b@[k as int]@);
                    assert(self@[j as int].wf());
                    assert(other@[k as int].wf());
                    lemma_shared_parts_wf(self@, other@, (la * lb) as nat);
                    lemma_shared_parts_stays(
                        self@,
                        other@,
                        (j * lb + k + 1) as nat,
                        (la * lb) as nat,
                    );
                    assert((j * lb + k + 1) as nat - 1 == j * lb + k);
                }
                match push_shared(&mut out, a[j], b[k]) {
                    Err(e) => {
                        return Err(e);
                    },
                    Ok(()) => {},
                }
                k = k + 1;
            }
            proof {
                assert((j + 1) * lb == j * lb + lb) by (nonlinear_arith);
            }
            j = j + 1;
        }
        proof {
            lemma_shared_parts_wf(self@, other@, (la * lb) as nat);
            lemma_shared_parts_timed(self@, other@, (la * lb) as nat);
            lemma_shared_parts_tall(self@, other@, (la * lb) as nat);
            lemma_shared_parts_cover(self@, other@, (la * lb) as nat);
            if disjoint(self@) && disjoint(other@) {
                lemma_shared_parts_apart(self@, other@, (la * lb) as nat);
            }
            assert forall|p: Point| #[trigger]
                covered(views(out@), p) <==> covered(self@, p) && covered(other@, p) by {
                lemma_pairs_cover(self@, other@, p);
            }
        }
        Ok(SpaceTimeIdSet::from_entries(out))
    }
}

/// An error among the first pairs stays the error of all pairs.
pub proof fn lemma_shared_parts_stays(a: Seq<IdView>, b: Seq<IdView>, n: nat, m: nat)
    requires
        n <= m,
    ensures
        shared_parts(a, b, n) is Err ==> shared_parts(a, b, m) == shared_parts(a, b, n),
    decreases m - n,
{
    if n < m && shared_parts(a, b, n) is Err {
        lemma_shared_parts_stays(a, b, n, (m - 1) as nat);
    }
}

/// Adds to `out` the part that `x` and `y` share, if they share one.
fn push_shared(out: &mut Vec<SpaceTimeId>, x: SpaceTimeId, y: SpaceTimeId) -> (res: Result<
    (),
    IdError,
>)
    requires
        x.wf(),
        y.wf(),
    ensures
        match model_relation(x@, y@) {
            Err(e) => res == Err::<(), IdError>(e) && final(out)@ == old(out)@,
            Ok(r) => res is Ok && views(final(out)@) == (match part_of(r) {
                Some(v) => views(old(out)@).push(v),
                None => views(old(out)@),
            }),
        },
{
    let ghost before = views(out@);
    match relation(x, y) {
        Err(e) => {
            return Err(e);
        },
        Ok(Relation::Equal(v)) => {
            out.push(v);
            assert(views(out@) =~= before.push(v@));
        },
        Ok(Relation::Subset(v)) => {
            out.push(v);
            assert(views(out@) =~= before.push(v@));
        },
        Ok(Relation::Superset(v)) => {
            out.push(v);
            assert(views(out@) =~= before.push(v@));
        },
        Ok(Relation::Overlap(v)) => {
            out.push(v);
            assert(views(out@) =~= before.push(v@));
        },
        Ok(Relation::Disjoint) => {},
    }
    Ok(())
}

} // verus!
