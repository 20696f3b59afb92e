//! Putting an identifier into a set.

use vstd::prelude::*;
use vstd::arithmetic::power2::pow2;
use crate::id::complement::model_complement;
use crate::id::cover::{cell_at, first_point, lemma_cell_in_domain, lemma_inhabited, Point};
use crate::id::relation::{
    lemma_part_timed, lemma_relates, lemma_relation_wf, model_relation, relates, relation,
    Relation, RelationView,
};
use crate::id::{lemma_domain_fits, Axis, IdError, IdView, SpaceTimeId};
use crate::set::and::shared_parts;
use crate::set::merge::{lemma_put_tall, put};
use crate::set::{
    all_spatial, all_tall, all_timed, all_wf, covered, disjoint, set_result_view, views,
    SpaceTimeIdSet,
};

verus! {

impl IdView {
    /// The identifier is, at zoom level 0, the whole vertical axis: it covers
    /// the whole of space.
    pub open spec fn whole_at_zero(self) -> bool {
        self.z == 0 && self.f is Any
    }

    /// No point is covered by both identifiers.
    pub open spec fn apart(self, other: IdView) -> bool {
        forall|p: Point| !(#[trigger] self.covers(p) && other.covers(p))
    }

    /// Every point that the identifier covers is covered by the sequence.
    pub open spec fn within(self, s: Seq<IdView>) -> bool {
        forall|p: Point| #[trigger] self.covers(p) ==> covered(s, p)
    }

    /// The identifier covers no point at the height `c` of the finest grid.
    pub open spec fn misses(self, c: int) -> bool {
        forall|p: Point| p.f == c ==> !#[trigger] self.covers(p)
    }

    /// The identifier does not reach every height: there is a height of the
    /// finest grid at which it covers no point.
    pub open spec fn short(self) -> bool {
        exists|c: int| -pow2(31) <= c < pow2(31) && #[trigger] self.misses(c)
    }
}

/// The error says that a time index does not fit in 32 bits: one of an
/// identifier brought to a shorter interval, or the one after the index
/// `u32::MAX`.
pub open spec fn unfit(e: IdError) -> bool {
    e == IdError::ScaleError(crate::id::ScaleFault::TimeOverflow) || e == IdError::OutOfRange(
        Axis::T,
    )
}

/// The identifier shares no point with the identifiers of the sequence at the
/// places before `start` and from `end` on.
pub open spec fn apart_outside(s: Seq<IdView>, v: IdView, start: int, end: int) -> bool {
    forall|k: int| 0 <= k < s.len() && !(start <= k < end) ==> (#[trigger] s[k]).apart(v)
}

/// Each identifier of `before` is still there, at its place, and covers what
/// it covered.
pub open spec fn kept(before: Seq<IdView>, after: Seq<IdView>) -> bool {
    &&& before.len() <= after.len()
    &&& forall|k: int, p: Point|
        0 <= k < before.len() && #[trigger] before[k].covers(p) ==> after[k].covers(p)
}

/// What an identifier of `after` covers, the identifier at its place in
/// `before` covered, or else `added` covers it and nothing in `before` did.
pub open spec fn added_within(before: Seq<IdView>, after: Seq<IdView>, added: Seq<IdView>) -> bool {
    forall|k: int, p: Point|
        0 <= k < after.len() && #[trigger] after[k].covers(p) ==> (k < before.len()
            && before[k].covers(p)) || (covered(added, p) && !covered(before, p))
}

/// The identifier shares no point with any identifier of the sequence.
pub open spec fn beside_all(s: Seq<IdView>, v: IdView) -> bool {
    forall|k: int| 0 <= k < s.len() ==> (#[trigger] s[k]).apart(v)
}

/// Each identifier of the sequence before the place `end` reaches every
/// height: its vertical range is `Any`.
pub open spec fn tall_before(s: Seq<IdView>, end: int) -> bool {
    forall|k: int| 0 <= k < end && k < s.len() ==> (#[trigger] s[k]).f is Any
}

/// The identifier `v` is one that is covered once it is put into the
/// sequence, with the places before `end` looked at.
///
/// Without intervals, in a sequence without intervals: it is not the whole of
/// space at zoom level 0. With an interval and a time range other than `Any`:
/// its vertical range is not `Any`, or that of each identifier looked at is
/// `Any`. What is left out are the cases in which a complement taken on the
/// way is empty without a look, or does not reach all of space at zoom level
/// 0.
pub open spec fn steady(before: Seq<IdView>, v: IdView, end: int) -> bool {
    (all_spatial(before) && v.i == 0 && !v.whole_at_zero()) || (v.timed() && (!(v.f is Any)
        || tall_before(before, end)))
}

/// What holds of a sequence of identifiers after one more, `v`, was put into
/// it, with the places from `start` to `end` looked at.
///
/// Each identifier covers what it covered; identifiers without intervals
/// stay so where `v` has none; those before `end` that reach every height
/// still do; and all reach every height where all did and `v` does.
///
/// Where the identifiers shared no point before, and `v` shared none with
/// those at the places not looked at: they share none after; what they cover
/// more is covered by `v` and was not covered before; `v` is covered where
/// it is [`steady`] or shared no point with any of them; and nothing has
/// changed where `v` was covered before.
pub open spec fn inserted(
    before: Seq<IdView>,
    after: Seq<IdView>,
    v: IdView,
    start: int,
    end: int,
) -> bool {
    &&& kept(before, after)
    &&& (all_spatial(before) && v.i == 0 ==> all_spatial(after))
    &&& (tall_before(before, end) ==> tall_before(after, end))
    &&& (all_tall(before) && v.f is Any ==> all_tall(after))
    &&& (disjoint(before) && apart_outside(before, v, start, end) ==> {
        &&& disjoint(after)
        &&& added_within(before, after, seq![v])
        &&& (steady(before, v, end) || beside_all(before, v) ==> v.within(after))
        &&& (v.within(before) ==> after == before)
    })
}

/// At zoom level 0 an identifier without interval covers, with a point,
/// every point of the grid in the same vertical cell; and one whose vertical
/// range is `Any` covers the grid.
pub proof fn lemma_zero_level(v: IdView, base: Point, p: Point)
    requires
        v.wf(),
        v.z == 0,
        v.i == 0,
        p.in_space(),
    ensures
        v.covers(base) && cell_at(p.f, 0) == cell_at(base.f, 0) ==> v.covers(p),
        v.f is Any ==> v.covers(p),
{
    lemma_domain_fits(0);
    vstd::arithmetic::power2::lemma2_to64();
    lemma_cell_in_domain(p.x, 0);
    lemma_cell_in_domain(p.y, 0);
    lemma_cell_in_domain(p.f, 0);
    if base.in_space() {
        lemma_cell_in_domain(base.x, 0);
        lemma_cell_in_domain(base.y, 0);
    }
    assert(cell_at(p.x, 0) == 0);
    assert(cell_at(p.y, 0) == 0);
}

/// What a set made of one identifier covers.
pub proof fn lemma_single(s: Seq<IdView>, v: IdView, p: Point)
    requires
        s.len() == 1,
        s[0] == v,
    ensures
        covered(s, p) <==> v.covers(p),
        disjoint(s),
{
    if v.covers(p) {
        assert(s[0].covers(p));
    }
}

/// At zoom level 0 an identifier covers, with a point, every point of the
/// grid at the same second whose height lies in its vertical range.
pub proof fn lemma_zero_level_timed(v: IdView, base: Point, p: Point)
    requires
        v.wf(),
        v.z == 0,
        v.covers(base),
        p.in_space(),
        p.s == base.s,
        v.f.contains(cell_at(p.f, 0)),
    ensures
        v.covers(p),
{
    lemma_domain_fits(0);
    vstd::arithmetic::power2::lemma2_to64();
    lemma_cell_in_domain(p.x, 0);
    lemma_cell_in_domain(p.y, 0);
    lemma_cell_in_domain(base.x, 0);
    lemma_cell_in_domain(base.y, 0);
    assert(cell_at(p.x, 0) == 0);
    assert(cell_at(p.y, 0) == 0);
}

/// A well-formed identifier reaches every height exactly if its vertical
/// range is `Any`: a range in canonical form other than `Any` leaves a cell of
/// the axis out.
pub proof fn lemma_short(v: IdView)
    requires
        v.wf(),
    ensures
        v.short() <==> !(v.f is Any),
{
    if v.f is Any {
        lemma_inhabited(v);
        let base = first_point(v);
        assert forall|c: int| -pow2(31) <= c < pow2(31) implies !#[trigger] v.misses(c) by {
            let q = Point { f: c, x: base.x, y: base.y, s: base.s };
            assert(q.f == c && v.covers(q));
        }
    } else {
        lemma_leaves_out(v);
    }
}

/// A well-formed identifier whose vertical range is not `Any` leaves a
/// height out.
proof fn lemma_leaves_out(v: IdView)
    requires
        v.wf(),
        !(v.f is Any),
    ensures
        v.short(),
{
    let k = pow2((31 - v.z) as nat) as int;
    let n = pow2(v.z as nat) as int;
    vstd::arithmetic::power2::lemma_pow2_pos((31 - v.z) as nat);
    vstd::arithmetic::power2::lemma_pow2_adds(v.z as nat, (31 - v.z) as nat);
    lemma_domain_fits(v.z);
    assert(pow2(31) == n * k);
    let cell = if v.f.contains(-n) {
        n - 1
    } else {
        -n
    };
    assert(!v.f.contains(cell));
    let c = cell * k;
    assert(-(n * k) <= c && c + k <= n * k) by (nonlinear_arith)
        requires
            -n <= cell < n,
            k > 0,
            c == cell * k,
    ;
    crate::id::range::lemma_div_bounds(c, k, cell);
    crate::id::range::lemma_div_bounds(c, k, cell - 1);
    crate::id::range::lemma_div_bounds(c, k, cell + 1);
    assert((cell + 1) * k == c + k) by (nonlinear_arith)
        requires
            c == cell * k,
    ;
    assert((cell - 1 + 1) * k == c);
    assert(cell_at(c, v.z) == cell);
    assert(v.misses(c));
}

/// At zoom level 0 an identifier that does not reach every height has a
/// single vertical cell.
pub proof fn lemma_short_at_zero(v: IdView)
    requires
        v.wf(),
        v.z == 0,
        v.short(),
    ensures
        v.f is Single,
{
    vstd::arithmetic::power2::lemma2_to64();
    lemma_domain_fits(0);
    if v.f is Any {
        let c = choose|c: int| -pow2(31) <= c < pow2(31) && #[trigger] v.misses(c);
        let base = first_point(v);
        lemma_inhabited(v);
        let q = Point { f: c, x: base.x, y: base.y, s: base.s };
        lemma_zero_level_timed(v, base, q);
        assert(q.f == c && v.covers(q));
    }
}

impl SpaceTimeIdSet {
    /// The set that holds the one identifier, in the form in which a set
    /// stores it.
    pub fn single(id: SpaceTimeId) -> (res: Self)
        requires
            id.wf(),
        ensures
            res@ == seq![id@.optimal()],
            res.wf(),
            forall|p: Point| #[trigger] covered(res@, p) <==> id@.covers(p),
            disjoint(res@),
            res@[0].i == 0 <==> id@.i == 0,
            id@.timed() ==> res@[0].timed(),
            id@.f is Any ==> res@[0].f is Any,
    {
        let mut inner: Vec<SpaceTimeId> = Vec::new();
        assert(views(inner@) =~= Seq::<IdView>::empty());
        let m = Self::optimal_push(&mut inner, id);
        let res = Self::from_entries(inner);
        proof {
            assert(res@ =~= seq![id@.optimal()]);
            assert forall|p: Point| #[trigger] covered(res@, p) <==> id@.covers(p) by {
                lemma_single(res@, res@[0], p);
            }
            lemma_single(res@, res@[0], first_point(id@));
            crate::set::optimal::lemma_optimal_timed(id@);
            if id@.f is Any {
                crate::set::optimal::lemma_optimal_tall(id@);
            }
        }
        res
    }

    /// What `cand` covers and `part` does not, as the intersection of the
    /// set of `cand` alone with the complement of `part`.
    fn difference(cand: SpaceTimeId, part: SpaceTimeId) -> (res: Result<SpaceTimeIdSet, IdError>)
        requires
            cand.wf(),
            part.wf(),
        ensures
            set_result_view(res) == model_difference(cand@, part@),
            res matches Err(e) ==> unfit(e),
            cand@.i == 0 && part@.i == 0 ==> res is Ok,
            res matches Ok(d) ==> {
                &&& d.wf()
                &&& disjoint(d@)
                &&& (cand@.i == 0 && part@.i == 0 ==> all_spatial(d@))
                &&& (cand@.timed() ==> all_timed(d@))
                &&& (cand@.f is Any && part@.f is Any ==> all_tall(d@))
                &&& forall|p: Point| #[trigger] covered(d@, p) ==> cand@.covers(p) && !part@.covers(p)
                &&& (!part@.complement_skipped() ==> forall|p: Point|
                    cand@.covers(p) && !part@.covers(p) && part@.in_reach(p) ==> #[trigger] covered(
                        d@,
                        p,
                    ))
            },
    {
        let rest = match part.complement() {
            Ok(c) => c,
            Err(e) => {
                return Err(e);
            },
        };
        let own = Self::single(cand);
        proof {
            if cand@.i == 0 && part@.i == 0 {
                assert(all_spatial(own@));
                assert(all_spatial(rest@));
            }
            if cand@.timed() {
                assert(all_timed(own@));
            }
            if cand@.f is Any {
                assert(all_tall(own@));
            }
        }
        own.intersection(&rest)
    }

    /// The identifiers of `v`, copied.
    pub(crate) fn copy_entries(v: &Vec<SpaceTimeId>) -> (res: Vec<SpaceTimeId>)
        ensures
            res@ == v@,
    {
        let mut res: Vec<SpaceTimeId> = Vec::new();
        let mut k: usize = 0;
        while k < v.len()
            invariant
                k <= v.len(),
                res@ == v@.subrange(0, k as int),
            decreases v.len() - k,
        {
            res.push(v[k]);
            assert(res@ =~= v@.subrange(0, k + 1));
            k = k + 1;
        }
        assert(v@.subrange(0, v.len() as int) =~= v@);
        res
    }
}

/// An identifier that shares no point with any identifier of a sequence was
/// put into it by `optimal_push`: what holds of the sequence then.
pub proof fn lemma_put_apart(
    before: Seq<IdView>,
    after: Seq<IdView>,
    v: IdView,
    start: int,
    end: int,
    m: int,
)
    requires
        v.wf(),
        all_wf(before),
        after == put(before, v),
        0 <= m <= before.len(),
        end <= before.len(),
        after.len() == (if m == before.len() {
            m + 1
        } else {
            before.len() as int
        }),
        forall|k: int| 0 <= k < before.len() && k != m ==> after[k] == before[k],
        forall|p: Point| #[trigger]
            after[m].covers(p) <==> (m < before.len() && before[m].covers(p)) || v.covers(p),
        (after[m].i == 0) == (v.i == 0),
    ensures
        kept(before, after),
        all_spatial(before) && v.i == 0 ==> all_spatial(after),
        tall_before(before, end) ==> tall_before(after, end),
        all_tall(before) && v.f is Any ==> all_tall(after),
        apart_outside(before, v, 0, 0) ==> inserted(before, after, v, start, end),
{
    lemma_put_tall(before, v, end);
    if all_spatial(before) && v.i == 0 {
        assert forall|k: int| 0 <= k < after.len() implies (#[trigger] after[k]).i == 0 by {
            if k != m {
                assert(before[k].i == 0);
            }
        }
    }
    assert(kept(before, after)) by {
        assert forall|k: int, p: Point|
            0 <= k < before.len() && #[trigger] before[k].covers(p) implies after[k].covers(
            p,
        ) by {
            if k != m {
                assert(after[k] == before[k]);
            }
        }
    }
    if apart_outside(before, v, 0, 0) {
        assert forall|p: Point| !(#[trigger] v.covers(p) && covered(before, p)) by {
            if v.covers(p) && covered(before, p) {
                let k = choose|k: int| 0 <= k < before.len() && (#[trigger] before[k]).covers(p);
                assert(before[k].apart(v));
            }
        }
        crate::id::complement::lemma_pushed(before, after, v, m);
        assert(added_within(before, after, seq![v])) by {
            assert forall|k: int, p: Point|
                0 <= k < after.len() && #[trigger] after[k].covers(p) implies (k < before.len()
                && before[k].covers(p)) || (covered(seq![v], p) && !covered(before, p)) by {
                if k != m {
                    assert(after[k] == before[k]);
                } else if !(k < before.len() && before[k].covers(p)) {
                    lemma_single(seq![v], v, p);
                }
            }
        }
        assert(v.within(after)) by {
            assert forall|p: Point| #[trigger] v.covers(p) implies covered(after, p) by {
                assert(after[m].covers(p));
            }
        }
        if v.within(before) {
            lemma_inhabited(v);
            assert(covered(before, first_point(v)));
        }
    }
}

/// Nothing was put into a sequence, because one of its identifiers covers all
/// of `v`: what holds of the sequence then.
pub proof fn lemma_put_nothing(before: Seq<IdView>, v: IdView, start: int, end: int, k: int)
    requires
        0 <= k < before.len(),
        forall|p: Point| #[trigger] v.covers(p) ==> before[k].covers(p),
    ensures
        inserted(before, before, v, start, end),
{
    assert(v.within(before)) by {
        assert forall|p: Point| #[trigger] v.covers(p) implies covered(before, p) by {
            assert(before[k].covers(p));
        }
    }
}

/// The next piece of what `cand` covers beyond `part` shares no point with
/// the identifiers at the places that are not looked at for it.
pub proof fn lemma_piece_apart(
    before: Seq<IdView>,
    cur: Seq<IdView>,
    dv: Seq<IdView>,
    j: int,
    cand: IdView,
    part: IdView,
    start: int,
    k: int,
    end: int,
)
    requires
        0 <= start <= k < end <= before.len() <= cur.len(),
        0 <= j < dv.len(),
        added_within(before, cur, dv.subrange(0, j)),
        disjoint(dv),
        forall|p: Point| #[trigger] covered(dv, p) ==> cand.covers(p) && !part.covers(p),
        forall|p: Point| before[k].covers(p) && cand.covers(p) ==> #[trigger] part.covers(p),
        apart_outside(before, cand, start, end),
        forall|m: int| start <= m < k ==> (#[trigger] before[m]).apart(cand),
    ensures
        apart_outside(cur, dv[j], k + 1, end),
{
    assert forall|m: int| 0 <= m < cur.len() && !(k + 1 <= m < end) implies (#[trigger] cur[m]).apart(
        dv[j],
    ) by {
        assert forall|p: Point| !(#[trigger] cur[m].covers(p) && dv[j].covers(p)) by {
            if cur[m].covers(p) && dv[j].covers(p) {
                assert(covered(dv, p));
                if m < before.len() && before[m].covers(p) {
                    if m == k {
                        assert(part.covers(p));
                    } else {
                        assert(before[m].apart(cand));
                    }
                } else {
                    let head = dv.subrange(0, j);
                    assert(covered(head, p));
                    let i = choose|i: int| 0 <= i < head.len() && (#[trigger] head[i]).covers(p);
                    assert(dv[i].covers(p));
                }
            }
        }
    }
}

/// One more piece was put into the sequence: what holds of the sequence
/// then.
pub proof fn lemma_piece_step(
    before: Seq<IdView>,
    cur: Seq<IdView>,
    after: Seq<IdView>,
    dv: Seq<IdView>,
    j: int,
    cand: IdView,
    k: int,
    end: int,
    complete: bool,
)
    requires
        0 <= j < dv.len(),
        kept(before, cur),
        disjoint(cur),
        added_within(before, cur, dv.subrange(0, j)),
        complete ==> forall|i: int| 0 <= i < j ==> (#[trigger] dv[i]).within(cur),
        complete ==> steady(cur, dv[j], end),
        cand.within(before) ==> cur == before,
        forall|p: Point| #[trigger] covered(dv, p) ==> cand.covers(p),
        apart_outside(cur, dv[j], k + 1, end),
        inserted(cur, after, dv[j], k + 1, end),
    ensures
        kept(before, after),
        disjoint(after),
        added_within(before, after, dv.subrange(0, j + 1)),
        complete ==> forall|i: int| 0 <= i < j + 1 ==> (#[trigger] dv[i]).within(after),
        cand.within(before) ==> after == before,
{
    assert(kept(before, after)) by {
        assert forall|m: int, p: Point|
            0 <= m < before.len() && #[trigger] before[m].covers(p) implies after[m].covers(p) by {
            assert(cur[m].covers(p));
        }
    }
    let head = dv.subrange(0, j);
    let more = dv.subrange(0, j + 1);
    assert(added_within(before, after, more)) by {
        assert forall|m: int, p: Point|
            0 <= m < after.len() && #[trigger] after[m].covers(p) implies (m < before.len()
            && before[m].covers(p)) || (covered(more, p) && !covered(before, p)) by {
            if m < cur.len() && cur[m].covers(p) {
                if !(m < before.len() && before[m].covers(p)) {
                    assert(covered(head, p));
                    let i = choose|i: int| 0 <= i < head.len() && (#[trigger] head[i]).covers(p);
                    assert(more[i].covers(p));
                }
            } else {
                lemma_single(seq![dv[j]], dv[j], p);
                assert(dv[j].covers(p) && !covered(cur, p));
                assert(more[j].covers(p));
                if covered(before, p) {
                    let i = choose|i: int| 0 <= i < before.len() && (#[trigger] before[i]).covers(p);
                    assert(cur[i].covers(p));
                }
            }
        }
    }
    if complete {
        assert forall|i: int| 0 <= i < j + 1 implies (#[trigger] dv[i]).within(after) by {
            if i < j {
                assert(dv[i].within(cur));
                assert forall|p: Point| #[trigger] dv[i].covers(p) implies covered(after, p) by {
                    assert(covered(cur, p));
                    let m = choose|m: int| 0 <= m < cur.len() && (#[trigger] cur[m]).covers(p);
                    assert(after[m].covers(p));
                }
            }
        }
    }
    if cand.within(before) {
        assert(dv[j].within(cur)) by {
            assert forall|p: Point| #[trigger] dv[j].covers(p) implies covered(cur, p) by {
                assert(covered(dv, p));
            }
        }
    }
}

/// The part that an identifier of a sequence shares with `cand` reaches, in
/// space, every point that `cand` covers, where `cand` is steady.
pub proof fn lemma_part_reaches(
    before: Seq<IdView>,
    cand: IdView,
    part: IdView,
    k: int,
    end: int,
    p: Point,
)
    requires
        cand.wf(),
        part.wf(),
        0 <= k < end <= before.len(),
        before[k].wf(),
        cand.timed(),
        cand.short() || tall_before(before, end),
        part.z == 0 ==> cand.z == 0 && before[k].z == 0,
        forall|q: Point| #[trigger] part.covers(q) <==> before[k].covers(q) && cand.covers(q),
        cand.covers(p),
    ensures
        part.in_reach(p),
{
    if part.z == 0 {
        let e = before[k];
        let base = first_point(part);
        lemma_inhabited(part);
        assert(e.covers(base) && cand.covers(base));
        let q = Point { f: p.f, x: p.x, y: p.y, s: base.s };
        assert(q.in_space());
        lemma_zero_level_timed(cand, base, q);
        if cand.short() {
            lemma_short_at_zero(cand);
            assert(cell_at(p.f, 0) == cell_at(base.f, 0));
        } else {
            assert(e.f is Any);
        }
        lemma_zero_level_timed(e, base, q);
        assert(part.covers(q));
        assert(part.covers_space(p));
    }
}

/// Every piece of what `cand` covers beyond `part` was put into the
/// sequence: what holds of the sequence then.
pub proof fn lemma_pieces_put(
    before: Seq<IdView>,
    cur: Seq<IdView>,
    dv: Seq<IdView>,
    cand: IdView,
    part: IdView,
    start: int,
    k: int,
    end: int,
)
    requires
        cand.wf(),
        part.wf(),
        all_wf(before),
        all_spatial(before) && cand.i == 0 ==> part.i == 0,
        cand.timed() ==> part.timed(),
        part.z == 0 ==> cand.z == 0 && before[k].z == 0,
        0 <= start <= k < end <= before.len(),
        kept(before, cur),
        disjoint(cur),
        added_within(before, cur, dv),
        steady(before, cand, end) ==> forall|i: int|
            0 <= i < dv.len() ==> (#[trigger] dv[i]).within(cur),
        cand.within(before) ==> cur == before,
        forall|p: Point| #[trigger] covered(dv, p) ==> cand.covers(p) && !part.covers(p),
        !part.complement_skipped() ==> forall|p: Point|
            cand.covers(p) && !part.covers(p) && part.in_reach(p) ==> #[trigger] covered(dv, p),
        forall|p: Point| #[trigger] part.covers(p) <==> before[k].covers(p) && cand.covers(p),
    ensures
        added_within(before, cur, seq![cand]),
        steady(before, cand, end) ==> cand.within(cur),
{
    assert(added_within(before, cur, seq![cand])) by {
        assert forall|m: int, p: Point|
            0 <= m < cur.len() && #[trigger] cur[m].covers(p) implies (m < before.len()
            && before[m].covers(p)) || (covered(seq![cand], p) && !covered(before, p)) by {
            if !(m < before.len() && before[m].covers(p)) {
                assert(covered(dv, p));
                lemma_single(seq![cand], cand, p);
            }
        }
    }
    if steady(before, cand, end) {
        assert forall|p: Point| #[trigger] cand.covers(p) implies covered(cur, p) by {
            if part.covers(p) {
                assert(before[k].covers(p));
                assert(cur[k].covers(p));
            } else {
                if cand.timed() {
                    assert(before[k].wf());
                    lemma_short(cand);
                    lemma_part_reaches(before, cand, part, k, end, p);
                } else {
                    if part.complement_skipped() {
                        if part.z == 0 {
                            let base = first_point(part);
                            lemma_inhabited(part);
                            assert(cand.covers(base));
                            vstd::arithmetic::power2::lemma2_to64();
                            assert(cand.f is Single);
                            lemma_zero_level(part, base, p);
                            assert(false);
                        } else {
                            assert(part.full_space());
                            assert(false);
                        }
                    }
                    assert(part.z >= 1);
                }
                assert(covered(dv, p));
                let i = choose|i: int| 0 <= i < dv.len() && (#[trigger] dv[i]).covers(p);
                assert(dv[i].within(cur));
            }
        }
    }
}

/// A piece of what `cand` covers beyond `part` is steady where `cand` is.
pub proof fn lemma_piece_steady(
    before: Seq<IdView>,
    cur: Seq<IdView>,
    dv: Seq<IdView>,
    j: int,
    cand: IdView,
    part: IdView,
    end: int,
)
    requires
        0 <= j < dv.len(),
        dv[j].wf(),
        cand.wf(),
        part.wf(),
        steady(before, cand, end),
        all_spatial(before) && cand.i == 0 ==> all_spatial(cur) && dv[j].i == 0,
        cand.timed() ==> dv[j].timed(),
        tall_before(before, end) ==> tall_before(cur, end),
        forall|p: Point| #[trigger] covered(dv, p) ==> cand.covers(p) && !part.covers(p),
    ensures
        steady(cur, dv[j], end),
{
    if all_spatial(before) && cand.i == 0 {
        if dv[j].whole_at_zero() {
            let base = first_point(part);
            lemma_inhabited(part);
            lemma_zero_level(dv[j], base, base);
            assert(dv[j].covers(base));
            assert(covered(dv, base));
        }
    } else {
        lemma_short(cand);
        lemma_short(dv[j]);
        if cand.short() {
            let c = choose|c: int| -pow2(31) <= c < pow2(31) && #[trigger] cand.misses(c);
            assert(dv[j].misses(c)) by {
                assert forall|p: Point| p.f == c implies !#[trigger] dv[j].covers(p) by {
                    if dv[j].covers(p) {
                        assert(covered(dv, p));
                    }
                }
            }
        }
    }
}

/// What `cand` covers and `part` does not, as the parts that `cand`, in the
/// form in which a set stores it, shares with the identifiers of the
/// complement of `part`; or why there is none.
pub open spec fn model_difference(cand: IdView, part: IdView) -> Result<Seq<IdView>, IdError> {
    match model_complement(part) {
        Err(e) => Err(e),
        Ok(c) => shared_parts(seq![cand.optimal()], c, (1 * c.len()) as nat),
    }
}

/// The sequence after `v` was put into it, with the identifiers at the places
/// from `start` to `end` looked at in their order; or why it cannot be put.
///
/// The first of them that is not `Disjoint` from `v` ends the search. If it
/// is `Equal` to `v` or `v` lies within it, the sequence stays as it is. Else
/// the pieces of what `v` covers beyond the part shared with it are put in by
/// [`model_insert_pieces`], with the places behind that identifier looked at.
/// If all are `Disjoint` from `v`, it is put in by [`put`].
pub open spec fn model_insert_from(s: Seq<IdView>, v: IdView, start: int, end: int) -> Result<
    Seq<IdView>,
    IdError,
>
    decreases end - start, 1int, 0int,
{
    if start < 0 || start >= end || end > s.len() {
        Ok(put(s, v))
    } else {
        match model_relation(s[start], v) {
            Err(e) => Err(e),
            Ok(RelationView::Disjoint) => model_insert_from(s, v, start + 1, end),
            Ok(RelationView::Equal(_)) => Ok(s),
            Ok(RelationView::Superset(_)) => Ok(s),
            Ok(RelationView::Subset(part)) => match model_difference(v, part) {
                Err(e) => Err(e),
                Ok(d) => model_insert_pieces(s, d, 0, start + 1, end),
            },
            Ok(RelationView::Overlap(part)) => match model_difference(v, part) {
                Err(e) => Err(e),
                Ok(d) => model_insert_pieces(s, d, 0, start + 1, end),
            },
        }
    }
}

/// The sequence after the identifiers of `d` from place `j` on were put into
/// it one after the other by [`model_insert_from`], each with the places from
/// `start` to `end` looked at; or the first error on the way.
pub open spec fn model_insert_pieces(
    s: Seq<IdView>,
    d: Seq<IdView>,
    j: int,
    start: int,
    end: int,
) -> Result<Seq<IdView>, IdError>
    decreases end - start, 2int, d.len() - j,
{
    if j < 0 || j >= d.len() {
        Ok(s)
    } else {
        match model_insert_from(s, d[j], start, end) {
            Err(e) => Err(e),
            Ok(after) => model_insert_pieces(after, d, j + 1, start, end),
        }
    }
}

/// The sequence after `v` was put into it, every identifier of it looked
/// at; or why it cannot be put.
pub open spec fn model_insert(s: Seq<IdView>, v: IdView) -> Result<Seq<IdView>, IdError> {
    model_insert_from(s, v, 0, s.len() as int)
}

/// What a function that changes a sequence in place has made of it, or its
/// error.
pub open spec fn outcome(res: Result<(), IdError>, after: Seq<IdView>) -> Result<
    Seq<IdView>,
    IdError,
> {
    match res {
        Ok(()) => Ok(after),
        Err(e) => Err(e),
    }
}

/// What a relation `r` of an identifier `a` of a sequence and an identifier
/// `b` says of the two: `Disjoint` ones share no point, `a` covers all of `b`
/// where they are `Equal` or `b` lies within `a`, and else the identifier
/// that the relation holds covers what both cover; it has no interval where
/// neither has one, does not cover all time where `b` does not, and lies at
/// zoom level 0 only where both do.
pub open spec fn related(a: IdView, b: IdView, r: RelationView) -> bool {
    match r {
        RelationView::Disjoint => a.apart(b),
        RelationView::Equal(_) => forall|p: Point| #[trigger] b.covers(p) ==> a.covers(p),
        RelationView::Superset(_) => forall|p: Point| #[trigger] b.covers(p) ==> a.covers(p),
        RelationView::Subset(v) => shared(a, b, v),
        RelationView::Overlap(v) => shared(a, b, v),
    }
}

/// The identifier `v` is the part that `a` and `b` share: it covers what
/// both cover, has no interval where neither has one, does not cover all
/// time where `b` does not, reaches every height where both do, and lies at
/// zoom level 0 only where both do.
pub open spec fn shared(a: IdView, b: IdView, v: IdView) -> bool {
    &&& (a.i == 0 && b.i == 0 ==> v.i == 0)
    &&& (b.timed() ==> v.timed())
    &&& (a.f is Any && b.f is Any ==> v.f is Any)
    &&& (v.z == 0 ==> a.z == 0 && b.z == 0)
    &&& forall|p: Point| #[trigger] v.covers(p) <==> a.covers(p) && b.covers(p)
}

/// The relation of two well-formed identifiers says of them what
/// [`related`] states.
pub proof fn lemma_related(a: IdView, b: IdView)
    requires
        a.wf(),
        b.wf(),
        model_relation(a, b) is Ok,
    ensures
        related(a, b, model_relation(a, b)->Ok_0),
{
    lemma_relation_wf(a, b);
    lemma_relates(a, b);
    lemma_part_timed(a, b);
    if a.f is Any && b.f is Any {
        crate::id::relation::lemma_part_tall(a, b);
    }
    let r = model_relation(a, b)->Ok_0;
    assert(relates(a, b, r));
    match r {
        RelationView::Disjoint => {
            assert forall|p: Point| !(#[trigger] a.covers(p) && b.covers(p)) by {}
        },
        RelationView::Equal(v) => {
            assert forall|p: Point| #[trigger] b.covers(p) implies a.covers(p) by {}
        },
        RelationView::Superset(v) => {
            assert forall|p: Point| #[trigger] b.covers(p) implies a.covers(p) by {}
        },
        RelationView::Subset(v) => {
            assert forall|p: Point| #[trigger] v.covers(p) <==> a.covers(p) && b.covers(p) by {
                if v.covers(p) {
                    assert(a.covers(p));
                }
            }
        },
        RelationView::Overlap(v) => {
            assert forall|p: Point| #[trigger] v.covers(p) <==> a.covers(p) && b.covers(p) by {
                if v.covers(p) {
                    assert(a.covers(p));
                }
            }
        },
    }
}

impl SpaceTimeIdSet {
    /// How an entry of a set and an identifier lie to each other.
    fn relation_of(entry: SpaceTimeId, cand: SpaceTimeId) -> (res: Result<Relation, IdError>)
        requires
            entry.wf(),
            cand.wf(),
        ensures
            crate::id::relation::relation_view(res) == model_relation(entry@, cand@),
            res matches Err(e) ==> unfit(e),
            entry@.i == 0 && cand@.i == 0 ==> res is Ok,
            res matches Ok(r) ==> r@.wf() && related(entry@, cand@, r@),
    {
        proof {
            if model_relation(entry@, cand@) is Ok {
                lemma_related(entry@, cand@);
            }
        }
        relation(entry, cand)
    }

    /// Puts `cand` into `entries`, of which those at the places from `start`
    /// to `end` are looked at: the first of them that shares a point with
    /// `cand` ends the search. If it covers `cand`, nothing is done; else what
    /// `cand` covers beyond it is put in piece by piece, each piece looked at
    /// against the entries behind that one. If none shares a point with
    /// `cand`, it is added by `optimal_push`.
    fn insert_from(
        entries: &mut Vec<SpaceTimeId>,
        cand: SpaceTimeId,
        start: usize,
        end: usize,
    ) -> (res: Result<(), IdError>)
        requires
            all_wf(views(old(entries)@)),
            cand.wf(),
            start <= end <= old(entries).len(),
        ensures
            outcome(res, views(final(entries)@)) == model_insert_from(
                views(old(entries)@),
                cand@,
                start as int,
                end as int,
            ),
            all_wf(views(final(entries)@)),
            old(entries).len() <= final(entries).len(),
            res matches Err(e) ==> unfit(e),
            all_spatial(views(old(entries)@)) && cand@.i == 0 ==> res is Ok,
            res is Ok ==> inserted(
                views(old(entries)@),
                views(final(entries)@),
                cand@,
                start as int,
                end as int,
            ),
        decreases end - start, 1nat,
    {
        let ghost before = views(entries@);
        let mut k = start;
        while k < end
            invariant
                start <= k <= end <= entries.len(),
                views(entries@) == before,
                entries@ == old(entries)@,
                all_wf(before),
                cand.wf(),
                forall|m: int| start <= m < k ==> (#[trigger] before[m]).apart(cand@),
                model_insert_from(before, cand@, k as int, end as int) == model_insert_from(
                    before,
                    cand@,
                    start as int,
                    end as int,
                ),
            decreases end - k,
        {
            let cur = entries[k];
            proof {
                assert(before[k as int] == cur@);
                assert(before[k as int].wf());
            }
            match Self::relation_of(cur, cand) {
                Err(e) => {
                    return Err(e);
                },
                Ok(Relation::Equal(_)) => {
                    proof {
                        lemma_put_nothing(before, cand@, start as int, end as int, k as int);
                    }
                    return Ok(());
                },
                Ok(Relation::Superset(_)) => {
                    proof {
                        lemma_put_nothing(before, cand@, start as int, end as int, k as int);
                    }
                    return Ok(());
                },
                Ok(Relation::Subset(part)) => {
                    return Self::insert_rest(entries, cand, part, start, k, end);
                },
                Ok(Relation::Overlap(part)) => {
                    return Self::insert_rest(entries, cand, part, start, k, end);
                },
                Ok(Relation::Disjoint) => {},
            }
            k = k + 1;
        }
        let m = Self::optimal_push(entries, cand);
        proof {
            let after = views(entries@);
            assert forall|j: int| 0 <= j < before.len() && j != m implies after[j] == before[j] by {
                assert(entries@[j] == old(entries)@[j]);
            }
            lemma_put_apart(before, after, cand@, start as int, end as int, m as int);
            if apart_outside(before, cand@, start as int, end as int) {
                assert(apart_outside(before, cand@, 0, 0));
            }
        }
        Ok(())
    }

    /// Puts into `entries` what `cand` covers beyond `part`, the part of it
    /// that the entry at place `k` covers: piece by piece, each looked at
    /// against the entries from place `k + 1` to `end`.
    fn insert_rest(
        entries: &mut Vec<SpaceTimeId>,
        cand: SpaceTimeId,
        part: SpaceTimeId,
        start: usize,
        k: usize,
        end: usize,
    ) -> (res: Result<(), IdError>)
        requires
            all_wf(views(old(entries)@)),
            cand.wf(),
            part.wf(),
            start <= k < end <= old(entries).len(),
            shared(views(old(entries)@)[k as int], cand@, part@),
            forall|m: int| start <= m < k ==> (#[trigger] views(old(entries)@)[m]).apart(cand@),
        ensures
            outcome(res, views(final(entries)@)) == (match model_difference(cand@, part@) {
                Err(e) => Err(e),
                Ok(d) => model_insert_pieces(views(old(entries)@), d, 0, k + 1, end as int),
            }),
            all_wf(views(final(entries)@)),
            old(entries).len() <= final(entries).len(),
            res matches Err(e) ==> unfit(e),
            all_spatial(views(old(entries)@)) && cand@.i == 0 ==> res is Ok,
            res is Ok ==> inserted(
                views(old(entries)@),
                views(final(entries)@),
                cand@,
                start as int,
                end as int,
            ),
        decreases end - k, 0nat,
    {
        let ghost before = views(entries@);
        let diff = match Self::difference(cand, part) {
            Ok(d) => d,
            Err(e) => {
                return Err(e);
            },
        };
        let pieces = diff.entries();
        let ghost dv = diff@;
        let mut j: usize = 0;
        proof {
            assert(before[k as int].wf());
            lemma_rest_start(before, dv, cand@, part@, start as int, k as int, end as int);
        }
        while j < pieces.len()
            invariant
                j <= pieces.len(),
                views(pieces@) == dv,
                before == views(old(entries)@),
                model_difference(cand@, part@) == Ok::<Seq<IdView>, IdError>(dv),
                model_insert_pieces(views(entries@), dv, j as int, k + 1, end as int)
                    == model_insert_pieces(before, dv, 0, k + 1, end as int),
                all_wf(dv),
                all_wf(views(entries@)),
                start <= k < end <= before.len() <= entries.len(),
                all_spatial(before) && cand@.i == 0 ==> all_spatial(views(entries@)) && all_spatial(
                    dv,
                ),
                rest_state(
                    before,
                    views(entries@),
                    dv,
                    j as int,
                    cand@,
                    part@,
                    start as int,
                    k as int,
                    end as int,
                ),
            decreases pieces.len() - j,
        {
            let piece = pieces[j];
            let ghost cur = views(entries@);
            proof {
                assert(dv[j as int] == piece@);
                assert(dv[j as int].wf());
                lemma_rest_before(
                    before,
                    cur,
                    dv,
                    j as int,
                    cand@,
                    part@,
                    start as int,
                    k as int,
                    end as int,
                );
                if all_spatial(before) && cand@.i == 0 {
                    assert(dv[j as int].i == 0);
                }
            }
            match Self::insert_from(entries, piece, k + 1, end) {
                Err(e) => {
                    proof {
                        assert(model_insert_from(cur, dv[j as int], k + 1, end as int) == Err::<
                            Seq<IdView>,
                            IdError,
                        >(e));
                        assert(model_insert_pieces(cur, dv, j as int, k + 1, end as int) == Err::<
                            Seq<IdView>,
                            IdError,
                        >(e));
                    }
                    return Err(e);
                },
                Ok(()) => {
                    proof {
                        assert(model_insert_from(cur, dv[j as int], k + 1, end as int) == Ok::<
                            Seq<IdView>,
                            IdError,
                        >(views(entries@)));
                        assert(model_insert_pieces(cur, dv, j as int, k + 1, end as int)
                            == model_insert_pieces(views(entries@), dv, j + 1, k + 1, end as int));
                        lemma_rest_after(
                            before,
                            cur,
                            views(entries@),
                            dv,
                            j as int,
                            cand@,
                            part@,
                            start as int,
                            k as int,
                            end as int,
                        );
                    }
                },
            }
            j = j + 1;
        }
        proof {
            lemma_rest_end(
                before,
                views(entries@),
                dv,
                cand@,
                part@,
                start as int,
                k as int,
                end as int,
            );
        }
        Ok(())
    }
}

/// What holds while the pieces of what `cand` covers beyond `part` are put
/// into a sequence, `j` of them being in: what is known of the pieces and of
/// `part`; that each identifier covers what it covered, and those before
/// `end` that reach every height still do; and, where the identifiers shared
/// no point before and `cand` shared none with those not looked at, that they
/// share none now, that what they cover more lies in the pieces put in and
/// was not covered before, that those pieces are covered where `cand` is
/// steady, and that nothing has changed where `cand` was covered before.
#[verifier::opaque]
pub open spec fn rest_state(
    before: Seq<IdView>,
    cur: Seq<IdView>,
    dv: Seq<IdView>,
    j: int,
    cand: IdView,
    part: IdView,
    start: int,
    k: int,
    end: int,
) -> bool {
    let clean = disjoint(before) && apart_outside(before, cand, start, end);
    &&& cand.wf()
    &&& part.wf()
    &&& all_wf(before)
    &&& shared(before[k], cand, part)
    &&& (all_spatial(before) && cand.i == 0 ==> all_spatial(dv) && all_spatial(cur))
    &&& (cand.timed() ==> all_timed(dv))
    &&& (all_tall(before) && cand.f is Any ==> all_tall(dv) && all_tall(cur))
    &&& disjoint(dv)
    &&& (forall|p: Point| #[trigger] covered(dv, p) ==> cand.covers(p) && !part.covers(p))
    &&& (!part.complement_skipped() ==> forall|p: Point|
        cand.covers(p) && !part.covers(p) && part.in_reach(p) ==> #[trigger] covered(dv, p))
    &&& (forall|m: int| start <= m < k ==> (#[trigger] before[m]).apart(cand))
    &&& kept(before, cur)
    &&& (tall_before(before, end) ==> tall_before(cur, end))
    &&& (clean ==> {
        &&& disjoint(cur)
        &&& added_within(before, cur, dv.subrange(0, j))
        &&& (steady(before, cand, end) ==> forall|i: int|
            0 <= i < j ==> (#[trigger] dv[i]).within(cur))
        &&& (cand.within(before) ==> cur == before)
    })
}

/// The state before the first piece is put in.
pub proof fn lemma_rest_start(
    before: Seq<IdView>,
    dv: Seq<IdView>,
    cand: IdView,
    part: IdView,
    start: int,
    k: int,
    end: int,
)
    requires
        cand.wf(),
        part.wf(),
        all_wf(before),
        0 <= start <= k < end <= before.len(),
        shared(before[k], cand, part),
        forall|m: int| start <= m < k ==> (#[trigger] before[m]).apart(cand),
        all_spatial(before) && cand.i == 0 ==> all_spatial(dv),
        cand.timed() ==> all_timed(dv),
        cand.f is Any && part.f is Any ==> all_tall(dv),
        disjoint(dv),
        forall|p: Point| #[trigger] covered(dv, p) ==> cand.covers(p) && !part.covers(p),
        !part.complement_skipped() ==> forall|p: Point|
            cand.covers(p) && !part.covers(p) && part.in_reach(p) ==> #[trigger] covered(dv, p),
    ensures
        rest_state(before, before, dv, 0, cand, part, start, k, end),
{
    reveal(rest_state);
    assert(dv.subrange(0, 0) =~= Seq::<IdView>::empty());
    if all_tall(before) && cand.f is Any {
        assert(before[k].f is Any);
    }
}

/// What the state gives for the next piece: without intervals it has none;
/// and where the identifiers shared no point, they share none, the piece
/// shares none with those not looked at for it, and it is steady where
/// `cand` is.
pub proof fn lemma_rest_before(
    before: Seq<IdView>,
    cur: Seq<IdView>,
    dv: Seq<IdView>,
    j: int,
    cand: IdView,
    part: IdView,
    start: int,
    k: int,
    end: int,
)
    requires
        rest_state(before, cur, dv, j, cand, part, start, k, end),
        0 <= start <= k < end <= before.len() <= cur.len(),
        0 <= j < dv.len(),
        dv[j].wf(),
    ensures
        all_spatial(before) && cand.i == 0 ==> all_spatial(cur) && dv[j].i == 0,
        disjoint(before) && apart_outside(before, cand, start, end) ==> disjoint(cur)
            && apart_outside(cur, dv[j], k + 1, end) && (steady(before, cand, end) ==> steady(
            cur,
            dv[j],
            end,
        )),
{
    reveal(rest_state);
    if all_spatial(before) && cand.i == 0 {
        assert(dv[j].i == 0);
    }
    if cand.timed() {
        assert(dv[j].timed());
    }
    if disjoint(before) && apart_outside(before, cand, start, end) {
        lemma_piece_apart(before, cur, dv, j, cand, part, start, k, end);
        if steady(before, cand, end) {
            lemma_piece_steady(before, cur, dv, j, cand, part, end);
        }
    }
}

/// The state after one more piece was put in.
pub proof fn lemma_rest_after(
    before: Seq<IdView>,
    cur: Seq<IdView>,
    after: Seq<IdView>,
    dv: Seq<IdView>,
    j: int,
    cand: IdView,
    part: IdView,
    start: int,
    k: int,
    end: int,
)
    requires
        rest_state(before, cur, dv, j, cand, part, start, k, end),
        0 <= start <= k < end <= before.len() <= cur.len(),
        0 <= j < dv.len(),
        dv[j].wf(),
        inserted(cur, after, dv[j], k + 1, end),
    ensures
        rest_state(before, after, dv, j + 1, cand, part, start, k, end),
{
    lemma_rest_before(before, cur, dv, j, cand, part, start, k, end);
    reveal(rest_state);
    if all_tall(before) && cand.f is Any {
        assert(dv[j].f is Any);
    }
    assert(kept(before, after)) by {
        assert forall|m: int, p: Point|
            0 <= m < before.len() && #[trigger] before[m].covers(p) implies after[m].covers(p) by {
            assert(cur[m].covers(p));
        }
    }
    if disjoint(before) && apart_outside(before, cand, start, end) {
        lemma_piece_step(
            before,
            cur,
            after,
            dv,
            j,
            cand,
            k,
            end,
            steady(before, cand, end),
        );
    }
}

/// What the state gives once every piece is put in.
pub proof fn lemma_rest_end(
    before: Seq<IdView>,
    cur: Seq<IdView>,
    dv: Seq<IdView>,
    cand: IdView,
    part: IdView,
    start: int,
    k: int,
    end: int,
)
    requires
        rest_state(before, cur, dv, dv.len() as int, cand, part, start, k, end),
        0 <= start <= k < end <= before.len() <= cur.len(),
    ensures
        inserted(before, cur, cand, start, end),
{
    reveal(rest_state);
    assert(dv.subrange(0, dv.len() as int) =~= dv);
    if disjoint(before) && apart_outside(before, cand, start, end) {
        lemma_pieces_put(before, cur, dv, cand, part, start, k, end);
        if beside_all(before, cand) {
            lemma_inhabited(part);
            assert(before[k].apart(cand));
            assert(before[k].covers(first_point(part)) && cand.covers(first_point(part)));
        }
    }
}

impl SpaceTimeIdSet {
    /// Puts an identifier into the set, so that the set covers what it
    /// covered and what the identifier covers, and no point twice.
    ///
    /// Into an empty set the identifier goes in the form in which a set
    /// stores it. Otherwise the identifiers of the set are looked at in
    /// their order. The first that shares a point with the new one ends the
    /// search: if it covers the new one, nothing is done; else what the new
    /// one covers beyond it, the intersection of the new one with its
    /// complement, is put in piece by piece in the same way. If none shares a
    /// point with the new one, that one is merged with the first identifier
    /// that it can be merged with, or added at the end.
    ///
    /// It fails, and leaves the set as it was, where a time index does not fit
    /// in 32 bits on the way, never for identifiers without intervals;
    /// [`inserted`] says what holds afterwards.
    pub fn insert(&mut self, other: SpaceTimeId) -> (res: Result<(), IdError>)
        requires
            old(self).wf(),
            other.wf(),
        ensures
            outcome(res, final(self)@) == model_insert(old(self)@, other@),
            final(self).wf(),
            res matches Err(e) ==> unfit(e) && final(self)@ == old(self)@,
            all_spatial(old(self)@) && other@.i == 0 ==> res is Ok,
            old(self)@.len() == 0 ==> res is Ok && final(self)@ == seq![other@.optimal()],
            res is Ok ==> old(self)@.len() <= final(self)@.len(),
            res is Ok ==> inserted(
                old(self)@,
                final(self)@,
                other@,
                0,
                old(self)@.len() as int,
            ),
    {
        let mut work = Self::copy_entries(&self.inner);
        let n = work.len();
        if n == 0 {
            let m = Self::optimal_push(&mut work, other);
            proof {
                let before = old(self)@;
                let after = views(work@);
                assert(after =~= seq![other@.optimal()]);
                assert(apart_outside(before, other@, 0, 0));
                lemma_put_apart(before, after, other@, 0, 0, 0);
            }
            self.inner = work;
            return Ok(());
        }
        match Self::insert_from(&mut work, other, 0, n) {
            Err(e) => Err(e),
            Ok(()) => {
                self.inner = work;
                Ok(())
            },
        }
    }
}

} // verus!
