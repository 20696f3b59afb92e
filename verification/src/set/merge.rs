//! Merging an identifier with a neighbour, and putting it into a sequence
//! of identifiers that it shares no point with.

use vstd::prelude::*;
use crate::id::cover::{cell_at, first_point, lemma_new_covers, Point};
use crate::id::range::{
    lemma_canonical_bounds, lemma_join_contains, lemma_normalize_canonical, lemma_normalize_ok,
    lift_i32, lift_u32, lower_i32, lower_u32, same_range, to_continuous_range,
};
use crate::id::{
    f_domain, lemma_domain_fits, lemma_new_wf, model_new, t_domain, xy_domain, Axis,
    DimensionRange, IdView, SpaceTimeId,
};
use crate::set::{all_wf, views, SpaceTimeIdSet};

verus! {

impl IdView {
    /// The identifier with the range `r` on the named axis in place of its
    /// own, brought to canonical form.
    pub open spec fn with_range(self, axis: Axis, r: DimensionRange<int>) -> IdView {
        match axis {
            Axis::F => model_new(self.z, r, self.x, self.y, self.i, self.t)->Ok_0,
            Axis::X => model_new(self.z, self.f, r, self.y, self.i, self.t)->Ok_0,
            Axis::Y => model_new(self.z, self.f, self.x, r, self.i, self.t)->Ok_0,
            Axis::T => model_new(self.z, self.f, self.x, self.y, self.i, r)->Ok_0,
        }
    }

    /// The range of the identifier on the named axis.
    pub open spec fn range_on(self, axis: Axis) -> DimensionRange<int> {
        match axis {
            Axis::F => self.f,
            Axis::X => self.x,
            Axis::Y => self.y,
            Axis::T => self.t,
        }
    }

    /// The one identifier that covers what `self` and `other` cover, where
    /// they have the same zoom level and interval and differ on one axis
    /// alone, on which one range ends right before the other starts; `None`
    /// otherwise.
    pub open spec fn merged(self, other: IdView) -> Option<IdView> {
        if self.z != other.z || self.i != other.i {
            None
        } else if self.y == other.y && self.f == other.f && self.t == other.t {
            match self.x.join(other.x) {
                Some(j) => Some(self.with_range(Axis::X, j)),
                None => None,
            }
        } else if self.x == other.x && self.f == other.f && self.t == other.t {
            match self.y.join(other.y) {
                Some(j) => Some(self.with_range(Axis::Y, j)),
                None => None,
            }
        } else if self.x == other.x && self.y == other.y && self.t == other.t {
            match self.f.join(other.f) {
                Some(j) => Some(self.with_range(Axis::F, j)),
                None => None,
            }
        } else if self.x == other.x && self.y == other.y && self.f == other.f {
            match self.t.join(other.t) {
                Some(j) => Some(self.with_range(Axis::T, j)),
                None => None,
            }
        } else {
            None
        }
    }
}

/// A well-formed identifier that is given another ordered range within the
/// bounds of an axis is built without fault, and is well-formed.
pub proof fn lemma_with_range(v: IdView, axis: Axis, r: DimensionRange<int>)
    requires
        v.wf(),
        r.ordered(),
        axis == Axis::T ==> v.i != 0 && r.bounds_within(0, u32::MAX as int),
        axis == Axis::F ==> r.bounds_within(f_domain(v.z).min, f_domain(v.z).max->0),
        axis == Axis::X || axis == Axis::Y ==> r.bounds_within(
            xy_domain(v.z).min,
            xy_domain(v.z).max->0,
        ),
    ensures
        v.with_range(axis, r).wf(),
        v.with_range(axis, r).z == v.z,
        v.with_range(axis, r).i == v.i,
        match axis {
            Axis::F => model_new(v.z, r, v.x, v.y, v.i, v.t),
            Axis::X => model_new(v.z, v.f, r, v.y, v.i, v.t),
            Axis::Y => model_new(v.z, v.f, v.x, r, v.i, v.t),
            Axis::T => model_new(v.z, v.f, v.x, v.y, v.i, r),
        } == Ok::<IdView, crate::id::IdError>(v.with_range(axis, r)),
{
    lemma_domain_fits(v.z);
    lemma_normalize_canonical(v.x, xy_domain(v.z));
    lemma_normalize_canonical(v.y, xy_domain(v.z));
    lemma_normalize_canonical(v.f, f_domain(v.z));
    lemma_normalize_canonical(v.t, t_domain());
    match axis {
        Axis::F => {
            lemma_normalize_ok(r, f_domain(v.z));
            lemma_new_wf(v.z, r, v.x, v.y, v.i, v.t);
        },
        Axis::X => {
            lemma_normalize_ok(r, xy_domain(v.z));
            lemma_new_wf(v.z, v.f, r, v.y, v.i, v.t);
        },
        Axis::Y => {
            lemma_normalize_ok(r, xy_domain(v.z));
            lemma_new_wf(v.z, v.f, v.x, r, v.i, v.t);
        },
        Axis::T => {
            lemma_normalize_ok(r, t_domain());
            lemma_new_wf(v.z, v.f, v.x, v.y, v.i, r);
        },
    }
}

/// Two well-formed identifiers that differ on one axis alone, on which their
/// ranges join, share no point, and the first with the joined range in place
/// of its own covers what the two cover.
pub proof fn lemma_joined(a: IdView, b: IdView, axis: Axis, p: Point)
    requires
        a.wf(),
        b.wf(),
        a.z == b.z,
        a.i == b.i,
        axis == Axis::X || a.x == b.x,
        axis == Axis::Y || a.y == b.y,
        axis == Axis::F || a.f == b.f,
        axis == Axis::T || a.t == b.t,
        a.range_on(axis).join(b.range_on(axis)) is Some,
    ensures
        a.with_range(axis, a.range_on(axis).join(b.range_on(axis))->0).wf(),
        a.with_range(axis, a.range_on(axis).join(b.range_on(axis))->0).z == a.z,
        a.with_range(axis, a.range_on(axis).join(b.range_on(axis))->0).i == a.i,
        a.with_range(axis, a.range_on(axis).join(b.range_on(axis))->0).covers(p) <==> a.covers(p)
            || b.covers(p),
        !(a.covers(p) && b.covers(p)),
{
    let j = a.range_on(axis).join(b.range_on(axis))->0;
    lemma_domain_fits(a.z);
    match axis {
        Axis::X => {
            lemma_canonical_bounds(a.x, xy_domain(a.z));
            lemma_canonical_bounds(b.x, xy_domain(a.z));
            lemma_join_contains(a.x, b.x, cell_at(p.x, a.z));
            lemma_with_range(a, axis, j);
            lemma_new_covers(a.z, a.f, j, a.y, a.i, a.t, p);
        },
        Axis::Y => {
            lemma_canonical_bounds(a.y, xy_domain(a.z));
            lemma_canonical_bounds(b.y, xy_domain(a.z));
            lemma_join_contains(a.y, b.y, cell_at(p.y, a.z));
            lemma_with_range(a, axis, j);
            lemma_new_covers(a.z, a.f, a.x, j, a.i, a.t, p);
        },
        Axis::F => {
            lemma_canonical_bounds(a.f, f_domain(a.z));
            lemma_canonical_bounds(b.f, f_domain(a.z));
            lemma_join_contains(a.f, b.f, cell_at(p.f, a.z));
            lemma_with_range(a, axis, j);
            lemma_new_covers(a.z, j, a.x, a.y, a.i, a.t, p);
        },
        Axis::T => {
            lemma_join_contains(a.t, b.t, if a.i == 0 {
                0
            } else {
                p.s / a.i
            });
            lemma_with_range(a, axis, j);
            lemma_new_covers(a.z, a.f, a.x, a.y, a.i, j, p);
        },
    }
}

/// The axis on which two identifiers that merge differ.
pub open spec fn merge_axis(a: IdView, b: IdView) -> Axis {
    if a.y == b.y && a.f == b.f && a.t == b.t {
        Axis::X
    } else if a.x == b.x && a.f == b.f && a.t == b.t {
        Axis::Y
    } else if a.x == b.x && a.y == b.y && a.t == b.t {
        Axis::F
    } else {
        Axis::T
    }
}

/// Two well-formed identifiers that merge share no point, and the merged
/// identifier is well-formed and covers what the two cover.
pub proof fn lemma_merged(a: IdView, b: IdView)
    requires
        a.wf(),
        b.wf(),
        a.merged(b) is Some,
    ensures
        a.merged(b)->0.wf(),
        a.merged(b)->0.z == a.z,
        a.merged(b)->0.i == a.i,
        forall|p: Point| #[trigger] a.merged(b)->0.covers(p) <==> a.covers(p) || b.covers(p),
        forall|p: Point| !(#[trigger] a.covers(p) && b.covers(p)),
{
    let axis = merge_axis(a, b);
    let j = a.range_on(axis).join(b.range_on(axis))->0;
    assert(a.merged(b) == Some(a.with_range(axis, j)));
    lemma_joined(a, b, axis, first_point(a));
    assert forall|p: Point|
        (#[trigger] a.merged(b)->0.covers(p) <==> a.covers(p) || b.covers(p)) && !(a.covers(p)
            && b.covers(p)) by {
        lemma_joined(a, b, axis, p);
    }
}

/// The place, from `k` on, of the first identifier of the sequence that
/// merges with `o`; the length of the sequence where none does.
pub open spec fn first_merging(s: Seq<IdView>, o: IdView, k: int) -> int
    decreases s.len() - k,
{
    if k < 0 || k >= s.len() {
        s.len() as int
    } else if s[k].merged(o) is Some {
        k
    } else {
        first_merging(s, o, k + 1)
    }
}

/// The sequence after `v` was put into it in the form in which a set stores
/// it: merged with the first identifier that it merges with, which gives way
/// to the merged one in that form, or else added at the end.
pub open spec fn put(s: Seq<IdView>, v: IdView) -> Seq<IdView> {
    let o = v.optimal();
    let m = first_merging(s, o, 0);
    if m < s.len() {
        s.update(m, s[m].merged(o)->0.optimal())
    } else {
        s.push(o)
    }
}

/// What `merge` returns, read as the model reads it.
pub open spec fn merged_view(res: Option<SpaceTimeId>) -> Option<IdView> {
    match res {
        Some(m) => Some(m@),
        None => None,
    }
}

impl SpaceTimeIdSet {
    /// The one range that holds what two ranges of a horizontal axis hold,
    /// where one ends right before the other starts.
    pub fn to_continuous_xy(target: DimensionRange<u32>, other: DimensionRange<u32>) -> (res:
        Option<DimensionRange<i64>>)
        ensures
            crate::id::range::joined_view(res) == target@.join(other@),
    {
        to_continuous_range(lift_u32(target), lift_u32(other))
    }

    /// The one range that holds what two ranges of the vertical axis hold,
    /// where one ends right before the other starts.
    pub fn to_continuous_f(target: DimensionRange<i32>, other: DimensionRange<i32>) -> (res: Option<
        DimensionRange<i64>,
    >)
        ensures
            crate::id::range::joined_view(res) == target@.join(other@),
    {
        to_continuous_range(lift_i32(target), lift_i32(other))
    }

    /// The one range that holds what two ranges of the time axis hold, where
    /// one ends right before the other starts.
    pub fn to_continuous_t(target: DimensionRange<u32>, other: DimensionRange<u32>) -> (res:
        Option<DimensionRange<i64>>)
        ensures
            crate::id::range::joined_view(res) == target@.join(other@),
    {
        to_continuous_range(lift_u32(target), lift_u32(other))
    }

    /// The identifier that covers what `a` and `b` cover, which differ on
    /// the first horizontal axis alone, where one range ends right before the other
    /// starts.
    fn merge_x(a: &SpaceTimeId, b: &SpaceTimeId) -> (res: Option<SpaceTimeId>)
        requires
            a.wf(),
            b.wf(),
            a@.z == b@.z,
            a@.i == b@.i,
            a@.y == b@.y && a@.f == b@.f && a@.t == b@.t,
        ensures
            merged_view(res) == (match a@.x.join(b@.x) {
                Some(j) => Some(a@.with_range(Axis::X, j)),
                None => None,
            }),
            res matches Some(m) ==> m.wf(),
    {
        proof {
            lemma_domain_fits(a@.z);
            lemma_canonical_bounds(a@.x, xy_domain(a@.z));
            lemma_canonical_bounds(b@.x, xy_domain(a@.z));
            lemma_canonical_bounds(a@.y, xy_domain(a@.z));
            lemma_canonical_bounds(b@.y, xy_domain(a@.z));
            lemma_canonical_bounds(a@.f, f_domain(a@.z));
            lemma_canonical_bounds(b@.f, f_domain(a@.z));
        }
        match Self::to_continuous_xy(a.x(), b.x()) {
            Some(j) => {
                proof {
                    lemma_join_contains(a@.x, b@.x, 0);
                    lemma_with_range(a@, Axis::X, j@);
                }
                match SpaceTimeId::new(a.z(), a.f(), lower_u32(j), a.y(), a.i(), a.t()) {
                    Ok(m) => Some(m),
                    Err(_) => vstd::pervasive::unreached(),
                }
            },
            None => None,
        }
    }

    /// The identifier that covers what `a` and `b` cover, which differ on
    /// the second horizontal axis alone, where one range ends right before the other
    /// starts.
    fn merge_y(a: &SpaceTimeId, b: &SpaceTimeId) -> (res: Option<SpaceTimeId>)
        requires
            a.wf(),
            b.wf(),
            a@.z == b@.z,
            a@.i == b@.i,
            a@.x == b@.x && a@.f == b@.f && a@.t == b@.t,
        ensures
            merged_view(res) == (match a@.y.join(b@.y) {
                Some(j) => Some(a@.with_range(Axis::Y, j)),
                None => None,
            }),
            res matches Some(m) ==> m.wf(),
    {
        proof {
            lemma_domain_fits(a@.z);
            lemma_canonical_bounds(a@.x, xy_domain(a@.z));
            lemma_canonical_bounds(b@.x, xy_domain(a@.z));
            lemma_canonical_bounds(a@.y, xy_domain(a@.z));
            lemma_canonical_bounds(b@.y, xy_domain(a@.z));
            lemma_canonical_bounds(a@.f, f_domain(a@.z));
            lemma_canonical_bounds(b@.f, f_domain(a@.z));
        }
        match Self::to_continuous_xy(a.y(), b.y()) {
            Some(j) => {
                proof {
                    lemma_join_contains(a@.y, b@.y, 0);
                    lemma_with_range(a@, Axis::Y, j@);
                }
                match SpaceTimeId::new(a.z(), a.f(), a.x(), lower_u32(j), a.i(), a.t()) {
                    Ok(m) => Some(m),
                    Err(_) => vstd::pervasive::unreached(),
                }
            },
            None => None,
        }
    }

    /// The identifier that covers what `a` and `b` cover, which differ on
    /// the vertical axis alone, where one range ends right before the other
    /// starts.
    fn merge_f(a: &SpaceTimeId, b: &SpaceTimeId) -> (res: Option<SpaceTimeId>)
        requires
            a.wf(),
            b.wf(),
            a@.z == b@.z,
            a@.i == b@.i,
            a@.x == b@.x && a@.y == b@.y && a@.t == b@.t,
        ensures
            merged_view(res) == (match a@.f.join(b@.f) {
                Some(j) => Some(a@.with_range(Axis::F, j)),
                None => None,
            }),
            res matches Some(m) ==> m.wf(),
    {
        proof {
            lemma_domain_fits(a@.z);
            lemma_canonical_bounds(a@.x, xy_domain(a@.z));
            lemma_canonical_bounds(b@.x, xy_domain(a@.z));
            lemma_canonical_bounds(a@.y, xy_domain(a@.z));
            lemma_canonical_bounds(b@.y, xy_domain(a@.z));
            lemma_canonical_bounds(a@.f, f_domain(a@.z));
            lemma_canonical_bounds(b@.f, f_domain(a@.z));
        }
        match Self::to_continuous_f(a.f(), b.f()) {
            Some(j) => {
                proof {
                    lemma_join_contains(a@.f, b@.f, 0);
                    lemma_with_range(a@, Axis::F, j@);
                }
                match SpaceTimeId::new(a.z(), lower_i32(j), a.x(), a.y(), a.i(), a.t()) {
                    Ok(m) => Some(m),
                    Err(_) => vstd::pervasive::unreached(),
                }
            },
            None => None,
        }
    }

    /// The identifier that covers what `a` and `b` cover, which differ on
    /// the time axis alone, where one range ends right before the other
    /// starts.
    fn merge_t(a: &SpaceTimeId, b: &SpaceTimeId) -> (res: Option<SpaceTimeId>)
        requires
            a.wf(),
            b.wf(),
            a@.z == b@.z,
            a@.i == b@.i,
            a@.x == b@.x && a@.y == b@.y && a@.f == b@.f,
        ensures
            merged_view(res) == (match a@.t.join(b@.t) {
                Some(j) => Some(a@.with_range(Axis::T, j)),
                None => None,
            }),
            res matches Some(m) ==> m.wf(),
    {
        proof {
            lemma_domain_fits(a@.z);
            lemma_canonical_bounds(a@.x, xy_domain(a@.z));
            lemma_canonical_bounds(b@.x, xy_domain(a@.z));
            lemma_canonical_bounds(a@.y, xy_domain(a@.z));
            lemma_canonical_bounds(b@.y, xy_domain(a@.z));
            lemma_canonical_bounds(a@.f, f_domain(a@.z));
            lemma_canonical_bounds(b@.f, f_domain(a@.z));
        }
        match Self::to_continuous_t(a.t(), b.t()) {
            Some(j) => {
                proof {
                    lemma_join_contains(a@.t, b@.t, 0);
                    lemma_with_range(a@, Axis::T, j@);
                }
                match SpaceTimeId::new(a.z(), a.f(), a.x(), a.y(), a.i(), lower_u32(j)) {
                    Ok(m) => Some(m),
                    Err(_) => vstd::pervasive::unreached(),
                }
            },
            None => None,
        }
    }

    /// The one identifier that covers what `a` and `b` cover, where they have
    /// the same zoom level and interval and differ on one axis alone, on which
    /// one range ends right before the other starts; `None` otherwise.
    pub fn merge(a: &SpaceTimeId, b: &SpaceTimeId) -> (res: Option<SpaceTimeId>)
        requires
            a.wf(),
            b.wf(),
        ensures
            merged_view(res) == a@.merged(b@),
            res matches Some(m) ==> m.wf(),
    {
        if a.z() != b.z() || a.i() != b.i() {
            return None;
        }
        let same_x = same_range(lift_u32(a.x()), lift_u32(b.x()));
        let same_y = same_range(lift_u32(a.y()), lift_u32(b.y()));
        let same_f = same_range(lift_i32(a.f()), lift_i32(b.f()));
        let same_t = same_range(lift_u32(a.t()), lift_u32(b.t()));
        if same_y && same_f && same_t {
            Self::merge_x(a, b)
        } else if same_x && same_f && same_t {
            Self::merge_y(a, b)
        } else if same_x && same_y && same_t {
            Self::merge_f(a, b)
        } else if same_x && same_y && same_f {
            Self::merge_t(a, b)
        } else {
            None
        }
    }

    /// Puts into `entries` an identifier that shares no point with any of
    /// them, in the form in which a set stores it. Where it merges with an
    /// entry, the first such entry gives way to the merged identifier, again
    /// in that form; else it is added at the end. Returns the place at which
    /// what `other` covers is then held.
    pub fn optimal_push(entries: &mut Vec<SpaceTimeId>, other: SpaceTimeId) -> (m: usize)
        requires
            all_wf(views(old(entries)@)),
            other.wf(),
        ensures
            views(final(entries)@) == put(views(old(entries)@), other@),
            m == first_merging(views(old(entries)@), other@.optimal(), 0),
            all_wf(views(final(entries)@)),
            m <= old(entries).len(),
            final(entries).len() == (if m == old(entries).len() {
                m + 1
            } else {
                old(entries).len() as int
            }),
            forall|k: int|
                0 <= k < old(entries).len() && k != m ==> final(entries)@[k] == old(entries)@[k],
            m == old(entries).len() ==> final(entries)@[m as int]@ == other@.optimal(),
            m < old(entries).len() ==> {
                &&& old(entries)@[m as int]@.merged(other@.optimal()) is Some
                &&& final(entries)@[m as int]@ == old(entries)@[m as int]@.merged(
                    other@.optimal(),
                )->0.optimal()
                &&& forall|k: int|
                    0 <= k < m ==> (#[trigger] old(entries)@[k])@.merged(other@.optimal()) is None
            },
            (final(entries)@[m as int]@.i == 0) == (other@.i == 0),
            m < old(entries).len() ==> (old(entries)@[m as int]@.i == 0) == (other@.i == 0),
            forall|p: Point| #[trigger]
                final(entries)@[m as int]@.covers(p) <==> (m < old(entries).len() && old(
                    entries,
                )@[m as int]@.covers(p)) || other@.covers(p),
    {
        let opt = Self::optimal_z(Self::optimal_i(other));
        let n = entries.len();
        let mut k: usize = 0;
        while k < n
            invariant
                k <= n,
                n == entries.len(),
                entries@ == old(entries)@,
                all_wf(views(entries@)),
                opt.wf(),
                opt@ == other@.optimal(),
                (opt@.i == 0) == (other@.i == 0),
                forall|p: Point| #[trigger] opt@.covers(p) <==> other@.covers(p),
                forall|j: int| 0 <= j < k ==> (#[trigger] entries@[j])@.merged(opt@) is None,
                first_merging(views(entries@), opt@, 0) == first_merging(
                    views(entries@),
                    opt@,
                    k as int,
                ),
            decreases n - k,
        {
            let cur = entries[k];
            assert(views(entries@)[k as int].wf());
            assert(views(entries@)[k as int] == cur@);
            match Self::merge(&cur, &opt) {
                Some(joined) => {
                    let best = Self::optimal_z(Self::optimal_i(joined));
                    proof {
                        lemma_merged(cur@, opt@);
                    }
                    let ghost before = views(entries@);
                    entries.set(k, best);
                    proof {
                        assert(views(entries@) =~= before.update(k as int, best@));
                        assert forall|j: int| 0 <= j < entries.len() implies (#[trigger] views(
                            entries@,
                        )[j]).wf() by {
                            if j != k {
                                assert(views(old(entries)@)[j].wf());
                            }
                        }
                    }
                    return k;
                },
                None => {},
            }
            k = k + 1;
        }
        let ghost before = views(entries@);
        entries.push(opt);
        proof {
            assert(views(entries@) =~= before.push(opt@));
            assert forall|j: int| 0 <= j < entries.len() implies (#[trigger] views(
                entries@,
            )[j]).wf() by {
                if j < n {
                    assert(views(old(entries)@)[j].wf());
                }
            }
        }
        n
    }
}

/// The identifiers of a sequence before the place `end` that reach every
/// height still do after one more identifier was put into the sequence.
pub proof fn lemma_put_tall(s: Seq<IdView>, v: IdView, end: int)
    requires
        all_wf(s),
        v.wf(),
        end <= s.len(),
    ensures
        forall|k: int|
            0 <= k < s.len() && (#[trigger] s[k]).f is Any ==> put(s, v)[k].f is Any,
        crate::set::insert::tall_before(s, end) ==> crate::set::insert::tall_before(
            put(s, v),
            end,
        ),
        crate::set::all_tall(s) && v.f is Any ==> crate::set::all_tall(put(s, v)),
{
    if v.f is Any {
        crate::set::optimal::lemma_optimal_tall(v);
    }
    let o = v.optimal();
    let m = first_merging(s, o, 0);
    crate::set::optimal::lemma_optimal(v);
    crate::set::apart::lemma_first_merging(s, o, 0);
    if m < s.len() && s[m].f is Any {
        assert(s[m].wf());
        lemma_merged(s[m], o);
        let axis = merge_axis(s[m], o);
        let j = s[m].range_on(axis).join(o.range_on(axis))->0;
        assert(axis != Axis::F);
        lemma_domain_fits(s[m].z);
        lemma_canonical_bounds(s[m].x, xy_domain(s[m].z));
        lemma_canonical_bounds(o.x, xy_domain(s[m].z));
        lemma_canonical_bounds(s[m].y, xy_domain(s[m].z));
        lemma_canonical_bounds(o.y, xy_domain(s[m].z));
        lemma_join_contains(s[m].range_on(axis), o.range_on(axis), 0);
        lemma_with_range(s[m], axis, j);
        assert(s[m].merged(o)->0.f is Any);
        crate::set::optimal::lemma_optimal_tall(s[m].merged(o)->0);
    }
    assert forall|k: int| 0 <= k < s.len() && (#[trigger] s[k]).f is Any implies put(
        s,
        v,
    )[k].f is Any by {}
    if crate::set::all_tall(s) && v.f is Any {
        assert forall|k: int| 0 <= k < put(s, v).len() implies (#[trigger] put(s, v)[k]).f is Any by {
            if k < s.len() {
                assert(s[k].f is Any);
            }
        }
    }
    if crate::set::insert::tall_before(s, end) {
        assert forall|k: int| 0 <= k < end && k < put(s, v).len() implies (#[trigger] put(
            s,
            v,
        )[k]).f is Any by {
            assert(s[k].f is Any);
        }
    }
}

} // verus!
