//! What an identifier leaves out.

use vstd::prelude::*;
use vstd::arithmetic::power2::pow2;
use crate::id::cover::{cell_at, lemma_cell_in_domain, lemma_new_covers, Point};
use crate::id::range::{
    lemma_canonical_bounds, lemma_div_bounds, lemma_pieces, lemma_pieces_bounds,
    lemma_pieces_normal, lift_i32, lift_u32, lower_i32, lower_u32, pow2_i64, range_views,
    split_dimension, Bounds, Domain,
};

use crate::id::{
    f_domain, lemma_domain_fits, lemma_new_wf, model_new, t_domain, xy_domain, Axis,
    DimensionRange, IdError, IdView, SpaceTimeId,
};
use crate::set::merge::put;
use crate::set::{all_tall, all_wf, covered, disjoint, set_result_view, views, SpaceTimeIdSet};

verus! {

/// The ranges that a cell of the axis `d` can lie in, with respect to the
/// range `r`: the range itself, then the pieces of the axis that it leaves
/// out.
pub open spec fn choices(r: DimensionRange<int>, d: Domain) -> Seq<DimensionRange<int>> {
    seq![r] + r.pieces(d)
}

/// The place in `choices(r, d)` of the range in which the value `c` lies.
pub open spec fn choice_of(r: DimensionRange<int>, d: Domain, c: int) -> int {
    if r.contains(c) {
        0
    } else if r.below(d) matches Some(b) && b.contains(c) {
        1
    } else if r.below(d) is Some {
        2
    } else {
        1
    }
}

/// A value of an axis lies in exactly one of the choices: the one that
/// `choice_of` names.
pub proof fn lemma_choice(r: DimensionRange<int>, d: Domain, c: int, j: int)
    requires
        r.ordered(),
        d.has(c),
        0 <= j < 3,
    ensures
        1 <= choices(r, d).len() <= 3,
        choices(r, d)[0] == r,
        0 <= choice_of(r, d, c) < choices(r, d).len(),
        j < choices(r, d).len() ==> (choices(r, d)[j].contains(c) <==> j == choice_of(r, d, c)),
{
    lemma_pieces(r, d, c);
}

impl IdView {
    /// Each spatial range is `Any`.
    pub open spec fn full_space(self) -> bool {
        self.f is Any && self.x is Any && self.y is Any
    }

    /// The complement of the identifier is taken to be empty without a look
    /// at its ranges: with an interval and the time range `Any`, and without
    /// an interval at zoom level 0 or where each spatial range is `Any`.
    pub open spec fn complement_skipped(self) -> bool {
        (self.i != 0 && self.t is Any) || (self.i == 0 && (self.z == 0 || self.full_space()))
    }

    /// The spatial ranges of the identifier hold the cell in which the point
    /// lies.
    pub open spec fn covers_space(self, p: Point) -> bool {
        &&& p.in_space()
        &&& self.f.contains(cell_at(p.f, self.z))
        &&& self.x.contains(cell_at(p.x, self.z))
        &&& self.y.contains(cell_at(p.y, self.z))
    }

    /// The complement reaches the point: at zoom level 0, where the one cell
    /// stands for the whole of space and space is not cut, only where the
    /// identifier reaches in space.
    pub open spec fn in_reach(self, p: Point) -> bool {
        self.z >= 1 || self.covers_space(p)
    }

    /// The complement reaches every point of the grid: the identifier lies
    /// above zoom level 0, or its vertical range is `Any`.
    pub open spec fn reaches_all(self) -> bool {
        self.z >= 1 || self.f is Any
    }

    /// The identifier covers the whole grid and all time.
    pub open spec fn whole(self) -> bool {
        forall|p: Point| p.in_space() ==> #[trigger] self.covers(p)
    }

    /// The complement of the identifier covers all that the identifier
    /// leaves out: it is not taken to be empty without a look and reaches
    /// every point, or the identifier leaves nothing out.
    pub open spec fn complement_exact(self) -> bool {
        (!self.complement_skipped() && self.reaches_all()) || self.whole()
    }

    /// The ranges that a cell can lie in on a spatial axis, with respect to
    /// the range `r` of the identifier on it: at zoom level 0 the range
    /// alone.
    pub open spec fn space_choices(self, r: DimensionRange<int>, d: Domain) -> Seq<
        DimensionRange<int>,
    > {
        if self.z == 0 {
            seq![r]
        } else {
            choices(r, d)
        }
    }

    /// The place in the spatial choices of the range in which the cell `c`
    /// lies; at zoom level 0 the one place.
    pub open spec fn space_choice_of(self, r: DimensionRange<int>, d: Domain, c: int) -> int {
        if self.z == 0 {
            0
        } else {
            choice_of(r, d, c)
        }
    }

    /// The time after the identifier starts at an index above `u32::MAX`,
    /// which no identifier can name.
    pub open spec fn ends_at_last_index(self) -> bool {
        self.i != 0 && self.t.upper() == Some(u32::MAX as int)
    }

    /// The ranges that an interval can lie in, with respect to the time
    /// range: without an interval the time range alone.
    pub open spec fn time_choices(self) -> Seq<DimensionRange<int>> {
        if self.i == 0 {
            seq![self.t]
        } else {
            choices(self.t, t_domain())
        }
    }

    /// The box number `n` of the 81 into which the ranges of the identifier
    /// and the pieces they leave out cut the grid; `None` where an axis has
    /// fewer pieces. The number is read in base 3, its digits the places in
    /// the choices of `f`, `x`, `y` and the time. Box 0 is the identifier
    /// itself. At zoom level 0 space is not cut.
    pub open spec fn combination(self, n: int) -> Option<IdView> {
        let cf = self.space_choices(self.f, f_domain(self.z));
        let cx = self.space_choices(self.x, xy_domain(self.z));
        let cy = self.space_choices(self.y, xy_domain(self.z));
        let ct = self.time_choices();
        let a = n / 27;
        let b = (n / 9) % 3;
        let c = (n / 3) % 3;
        let d = n % 3;
        if a < cf.len() && b < cx.len() && c < cy.len() && d < ct.len() {
            Some(IdView { z: self.z, f: cf[a], x: cx[b], y: cy[c], i: self.i, t: ct[d] })
        } else {
            None
        }
    }

    /// The number of the box in which the point lies.
    pub open spec fn box_of(self, p: Point) -> int {
        27 * self.space_choice_of(self.f, f_domain(self.z), cell_at(p.f, self.z)) + 9
            * self.space_choice_of(self.x, xy_domain(self.z), cell_at(p.x, self.z)) + 3
            * self.space_choice_of(self.y, xy_domain(self.z), cell_at(p.y, self.z)) + (if self.i
            == 0 {
            0
        } else {
            choice_of(self.t, t_domain(), p.s / self.i)
        })
    }
}

/// The sequence that the first `n` boxes of an identifier make, box 0 left
/// out, when each is put after the other into an empty sequence, in the form
/// in which a set stores it.
pub open spec fn boxes_put(v: IdView, n: nat) -> Seq<IdView>
    decreases n,
{
    if n <= 1 {
        Seq::empty()
    } else {
        let prev = boxes_put(v, (n - 1) as nat);
        match v.combination(n - 1) {
            Some(c) => put(prev, model_new(c.z, c.f, c.x, c.y, c.i, c.t)->Ok_0),
            None => prev,
        }
    }
}

/// The complement of an identifier, or why there is none: empty where it is
/// taken to be empty without a look; else refused where the time range ends
/// at the index `u32::MAX`; else what the 80 boxes beside the identifier
/// make.
pub open spec fn model_complement(v: IdView) -> Result<Seq<IdView>, IdError> {
    if v.complement_skipped() {
        Ok(Seq::empty())
    } else if v.ends_at_last_index() {
        Err(IdError::OutOfRange(Axis::T))
    } else {
        Ok(boxes_put(v, 81))
    }
}

/// What holds of the complement `s` of an identifier `v`. Its identifiers
/// reach every height where `v` does.
///
/// Its identifiers share no point, have an interval exactly if `v` has one,
/// and cover no point that `v` covers or that lies outside the grid. It is
/// empty where the complement is taken to be empty without a look; where it
/// is not, it covers every point of the grid that `v` leaves out and that it
/// reaches.
pub open spec fn complement_of(v: IdView, s: Seq<IdView>) -> bool {
    &&& disjoint(s)
    &&& (v.complement_skipped() ==> s.len() == 0)
    &&& (forall|p: Point| #[trigger] covered(s, p) ==> p.in_space() && !v.covers(p))
    &&& (!v.complement_skipped() ==> forall|p: Point|
        p.in_space() && !v.covers(p) && v.in_reach(p) ==> #[trigger] covered(s, p))
    &&& (v.complement_exact() ==> forall|p: Point|
        p.in_space() && !v.covers(p) ==> #[trigger] covered(s, p))
    &&& (v.f is Any ==> all_tall(s))
    &&& forall|k: int| 0 <= k < s.len() ==> ((#[trigger] s[k]).i == 0) == (v.i == 0)
}

/// The boxes beside an identifier that reaches every height reach every
/// height.
pub proof fn lemma_boxes_tall(v: IdView, n: nat)
    requires
        v.wf(),
        v.f is Any,
        !v.ends_at_last_index(),
        n <= 81,
    ensures
        all_wf(boxes_put(v, n)),
        all_tall(boxes_put(v, n)),
    decreases n,
{
    if n > 1 {
        lemma_boxes_tall(v, (n - 1) as nat);
        let prev = boxes_put(v, (n - 1) as nat);
        if v.combination(n - 1) is Some {
            let c = v.combination(n - 1)->0;
            lemma_box_normal(v, n - 1);
            let made = model_new(c.z, c.f, c.x, c.y, c.i, c.t)->Ok_0;
            assert(v.f.pieces(f_domain(v.z)) =~= Seq::<DimensionRange<int>>::empty());
            assert(c.f is Any);
            assert(made.f is Any);
            crate::set::apart::lemma_put(prev, made);
            crate::set::merge::lemma_put_tall(prev, made, 0);
        }
    }
}

/// The complement of a well-formed identifier that lies above zoom level 0,
/// or whose vertical range is `Any`, reaches every point of the grid.
pub proof fn lemma_reaches_all(v: IdView, p: Point)
    requires
        v.wf(),
        v.reaches_all(),
        p.in_space(),
    ensures
        v.in_reach(p),
{
    if v.z == 0 {
        lemma_domain_fits(0);
        vstd::arithmetic::power2::lemma2_to64();
        lemma_cell_in_domain(p.x, 0);
        lemma_cell_in_domain(p.y, 0);
        lemma_canonical_bounds(v.x, xy_domain(0));
        lemma_canonical_bounds(v.y, xy_domain(0));
        assert(cell_at(p.x, 0) == 0);
        assert(cell_at(p.y, 0) == 0);
    }
}

/// A point of the grid that the complement reaches lies in exactly one of
/// the boxes, the one that `box_of` names; it lies in box 0 exactly if the
/// identifier covers it.
pub proof fn lemma_boxes(v: IdView, p: Point, n: int)
    requires
        v.wf(),
        p.in_space(),
        0 <= n < 81,
    ensures
        0 <= v.box_of(p) < 81,
        v.box_of(p) == 0 && v.in_reach(p) <==> v.covers(p),
        (v.combination(n) matches Some(c) && c.covers(p)) <==> n == v.box_of(p) && v.in_reach(p),
{
    lemma_domain_fits(v.z);
    lemma_cell_in_domain(p.f, v.z);
    lemma_cell_in_domain(p.x, v.z);
    lemma_cell_in_domain(p.y, v.z);
    lemma_canonical_bounds(v.f, f_domain(v.z));
    lemma_canonical_bounds(v.x, xy_domain(v.z));
    lemma_canonical_bounds(v.y, xy_domain(v.z));
    let a = n / 27;
    let b = (n / 9) % 3;
    let c = (n / 3) % 3;
    let d = n % 3;
    assert(n == 27 * a + 9 * b + 3 * c + d);
    lemma_choice(v.f, f_domain(v.z), cell_at(p.f, v.z), a);
    lemma_choice(v.x, xy_domain(v.z), cell_at(p.x, v.z), b);
    lemma_choice(v.y, xy_domain(v.z), cell_at(p.y, v.z), c);
    if v.i != 0 {
        lemma_div_bounds(p.s, v.i, 0);
        lemma_choice(v.t, t_domain(), p.s / v.i, d);
    }
}

/// Each box is made of ranges that have a canonical form: it can be built as
/// an identifier, unless its time range starts above `u32::MAX`.
pub proof fn lemma_box_normal(v: IdView, n: int)
    requires
        v.wf(),
        0 <= n < 81,
        v.combination(n) is Some,
        !v.ends_at_last_index(),
    ensures
        ({
            let c = v.combination(n)->0;
            &&& model_new(c.z, c.f, c.x, c.y, c.i, c.t) is Ok
            &&& c.f.bounds_within(i32::MIN as int, i32::MAX as int)
            &&& c.x.bounds_within(0, u32::MAX as int)
            &&& c.y.bounds_within(0, u32::MAX as int)
            &&& c.t.bounds_within(0, u32::MAX as int)
            &&& model_new(c.z, c.f, c.x, c.y, c.i, c.t)->Ok_0.wf()
        }),
{
    lemma_domain_fits(v.z);
    let c = v.combination(n)->0;
    lemma_canonical_bounds(v.f, f_domain(v.z));
    lemma_canonical_bounds(v.x, xy_domain(v.z));
    lemma_canonical_bounds(v.y, xy_domain(v.z));
    lemma_pieces_normal(v.f, f_domain(v.z));
    lemma_pieces_normal(v.x, xy_domain(v.z));
    lemma_pieces_normal(v.y, xy_domain(v.z));
    lemma_pieces_normal(v.t, t_domain());
    lemma_pieces_bounds(v.f, f_domain(v.z), -pow2(v.z as nat), pow2(v.z as nat) - 1);
    lemma_pieces_bounds(v.x, xy_domain(v.z), 0, pow2(v.z as nat) - 1);
    lemma_pieces_bounds(v.y, xy_domain(v.z), 0, pow2(v.z as nat) - 1);
    lemma_pieces_bounds(v.t, t_domain(), 0, u32::MAX as int);
    crate::id::range::lemma_normalize_canonical(v.f, f_domain(v.z));
    crate::id::range::lemma_normalize_canonical(v.x, xy_domain(v.z));
    crate::id::range::lemma_normalize_canonical(v.y, xy_domain(v.z));
    crate::id::range::lemma_normalize_canonical(v.t, t_domain());
    lemma_new_wf(c.z, c.f, c.x, c.y, c.i, c.t);
}

/// The ranges that a cell can lie in on a spatial axis at zoom level `z`:
/// the range itself, then, above zoom level 0, the pieces of the axis that it
/// leaves out.
fn space_choices_of(r: DimensionRange<i64>, b: Bounds, z: u8) -> (res: Vec<DimensionRange<i64>>)
    requires
        r@.bounds_within(-0x1_0000_0000, 0x1_0000_0000),
    ensures
        range_views(res@) == (if z == 0 {
            seq![r@]
        } else {
            choices(r@, b@)
        }),
{
    if z == 0 {
        let mut only: Vec<DimensionRange<i64>> = Vec::new();
        only.push(r);
        assert(range_views(only@) =~= seq![r@]);
        only
    } else {
        choices_of(r, b)
    }
}

/// The ranges that a cell of the axis can lie in: the range itself, then the
/// pieces of the axis that it leaves out.
fn choices_of(r: DimensionRange<i64>, b: Bounds) -> (res: Vec<DimensionRange<i64>>)
    requires
        r@.bounds_within(-0x1_0000_0000, 0x1_0000_0000),
    ensures
        range_views(res@) == choices(r@, b@),
{
    let pieces = split_dimension(r, b);
    let mut res: Vec<DimensionRange<i64>> = Vec::new();
    res.push(r);
    let mut k: usize = 0;
    while k < pieces.len()
        invariant
            k <= pieces.len(),
            range_views(res@) == seq![r@] + range_views(pieces@).subrange(0, k as int),
        decreases pieces.len() - k,
    {
        let ghost before = range_views(res@);
        res.push(pieces[k]);
        assert(range_views(res@) =~= before.push(pieces@[k as int]@));
        assert(range_views(pieces@).subrange(0, k + 1) =~= range_views(pieces@).subrange(
            0,
            k as int,
        ).push(pieces@[k as int]@));
        assert(seq![r@] + range_views(pieces@).subrange(0, k as int).push(pieces@[k as int]@)
            =~= (seq![r@] + range_views(pieces@).subrange(0, k as int)).push(
            pieces@[k as int]@,
        ));
        k = k + 1;
    }
    assert(range_views(pieces@).subrange(0, pieces.len() as int) =~= range_views(pieces@));
    res
}

impl SpaceTimeId {
    /// The pieces of a horizontal axis at zoom level `z` that the range
    /// leaves out.
    pub fn split_xy_dimension(dim_range: &DimensionRange<u32>, z: u8) -> (res: Vec<
        DimensionRange<i64>,
    >)
        requires
            z < 32,
        ensures
            range_views(res@) == dim_range@.pieces(xy_domain(z as int)),
    {
        let side = pow2_i64(z);
        let b = Bounds { min: 0, max: Some(side - 1) };
        assert(b@ == xy_domain(z as int));
        split_dimension(lift_u32(*dim_range), b)
    }

    /// The pieces of the vertical axis at zoom level `z` that the range leaves
    /// out.
    pub fn split_f_dimension(dim_range: &DimensionRange<i32>, z: u8) -> (res: Vec<
        DimensionRange<i64>,
    >)
        requires
            z < 32,
        ensures
            range_views(res@) == dim_range@.pieces(f_domain(z as int)),
    {
        let side = pow2_i64(z);
        let b = Bounds { min: -side, max: Some(side - 1) };
        assert(b@ == f_domain(z as int));
        split_dimension(lift_i32(*dim_range), b)
    }

    /// The pieces of the time axis that the range leaves out. The piece after
    /// a range that ends at the index `u32::MAX` starts above it.
    pub fn split_t_dimension(dim_range: &DimensionRange<u32>) -> (res: Vec<DimensionRange<i64>>)
        ensures
            range_views(res@) == dim_range@.pieces(t_domain()),
    {
        let b = Bounds { min: 0, max: None };
        assert(b@ == t_domain());
        split_dimension(lift_u32(*dim_range), b)
    }

    /// The set of identifiers that covers what this identifier leaves out of
    /// the grid.
    ///
    /// The result is empty, whatever the ranges are, for an identifier with
    /// an interval and the time range `Any`, and for one without interval at
    /// zoom level 0 or with each spatial range `Any`. Otherwise each axis is
    /// cut into the range and the pieces beside it, and every box so made but
    /// the identifier itself is put into the result. Without an interval the
    /// time is not cut. At zoom level 0, where the one cell stands for the
    /// whole of space, space is not cut: the result is the time beside the
    /// identifier, over the space of the identifier. It fails with
    /// `OutOfRange(T)` where the time range ends at `u32::MAX`, after which no
    /// index can be named.
    pub fn complement(&self) -> (res: Result<SpaceTimeIdSet, IdError>)
        requires
            self.wf(),
        ensures
            set_result_view(res) == model_complement(self@),
            res matches Ok(s) ==> s.wf() && complement_of(self@, s@),
    {
        let z = self.z();
        let i = self.i();
        let any_space = matches!(self.f(), DimensionRange::Any) && matches!(
            self.x(),
            DimensionRange::Any
        ) && matches!(self.y(), DimensionRange::Any);
        let any_time = matches!(self.t(), DimensionRange::Any);
        if (i != 0 && any_time) || (i == 0 && (z == 0 || any_space)) {
            let empty = SpaceTimeIdSet::new();
            assert(disjoint(empty@));
            assert(all_tall(empty@));
            return Ok(empty);
        }
        let last = match self.t() {
            DimensionRange::LimitRange(_, e) => Some(e),
            DimensionRange::BeforeUnLimitRange(e) => Some(e),
            DimensionRange::Single(v) => Some(v),
            DimensionRange::AfterUnLimitRange(_) => None,
            DimensionRange::Any => None,
        };
        if i != 0 {
            match last {
                Some(e) => {
                    if e == u32::MAX {
                        return Err(IdError::OutOfRange(Axis::T));
                    }
                },
                None => {},
            }
        }
        proof {
            lemma_domain_fits(z as int);
            lemma_canonical_bounds(self@.f, f_domain(z as int));
            lemma_canonical_bounds(self@.x, xy_domain(z as int));
            lemma_canonical_bounds(self@.y, xy_domain(z as int));
        }
        let side = pow2_i64(z);
        let fb = Bounds { min: -side, max: Some(side - 1) };
        let xb = Bounds { min: 0, max: Some(side - 1) };
        let tb = Bounds { min: 0, max: None };
        proof {
            assert(fb@ == f_domain(z as int));
            assert(xb@ == xy_domain(z as int));
            assert(tb@ == t_domain());
        }
        let cf = space_choices_of(lift_i32(self.f()), fb, z);
        let cx = space_choices_of(lift_u32(self.x()), xb, z);
        let cy = space_choices_of(lift_u32(self.y()), xb, z);
        let ct = if i == 0 {
            let mut only: Vec<DimensionRange<i64>> = Vec::new();
            only.push(lift_u32(self.t()));
            assert(range_views(only@) =~= seq![self@.t]);
            only
        } else {
            choices_of(lift_u32(self.t()), tb)
        };
        proof {
            assert(range_views(ct@) == self@.time_choices());
        }
        let mut out: Vec<SpaceTimeId> = Vec::new();
        let mut n: usize = 1;
        proof {
            assert(views(out@) =~= boxes_put(self@, 1));
            assert forall|p: Point| #[trigger]
                covered(views(out@), p) <==> p.in_space() && self@.in_reach(p) && 1 <= self@.box_of(p)
                        < n by {}
            assert(disjoint(views(out@)));
        }
        while n < 81
            invariant
                1 <= n <= 81,
                self.wf(),
                z == self@.z,
                i == self@.i,
                !self@.ends_at_last_index(),
                range_views(cf@) == self@.space_choices(self@.f, f_domain(self@.z)),
                range_views(cx@) == self@.space_choices(self@.x, xy_domain(self@.z)),
                range_views(cy@) == self@.space_choices(self@.y, xy_domain(self@.z)),
                range_views(ct@) == self@.time_choices(),
                all_wf(views(out@)),
                disjoint(views(out@)),
                views(out@) == boxes_put(self@, n as nat),
                forall|k: int|
                    0 <= k < out.len() ==> ((#[trigger] views(out@)[k]).i == 0) == (self@.i == 0),
                forall|p: Point| #[trigger]
                    covered(views(out@), p) <==> p.in_space() && self@.in_reach(p) && 1 <= self@.box_of(p)
                        < n,
            decreases 81 - n,
        {
            let a = n / 27;
            let b = (n / 9) % 3;
            let c = (n / 3) % 3;
            let d = n % 3;
            let ghost before = views(out@);
            if a < cf.len() && b < cx.len() && c < cy.len() && d < ct.len() {
                proof {
                    assert(range_views(cf@).len() == cf.len());
                    assert(range_views(cx@).len() == cx.len());
                    assert(range_views(cy@).len() == cy.len());
                    assert(range_views(ct@).len() == ct.len());
                    assert(range_views(cf@)[a as int] == cf@[a as int]@);
                    assert(range_views(cx@)[b as int] == cx@[b as int]@);
                    assert(range_views(cy@)[c as int] == cy@[c as int]@);
                    assert(range_views(ct@)[d as int] == ct@[d as int]@);
                    lemma_box_normal(self@, n as int);
                }
                let made = SpaceTimeId::new(
                    z,
                    lower_i32(cf[a]),
                    lower_u32(cx[b]),
                    lower_u32(cy[c]),
                    i,
                    lower_u32(ct[d]),
                );
                match made {
                    Ok(id) => {
                        let m = SpaceTimeIdSet::optimal_push(&mut out, id);
                        proof {
                            let after = views(out@);
                            let boxed = self@.combination(n as int)->0;
                            assert forall|p: Point| #[trigger]
                                id@.covers(p) <==> p.in_space() && self@.in_reach(p) && self@.box_of(p) == n by {
                                lemma_new_covers(
                                    boxed.z,
                                    boxed.f,
                                    boxed.x,
                                    boxed.y,
                                    boxed.i,
                                    boxed.t,
                                    p,
                                );
                                if p.in_space() {
                                    lemma_boxes(self@, p, n as int);
                                }
                            }
                            lemma_pushed(before, after, id@, m as int);
                            assert forall|k: int| 0 <= k < out.len() implies ((#[trigger] views(
                                out@,
                            )[k]).i == 0) == (self@.i == 0) by {
                                if k != m {
                                    assert(after[k] == before[k]);
                                }
                            }
                        }
                    },
                    Err(_) => vstd::pervasive::unreached(),
                }
            } else {
                proof {
                    assert(range_views(cf@).len() == cf.len());
                    assert(range_views(cx@).len() == cx.len());
                    assert(range_views(cy@).len() == cy.len());
                    assert(range_views(ct@).len() == ct.len());
                    assert(self@.combination(n as int) is None);
                    assert forall|p: Point| p.in_space() && self@.in_reach(p) implies self@.box_of(p)
                        != n by {
                        lemma_boxes(self@, p, n as int);
                    }
                }
            }
            n = n + 1;
        }
        proof {
            if self@.f is Any {
                lemma_boxes_tall(self@, 81);
            }
            assert forall|p: Point| #[trigger]
                covered(views(out@), p) <==> p.in_space() && !self@.covers(p) && self@.in_reach(
                    p,
                ) by {
                if p.in_space() {
                    lemma_boxes(self@, p, 0);
                }
            }
            if self@.reaches_all() {
                assert forall|p: Point| p.in_space() && !self@.covers(p) implies #[trigger] covered(
                    views(out@),
                    p,
                ) by {
                    lemma_reaches_all(self@, p);
                }
            }
        }
        Ok(SpaceTimeIdSet::from_entries(out))
    }
}

/// What a sequence of identifiers covers, and that its identifiers share no
/// point, after an identifier that shares no point with them took the place
/// `m`: alone, or together with what was there.
pub proof fn lemma_pushed(before: Seq<IdView>, after: Seq<IdView>, id: IdView, m: int)
    requires
        0 <= m <= before.len(),
        after.len() == (if m == before.len() {
            m + 1
        } else {
            before.len() as int
        }),
        forall|k: int| 0 <= k < before.len() && k != m ==> after[k] == before[k],
        forall|p: Point| #[trigger]
            after[m].covers(p) <==> (m < before.len() && before[m].covers(p)) || id.covers(p),
    ensures
        forall|p: Point| #[trigger] covered(after, p) <==> covered(before, p) || id.covers(p),
        disjoint(before) && (forall|p: Point| !(#[trigger] id.covers(p) && covered(before, p)))
            ==> disjoint(after),
{
    assert forall|p: Point| #[trigger] covered(after, p) <==> covered(before, p) || id.covers(
        p,
    ) by {
        if covered(after, p) {
            let k = choose|k: int| 0 <= k < after.len() && (#[trigger] after[k]).covers(p);
            if k != m {
                assert(before[k].covers(p));
            }
        }
        if covered(before, p) {
            let k = choose|k: int| 0 <= k < before.len() && (#[trigger] before[k]).covers(p);
            if k != m {
                assert(after[k].covers(p));
            } else {
                assert(after[m].covers(p));
            }
        }
        if id.covers(p) {
            assert(after[m].covers(p));
        }
    }
    if disjoint(before) && (forall|p: Point| !(#[trigger] id.covers(p) && covered(before, p))) {
        assert forall|j: int, k: int, p: Point| 0 <= j < k < after.len() implies !(
        #[trigger] after[j].covers(p) && #[trigger] after[k].covers(p)) by {
            if after[j].covers(p) && after[k].covers(p) {
                if j != m && k != m {
                    assert(before[j].covers(p) && before[k].covers(p));
                } else if j == m {
                    assert(before[k].covers(p));
                    assert(covered(before, p));
                    assert(before[j].covers(p));
                } else {
                    assert(before[j].covers(p));
                    assert(covered(before, p));
                    assert(m < before.len());
                    assert(before[k].covers(p));
                }
            }
        }
    }
}

} // verus!
