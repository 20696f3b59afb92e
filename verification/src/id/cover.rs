//! What an identifier covers: the cells of the finest grid, and the seconds.

use vstd::prelude::*;
use vstd::arithmetic::power2::{lemma_pow2_adds, lemma_pow2_pos, pow2};
use crate::id::range::{lemma_div_bounds, lemma_div_twice, lemma_normalize_keeps_values};
use crate::id::{
    f_domain, lemma_domain_fits, model_new, t_domain, xy_domain, DimensionRange, IdView,
};

verus! {

/// A cell of the grid at zoom level 31, the finest, and a second.
pub struct Point {
    pub f: int,
    pub x: int,
    pub y: int,
    pub s: int,
}

impl Point {
    /// The point lies in the grid: `x` and `y` from `0` to `2^31 - 1`, `f`
    /// from `-2^31` to `2^31 - 1`, and the second is not negative.
    pub open spec fn in_space(self) -> bool {
        &&& 0 <= self.x < pow2(31)
        &&& 0 <= self.y < pow2(31)
        &&& -pow2(31) <= self.f < pow2(31)
        &&& 0 <= self.s
    }
}

/// The cell at zoom level `z` in which the coordinate `c` of the finest grid
/// lies.
pub open spec fn cell_at(c: int, z: int) -> int {
    c / (pow2((31 - z) as nat) as int)
}

impl IdView {
    /// The identifier covers the point: on each spatial axis its range holds
    /// the cell of its zoom level in which the point lies, and its time range
    /// holds the interval in which the second lies; with the interval 0 it
    /// covers every second.
    pub open spec fn covers(self, p: Point) -> bool {
        &&& p.in_space()
        &&& self.f.contains(cell_at(p.f, self.z))
        &&& self.x.contains(cell_at(p.x, self.z))
        &&& self.y.contains(cell_at(p.y, self.z))
        &&& (self.i == 0 || self.t.contains(p.s / self.i))
    }

    /// The identifier has no time interval: it covers all time.
    pub open spec fn spatial(self) -> bool {
        self.i == 0
    }

    /// The identifier has a time interval and does not cover all time.
    pub open spec fn timed(self) -> bool {
        self.i != 0 && !(self.t is Any)
    }
}

/// The cell in which a coordinate of the grid lies is a cell of its zoom
/// level.
pub proof fn lemma_cell_in_domain(c: int, z: int)
    requires
        0 <= z < 32,
        -pow2(31) <= c < pow2(31),
    ensures
        f_domain(z).has(cell_at(c, z)),
        0 <= c ==> xy_domain(z).has(cell_at(c, z)),
{
    let k = pow2((31 - z) as nat) as int;
    lemma_pow2_pos((31 - z) as nat);
    lemma_pow2_adds(z as nat, (31 - z) as nat);
    assert(pow2(31) == pow2(z as nat) * pow2((31 - z) as nat));
    let n = pow2(z as nat) as int;
    lemma_div_bounds(c, k, -n);
    lemma_div_bounds(c, k, n - 1);
    lemma_div_bounds(c, k, 0);
    assert((n - 1 + 1) * k == n * k);
    assert((-n) * k == -(n * k)) by (nonlinear_arith);
    assert(0 * k == 0);
}

/// The cell of a coarser level in which a coordinate lies is the one that
/// holds its cell of a finer level.
pub proof fn lemma_cell_coarser(c: int, z: int, z2: int)
    requires
        0 <= z <= z2 < 32,
    ensures
        pow2((z2 - z) as nat) > 0,
        cell_at(c, z) == cell_at(c, z2) / (pow2((z2 - z) as nat) as int),
{
    lemma_pow2_pos((31 - z2) as nat);
    lemma_pow2_pos((z2 - z) as nat);
    lemma_pow2_adds((31 - z2) as nat, (z2 - z) as nat);
    lemma_div_twice(c, pow2((31 - z2) as nat) as int, pow2((z2 - z) as nat) as int);
}

/// An identifier covers what the ranges it was made from cover at its zoom
/// level and interval.
pub proof fn lemma_new_covers(
    z: int,
    f: DimensionRange<int>,
    x: DimensionRange<int>,
    y: DimensionRange<int>,
    i: int,
    t: DimensionRange<int>,
    p: Point,
)
    requires
        0 <= z,
        0 <= i,
        model_new(z, f, x, y, i, t) is Ok,
    ensures
        model_new(z, f, x, y, i, t)->Ok_0.covers(p) <==> (IdView { z, f, x, y, i, t }).covers(p),
{
    if p.in_space() {
        lemma_cell_in_domain(p.f, z);
        lemma_cell_in_domain(p.x, z);
        lemma_cell_in_domain(p.y, z);
        lemma_normalize_keeps_values(x, xy_domain(z));
        lemma_normalize_keeps_values(y, xy_domain(z));
        lemma_normalize_keeps_values(f, f_domain(z));
        lemma_normalize_keeps_values(t, t_domain());
        if i > 0 {
            lemma_div_bounds(p.s, i, 0);
            assert(t_domain().has(p.s / i));
        }
    }
}

/// A value that a canonical range of an axis holds: its first one.
pub open spec fn sample(r: DimensionRange<int>, d: crate::id::range::Domain) -> int {
    match r.lower() {
        Some(s) => s,
        None => d.min,
    }
}

/// A canonical range holds its sample, which is a value of the axis.
pub proof fn lemma_sample(r: DimensionRange<int>, d: crate::id::range::Domain)
    requires
        r.canonical(d),
        d.inhabited(),
    ensures
        r.contains(sample(r, d)),
        d.has(sample(r, d)),
{
}

/// The point at the first cell of each range of an identifier.
pub open spec fn first_point(v: IdView) -> Point {
    let k = pow2((31 - v.z) as nat) as int;
    Point {
        f: sample(v.f, f_domain(v.z)) * k,
        x: sample(v.x, xy_domain(v.z)) * k,
        y: sample(v.y, xy_domain(v.z)) * k,
        s: sample(v.t, t_domain()) * v.i,
    }
}

/// A well-formed identifier covers a point: no identifier is empty.
pub proof fn lemma_inhabited(v: IdView)
    requires
        v.wf(),
    ensures
        v.covers(first_point(v)),
{
    let k = pow2((31 - v.z) as nat) as int;
    let n = pow2(v.z as nat) as int;
    lemma_pow2_pos((31 - v.z) as nat);
    lemma_pow2_adds(v.z as nat, (31 - v.z) as nat);
    lemma_domain_fits(v.z);
    lemma_sample(v.f, f_domain(v.z));
    lemma_sample(v.x, xy_domain(v.z));
    lemma_sample(v.y, xy_domain(v.z));
    lemma_sample(v.t, t_domain());
    let cf = sample(v.f, f_domain(v.z));
    let cx = sample(v.x, xy_domain(v.z));
    let cy = sample(v.y, xy_domain(v.z));
    let ct = sample(v.t, t_domain());
    assert(pow2(31) == n * k);
    assert forall|c: int| -n <= c < n implies -(n * k) <= #[trigger] (c * k) < n * k && (c * k)
        / k == c && (c >= 0 ==> c * k >= 0) by {
        assert(-(n * k) <= c * k && c * k + k <= n * k && (c >= 0 ==> c * k >= 0))
            by (nonlinear_arith)
            requires
                -n <= c < n,
                k > 0,
        ;
        lemma_div_bounds(c * k, k, c);
        lemma_div_bounds(c * k, k, c - 1);
        lemma_div_bounds(c * k, k, c + 1);
        assert((c + 1) * k == c * k + k) by (nonlinear_arith);
        assert((c - 1 + 1) * k == c * k);
    }
    assert(cf * k / k == cf);
    assert(cx * k / k == cx);
    assert(cy * k / k == cy);
    if v.i > 0 {
        lemma_div_bounds(ct * v.i, v.i, ct);
        lemma_div_bounds(ct * v.i, v.i, ct - 1);
        assert((ct + 1) * v.i == ct * v.i + v.i) by (nonlinear_arith);
        assert((ct - 1 + 1) * v.i == ct * v.i);
        assert(ct * v.i >= 0) by (nonlinear_arith)
            requires
                ct >= 0,
                v.i > 0,
        ;
    } else {
        assert(ct * v.i == 0) by (nonlinear_arith)
            requires
                v.i == 0,
        ;
    }
}

} // verus!
