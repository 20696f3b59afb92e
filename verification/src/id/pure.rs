//! The single cells that an identifier is made of.

use vstd::prelude::*;
use vstd::arithmetic::power2::pow2;
use crate::id::range::{lemma_normalize_canonical, pow2_i64, Domain};
use crate::id::{
    f_domain, lemma_domain_fits, lemma_new_wf, t_domain, xy_domain, DimensionRange, IdView,
    SpaceTimeId,
};
use crate::set::views;

verus! {

impl DimensionRange<int> {
    /// The first value of the range on the axis `d`.
    pub open spec fn first_on(self, d: Domain) -> int {
        match self.lower() {
            Some(s) => s,
            None => d.min,
        }
    }

    /// The last value of the range on the axis `d`, which has a greatest
    /// value.
    pub open spec fn last_on(self, d: Domain) -> int {
        match self.upper() {
            Some(e) => e,
            None => d.max->0,
        }
    }

    /// The number of values of the range on the axis `d`, which has a
    /// greatest value.
    pub open spec fn count_on(self, d: Domain) -> int {
        self.last_on(d) - self.first_on(d) + 1
    }
}

impl IdView {
    /// The identifier of the one cell `(f, x, y)` at the zoom level, the
    /// interval and the time range of this identifier.
    pub open spec fn unit(self, f: int, x: int, y: int) -> IdView {
        IdView {
            z: self.z,
            f: DimensionRange::Single(f),
            x: DimensionRange::Single(x),
            y: DimensionRange::Single(y),
            i: self.i,
            t: self.t,
        }
    }

    /// The number of cells on the vertical axis.
    pub open spec fn count_f(self) -> int {
        self.f.count_on(f_domain(self.z))
    }

    /// The number of cells on the first horizontal axis.
    pub open spec fn count_x(self) -> int {
        self.x.count_on(xy_domain(self.z))
    }

    /// The number of cells on the second horizontal axis.
    pub open spec fn count_y(self) -> int {
        self.y.count_on(xy_domain(self.z))
    }

    /// The cell with the number `m`, counted with `f` running fastest, then
    /// `y`, then `x`.
    pub open spec fn unit_at(self, m: int) -> IdView {
        self.unit(
            self.f.first_on(f_domain(self.z)) + m % self.count_f(),
            self.x.first_on(xy_domain(self.z)) + m / (self.count_y() * self.count_f()),
            self.y.first_on(xy_domain(self.z)) + (m / self.count_f()) % self.count_y(),
        )
    }

    /// The identifiers of the single cells that the identifier is made of,
    /// each with the time range of the identifier, with `f` running fastest,
    /// then `y`, then `x`.
    pub open spec fn unit_cells(self) -> Seq<IdView> {
        Seq::new(
            (self.count_x() * self.count_y() * self.count_f()) as nat,
            |m: int| self.unit_at(m),
        )
    }
}

/// The number of the cell at the places `a`, `b` and `c` on the axes `x`, `y`
/// and `f`.
pub open spec fn cell_number(a: int, b: int, c: int, ny: int, nf: int) -> int {
    (a * ny + b) * nf + c
}

/// The first and the last value of a range on an axis with the given bounds.
fn ends(r: DimensionRange<i64>, min: i64, max: i64) -> (res: (i64, i64))
    requires
        r@.canonical(Domain { min: min as int, max: Some(max as int) }),
        min <= max,
    ensures
        res.0 == r@.first_on(Domain { min: min as int, max: Some(max as int) }),
        res.1 - res.0 + 1 == r@.count_on(Domain { min: min as int, max: Some(max as int) }),
        min <= res.0 <= res.1 <= max,
{
    match r {
        DimensionRange::Single(v) => (v, v),
        DimensionRange::LimitRange(s, e) => (s, e),
        DimensionRange::BeforeUnLimitRange(e) => (min, e),
        DimensionRange::AfterUnLimitRange(s) => (s, max),
        DimensionRange::Any => (min, max),
    }
}

impl SpaceTimeId {
    /// The identifier of the one cell `(f, x, y)` of this identifier, with
    /// its time range.
    fn unit_cell(&self, f: i64, x: i64, y: i64) -> (res: SpaceTimeId)
        requires
            self.wf(),
            f_domain(self@.z).has(f as int),
            xy_domain(self@.z).has(x as int),
            xy_domain(self@.z).has(y as int),
        ensures
            res@ == self@.unit(f as int, x as int, y as int),
            res.wf(),
    {
        proof {
            lemma_domain_fits(self@.z);
            lemma_normalize_canonical(self@.t, t_domain());
            lemma_new_wf(
                self@.z,
                DimensionRange::Single(f as int),
                DimensionRange::Single(x as int),
                DimensionRange::Single(y as int),
                self@.i,
                self@.t,
            );
        }
        match SpaceTimeId::new(
            self.z(),
            DimensionRange::Single(f as i32),
            DimensionRange::Single(x as u32),
            DimensionRange::Single(y as u32),
            self.i(),
            self.t(),
        ) {
            Ok(v) => v,
            Err(_) => vstd::pervasive::unreached(),
        }
    }

    /// The identifiers of the single cells that this identifier is made of:
    /// every cell of the grid at its zoom level that its spatial ranges hold,
    /// each with its interval and time range, in the order of `x`, then `y`,
    /// then `f`.
    pub fn pure(&self) -> (res: Vec<SpaceTimeId>)
        requires
            self.wf(),
        ensures
            views(res@) == self@.unit_cells(),
    {
        let z = self.z();
        let side = pow2_i64(z);
        proof {
            lemma_domain_fits(z as int);
        }
        let (x0, x1) = ends(crate::id::range::lift_u32(self.x()), 0, side - 1);
        let (y0, y1) = ends(crate::id::range::lift_u32(self.y()), 0, side - 1);
        let (f0, f1) = ends(crate::id::range::lift_i32(self.f()), -side, side - 1);
        let ghost nx = x1 - x0 + 1;
        let ghost ny = y1 - y0 + 1;
        let ghost nf = f1 - f0 + 1;
        let mut out: Vec<SpaceTimeId> = Vec::new();
        let mut x = x0;
        proof {
            assert(cell_number(0, 0, 0, ny, nf) == 0) by (nonlinear_arith);
        }
        while x <= x1
            invariant
                self.wf(),
                z == self@.z,
                side == pow2(z as nat),
                0 <= x0 <= x <= x1 + 1 <= side,
                0 <= y0 <= y1 < side,
                -side <= f0 <= f1 < side,
                nx == x1 - x0 + 1,
                ny == y1 - y0 + 1,
                nf == f1 - f0 + 1,
                out.len() == cell_number(x - x0, 0, 0, ny, nf),
                forall|a: int, b: int, c: int|
                    0 <= a < x - x0 && 0 <= b < ny && 0 <= c < nf ==> (#[trigger] out@[cell_number(
                        a,
                        b,
                        c,
                        ny,
                        nf,
                    )])@ == self@.unit(f0 + c, x0 + a, y0 + b),
            decreases x1 + 1 - x,
        {
            let mut y = y0;
            while y <= y1
                invariant
                    self.wf(),
                    z == self@.z,
                    side == pow2(z as nat),
                    0 <= x0 <= x <= x1 < side,
                    0 <= y0 <= y <= y1 + 1 <= side,
                    -side <= f0 <= f1 < side,
                    nx == x1 - x0 + 1,
                    ny == y1 - y0 + 1,
                    nf == f1 - f0 + 1,
                    out.len() == cell_number(x - x0, y - y0, 0, ny, nf),
                    forall|a: int, b: int, c: int|
                        0 <= b < ny && 0 <= c < nf && (0 <= a < x - x0 || (a == x - x0 && b < y
                            - y0)) ==> (#[trigger] out@[cell_number(a, b, c, ny, nf)])@
                            == self@.unit(f0 + c, x0 + a, y0 + b),
                decreases y1 + 1 - y,
            {
                let mut f = f0;
                while f <= f1
                    invariant
                        self.wf(),
                        z == self@.z,
                        side == pow2(z as nat),
                        0 <= x0 <= x <= x1 < side,
                        0 <= y0 <= y <= y1 < side,
                        -side <= f0 <= f <= f1 + 1 <= side,
                        nx == x1 - x0 + 1,
                        ny == y1 - y0 + 1,
                        nf == f1 - f0 + 1,
                        out.len() == cell_number(x - x0, y - y0, f - f0, ny, nf),
                        forall|a: int, b: int, c: int|
                            0 <= b < ny && 0 <= c < nf && (0 <= a < x - x0 || (a == x - x0 && (b
                                < y - y0 || (b == y - y0 && c < f - f0)))) ==> (
                            #[trigger] out@[cell_number(a, b, c, ny, nf)])@ == self@.unit(
                                f0 + c,
                                x0 + a,
                                y0 + b,
                            ),
                    decreases f1 + 1 - f,
                {
                    let cell = self.unit_cell(f, x, y);
                    let ghost before = out@;
                    out.push(cell);
                    proof {
                        assert forall|a: int, b: int, c: int|
                            0 <= b < ny && 0 <= c < nf && (0 <= a < x - x0 || (a == x - x0 && (b
                                < y - y0 || (b == y - y0 && c < f + 1 - f0)))) implies (
                        #[trigger] out@[cell_number(a, b, c, ny, nf)])@ == self@.unit(
                            f0 + c,
                            x0 + a,
                            y0 + b,
                        ) by {
                            lemma_cell_order(a, b, c, x - x0, y - y0, f - f0, ny, nf);
                            if !(a == x - x0 && b == y - y0 && c == f - f0) {
                                assert(out@[cell_number(a, b, c, ny, nf)] == before[cell_number(
                                    a,
                                    b,
                                    c,
                                    ny,
                                    nf,
                                )]);
                            }
                        }
                        assert(cell_number(x - x0, y - y0, f + 1 - f0, ny, nf) == cell_number(
                            x - x0,
                            y - y0,
                            f - f0,
                            ny,
                            nf,
                        ) + 1);
                    }
                    f = f + 1;
                }
                proof {
                    assert(cell_number(x - x0, y + 1 - y0, 0, ny, nf) == cell_number(
                        x - x0,
                        y - y0,
                        nf,
                        ny,
                        nf,
                    )) by (nonlinear_arith);
                }
                y = y + 1;
            }
            proof {
                assert(cell_number(x + 1 - x0, 0, 0, ny, nf) == cell_number(
                    x - x0,
                    ny,
                    0,
                    ny,
                    nf,
                )) by (nonlinear_arith);
            }
            x = x + 1;
        }
        proof {
            assert(out.len() == nx * ny * nf) by (nonlinear_arith)
                requires
                    out.len() == cell_number(nx, 0, 0, ny, nf),
            ;
            assert(nx == self@.count_x() && ny == self@.count_y() && nf == self@.count_f());
            assert forall|m: int| 0 <= m < out.len() implies views(out@)[m] == self@.unit_at(m) by {
                lemma_cell_places(m, nx, ny, nf);
                let a = m / (ny * nf);
                let b = (m / nf) % ny;
                let c = m % nf;
                assert(out@[cell_number(a, b, c, ny, nf)]@ == self@.unit(f0 + c, x0 + a, y0 + b));
            }
            assert(views(out@) =~= self@.unit_cells());
        }
        out
    }
}

/// A cell that comes before another has the lesser number.
pub proof fn lemma_cell_order(
    a: int,
    b: int,
    c: int,
    a2: int,
    b2: int,
    c2: int,
    ny: int,
    nf: int,
)
    requires
        0 <= a,
        0 <= b < ny,
        0 <= c < nf,
        0 <= b2 <= ny,
        0 <= c2 <= nf,
        a < a2 || (a == a2 && (b < b2 || (b == b2 && c <= c2))),
    ensures
        0 <= cell_number(a, b, c, ny, nf) <= cell_number(a2, b2, c2, ny, nf),
        cell_number(a, b, c, ny, nf) == cell_number(a2, b2, c2, ny, nf) ==> a == a2 && b == b2 && c
            == c2,
{
    assert(0 <= (a * ny + b) * nf + c) by (nonlinear_arith)
        requires
            0 <= a,
            0 <= b,
            0 <= c,
            0 < ny,
            0 < nf,
    ;
    if a < a2 {
        assert((a * ny + b) * nf + c < (a2 * ny + b2) * nf + c2) by (nonlinear_arith)
            requires
                a + 1 <= a2,
                0 <= b < ny,
                0 <= c < nf,
                0 <= b2,
                0 <= c2,
        ;
    } else if b < b2 {
        assert((a * ny + b) * nf + c < (a2 * ny + b2) * nf + c2) by (nonlinear_arith)
            requires
                a == a2,
                b + 1 <= b2,
                0 <= c < nf,
                0 <= c2,
        ;
    }
}

/// The places of the cell with the number `m`.
pub proof fn lemma_cell_places(m: int, nx: int, ny: int, nf: int)
    requires
        0 <= m < nx * ny * nf,
        0 < nx,
        0 < ny,
        0 < nf,
    ensures
        0 <= m / (ny * nf) < nx,
        0 <= (m / nf) % ny < ny,
        0 <= m % nf < nf,
        m == cell_number(m / (ny * nf), (m / nf) % ny, m % nf, ny, nf),
{
    let q = m / nf;
    vstd::arithmetic::div_mod::lemma_fundamental_div_mod(m, nf);
    vstd::arithmetic::div_mod::lemma_mod_bound(m, nf);
    vstd::arithmetic::div_mod::lemma_fundamental_div_mod(q, ny);
    vstd::arithmetic::div_mod::lemma_mod_bound(q, ny);
    crate::id::range::lemma_div_twice(m, nf, ny);
    assert(nf * ny == ny * nf) by (nonlinear_arith);
    crate::id::range::lemma_div_bounds(m, ny * nf, 0);
    crate::id::range::lemma_div_bounds(m, ny * nf, nx - 1);
    assert((nx - 1 + 1) * (ny * nf) == nx * ny * nf) by (nonlinear_arith);
    assert(0 * (ny * nf) == 0);
    assert(m == ((q / ny) * ny + q % ny) * nf + m % nf) by (nonlinear_arith)
        requires
            m == nf * q + m % nf,
            q == ny * (q / ny) + q % ny,
    ;
}

} // verus!
