//! The coarsest zoom level and the longest interval at which an identifier
//! covers what it covers.

use vstd::prelude::*;

use vstd::arithmetic::power2::{lemma_pow2_adds, lemma_pow2_pos, lemma_pow2_unfold, pow2};
use crate::id::cover::{cell_at, lemma_cell_coarser, lemma_new_covers, Point};
use crate::id::range::{
    aligned_to, lemma_canonical_bounds, lemma_div_bounds, lemma_narrow_bounds,
    lemma_narrow_contains, lemma_normalize_canonical, lemma_normalize_keeps_values,
    lemma_normalize_ok, lift_i32, lift_u32, lower_i32, lower_u32, narrow_to, pow2_i64,
};
use crate::id::scale::{divides, gcd_of, lemma_gcd_is_greatest};
use crate::id::{
    f_domain, lemma_domain_fits, lemma_new_idempotent, lemma_new_wf, model_new, t_domain,
    xy_domain, DimensionRange, IdView, SpaceTimeId,
};

verus! {

impl IdView {
    /// Each spatial range is made of whole blocks of `k` cells.
    pub open spec fn blocks(self, k: int) -> bool {
        self.f.aligned(k) && self.x.aligned(k) && self.y.aligned(k)
    }

    /// The identifier `e` zoom levels up: each spatial range as the range of
    /// the blocks of `2^e` cells that it is made of.
    pub open spec fn coarsened(self, e: int) -> IdView {
        let k = pow2(e as nat) as int;
        model_new(
            self.z - e,
            self.f.narrow(k),
            self.x.narrow(k),
            self.y.narrow(k),
            self.i,
            self.t,
        )->Ok_0
    }

    /// The number of zoom levels, from `e` on, that the identifier can go up
    /// while each spatial range is still made of whole cells.
    pub open spec fn level_drop(self, e: nat) -> nat
        decreases self.z - e,
    {
        if e < self.z && self.blocks(pow2(e + 1) as int) {
            self.level_drop(e + 1)
        } else {
            e
        }
    }

    /// The identifier at the coarsest zoom level at which each spatial range
    /// is still made of whole cells.
    pub open spec fn coarsest(self) -> IdView {
        self.coarsened(self.level_drop(0) as int)
    }

    /// The identifier as a set stores it: with the longest interval, and then
    /// at the coarsest zoom level, at which it covers what it covers.
    pub open spec fn optimal(self) -> IdView {
        self.with_longest_interval().coarsest()
    }

    /// The first time index of the identifier and the one after its last,
    /// where its time range has a last index.
    pub open spec fn time_span(self) -> Option<(int, int)> {
        match self.t {
            DimensionRange::LimitRange(s, e) => Some((s, e + 1)),
            DimensionRange::BeforeUnLimitRange(e) => Some((0, e + 1)),
            DimensionRange::Single(v) => Some((v, v + 1)),
            DimensionRange::AfterUnLimitRange(_) => None,
            DimensionRange::Any => None,
        }
    }

    /// The longest interval of which the time that the identifier covers is
    /// made up: the greatest common divisor of the second at which it starts
    /// and the second at which it ends. `None` where the time range has no
    /// last index, or where that interval does not fit in 32 bits.
    pub open spec fn longest_interval(self) -> Option<int> {
        match self.time_span() {
            None => None,
            Some((s, e)) => {
                let g = gcd_of((self.i * s) as nat, (self.i * e) as nat) as int;
                if g > u32::MAX {
                    None
                } else {
                    Some(g)
                }
            },
        }
    }

    /// The identifier with the longest interval that its time range allows,
    /// and the time range in intervals of that length.
    pub open spec fn with_longest_interval(self) -> IdView {
        match self.longest_interval() {
            None => self,
            Some(g) => if g == self.i {
                self
            } else {
                let (s, e) = self.time_span()->0;
                IdView {
                    i: g,
                    t: DimensionRange::LimitRange(self.i * s / g, self.i * e / g - 1).normalize(
                        t_domain(),
                    )->Ok_0,
                    ..self
                }
            },
        }
    }
}

/// An identifier made of whole blocks of `2^e` cells is, `e` zoom levels up,
/// well-formed and covers what it covered.
pub proof fn lemma_coarsened(v: IdView, e: int)
    requires
        v.wf(),
        0 <= e <= v.z,
        v.blocks(pow2(e as nat) as int),
    ensures
        v.coarsened(e).wf(),
        v.coarsened(e).z == v.z - e,
        v.coarsened(e).i == v.i,
        v.coarsened(e).t == v.t,
        model_new(
            v.z - e,
            v.f.narrow(pow2(e as nat) as int),
            v.x.narrow(pow2(e as nat) as int),
            v.y.narrow(pow2(e as nat) as int),
            v.i,
            v.t,
        ) is Ok,
        forall|p: Point| #[trigger] v.coarsened(e).covers(p) <==> v.covers(p),
{
    let k = pow2(e as nat) as int;
    let z2 = v.z - e;
    let n = pow2(z2 as nat) as int;
    lemma_pow2_pos(e as nat);
    lemma_pow2_adds(z2 as nat, e as nat);
    lemma_domain_fits(v.z);
    lemma_domain_fits(z2);
    assert(pow2(v.z as nat) == n * k);
    assert((-n) * k == -(n * k)) by (nonlinear_arith);
    assert(0 * k == 0);
    lemma_canonical_bounds(v.f, f_domain(v.z));
    lemma_canonical_bounds(v.x, xy_domain(v.z));
    lemma_canonical_bounds(v.y, xy_domain(v.z));
    lemma_narrow_bounds(v.f, k, -n, n);
    lemma_narrow_bounds(v.x, k, 0, n);
    lemma_narrow_bounds(v.y, k, 0, n);
    lemma_normalize_ok(v.f.narrow(k), f_domain(z2));
    lemma_normalize_ok(v.x.narrow(k), xy_domain(z2));
    lemma_normalize_ok(v.y.narrow(k), xy_domain(z2));
    lemma_normalize_canonical(v.t, t_domain());
    lemma_new_wf(z2, v.f.narrow(k), v.x.narrow(k), v.y.narrow(k), v.i, v.t);
    assert forall|p: Point| #[trigger] v.coarsened(e).covers(p) <==> v.covers(p) by {
        lemma_new_covers(z2, v.f.narrow(k), v.x.narrow(k), v.y.narrow(k), v.i, v.t, p);
        lemma_cell_coarser(p.f, z2, v.z);
        lemma_cell_coarser(p.x, z2, v.z);
        lemma_cell_coarser(p.y, z2, v.z);
        lemma_narrow_contains(v.f, k, cell_at(p.f, v.z));
        lemma_narrow_contains(v.x, k, cell_at(p.x, v.z));
        lemma_narrow_contains(v.y, k, cell_at(p.y, v.z));
    }
}

/// An identifier with the longest interval that its time range allows is
/// well-formed and covers what it covered.
pub proof fn lemma_longest_interval(v: IdView)
    requires
        v.wf(),
    ensures
        v.with_longest_interval().wf(),
        v.with_longest_interval().z == v.z,
        v.with_longest_interval().f == v.f,
        v.with_longest_interval().x == v.x,
        v.with_longest_interval().y == v.y,
        v.i == 0 <==> v.with_longest_interval().i == 0,
        v.longest_interval() matches Some(g) ==> g >= v.i && g >= 1 && ({
            let (s, e) = v.time_span()->0;
            &&& (v.i * s) % g == 0
            &&& (v.i * e) % g == 0
            &&& 0 <= v.i * s / g < v.i * e / g <= e
        }),
        forall|p: Point| #[trigger] v.with_longest_interval().covers(p) <==> v.covers(p),
{
    if v.longest_interval() is Some {
        let g = v.longest_interval()->0;
        let (s, e) = v.time_span()->0;
        let start = v.i * s;
        let end = v.i * e;
        assert(v.i >= 1);
        assert(0 <= s < e);
        assert(0 <= start < end && start == s * v.i && end == e * v.i) by (nonlinear_arith)
            requires
                0 <= s < e,
                v.i >= 1,
                start == v.i * s,
                end == v.i * e,
        ;
        lemma_gcd_is_greatest(start as nat, end as nat);
        assert(divides(v.i as nat, start as nat)) by {
            assert(start as nat == (s as nat) * (v.i as nat));
        }
        assert(divides(v.i as nat, end as nat)) by {
            assert(end as nat == (e as nat) * (v.i as nat));
        }
        assert(divides(v.i as nat, g as nat));
        let m = choose|q: nat| g as nat == #[trigger] (q * (v.i as nat));
        let a = choose|q: nat| start as nat == #[trigger] (q * (g as nat));
        let b = choose|q: nat| end as nat == #[trigger] (q * (g as nat));
        assert(g >= 1 && m >= 1 && g >= v.i) by (nonlinear_arith)
            requires
                end == b * g,
                end > 0,
                g == m * v.i,
                g >= 0,
                v.i >= 1,
                b >= 0,
                m >= 0,
        ;
        assert(a < b && b <= e) by (nonlinear_arith)
            requires
                start == a * g,
                end == b * g,
                start < end,
                g >= 1,
                end == e * v.i,
                g >= v.i,
                v.i >= 1,
                e >= 0,
                b >= 0,
        ;
        vstd::arithmetic::div_mod::lemma_fundamental_div_mod_converse(start, g, a as int, 0);
        vstd::arithmetic::div_mod::lemma_fundamental_div_mod_converse(end, g, b as int, 0);
        if g != v.i {
            let t2 = DimensionRange::LimitRange(start / g, end / g - 1);
            lemma_normalize_ok(t2, t_domain());
            lemma_normalize_keeps_values(t2, t_domain());
            let w = v.with_longest_interval();
            assert(w.t.bounds_within(0, u32::MAX as int));
            assert forall|p: Point| #[trigger] w.covers(p) <==> v.covers(p) by {
                if p.in_space() {
                    lemma_div_bounds(p.s, g, 0);
                    lemma_div_bounds(p.s, g, a as int);
                    lemma_div_bounds(p.s, g, b - 1);
                    lemma_div_bounds(p.s, v.i, 0);
                    lemma_div_bounds(p.s, v.i, s);
                    lemma_div_bounds(p.s, v.i, e - 1);
                    assert(t_domain().has(p.s / g));
                    assert((b - 1 + 1) * g == end);
                    assert((e - 1 + 1) * v.i == end);
                }
            }
        }
    }
}

/// The number of zoom levels that an identifier can go up leaves it made of
/// whole blocks.
pub proof fn lemma_level_drop(v: IdView, e: nat)
    requires
        e <= v.z,
        v.blocks(pow2(e) as int),
    ensures
        e <= v.level_drop(e) <= v.z,
        v.blocks(pow2(v.level_drop(e)) as int),
    decreases v.z - e,
{
    if e < v.z && v.blocks(pow2(e + 1) as int) {
        lemma_level_drop(v, e + 1);
    }
}

/// An identifier in the form in which a set stores it is well-formed, covers
/// what it covered, and has an interval exactly if it had one.
pub proof fn lemma_optimal(v: IdView)
    requires
        v.wf(),
    ensures
        v.optimal().wf(),
        v.optimal().i == 0 <==> v.i == 0,
        v.optimal().i == v.with_longest_interval().i,
        v.optimal().t == v.with_longest_interval().t,
        forall|p: Point| #[trigger] v.optimal().covers(p) <==> v.covers(p),
{
    lemma_longest_interval(v);
    let w = v.with_longest_interval();
    vstd::arithmetic::power2::lemma2_to64();
    assert(w.blocks(1)) by {
        lemma_single_block(w.f);
        lemma_single_block(w.x);
        lemma_single_block(w.y);
    }
    lemma_level_drop(w, 0);
    lemma_coarsened(w, w.level_drop(0) as int);
}

/// An identifier that does not cover all time does not in the form in which
/// a set stores it.
pub proof fn lemma_optimal_timed(v: IdView)
    requires
        v.wf(),
    ensures
        v.timed() ==> v.optimal().timed(),
{
    lemma_optimal(v);
    lemma_longest_interval(v);
    if v.timed() && v.longest_interval() is Some && v.longest_interval()->0 != v.i {
        let g = v.longest_interval()->0;
        let (s, e) = v.time_span()->0;
        let t2 = DimensionRange::LimitRange(v.i * s / g, v.i * e / g - 1);
        lemma_normalize_ok(t2, t_domain());
    }
}

/// An identifier whose vertical range is `Any` has it still in the form in
/// which a set stores it.
pub proof fn lemma_optimal_tall(v: IdView)
    requires
        v.wf(),
        v.f is Any,
    ensures
        v.optimal().f is Any,
{
    lemma_longest_interval(v);
    let w = v.with_longest_interval();
    vstd::arithmetic::power2::lemma2_to64();
    lemma_single_block(w.f);
    lemma_single_block(w.x);
    lemma_single_block(w.y);
    lemma_level_drop(w, 0);
    lemma_coarsened(w, w.level_drop(0) as int);
}

/// Every range is made of whole blocks of one cell.
pub proof fn lemma_single_block(r: DimensionRange<int>)
    ensures
        r.aligned(1),
{
}

/// The greatest common divisor of `a` and `b`.
pub fn gcd_u64(a: u64, b: u64) -> (r: u64)
    ensures
        r == gcd_of(a as nat, b as nat),
{
    let mut m = a;
    let mut n = b;
    while n != 0
        invariant
            gcd_of(m as nat, n as nat) == gcd_of(a as nat, b as nat),
        decreases n,
    {
        let rest = m % n;
        m = n;
        n = rest;
    }
    m
}

impl crate::set::SpaceTimeIdSet {
    /// The identifier with the longest interval of which the time it covers
    /// is made up, where its time range has a last index and that interval
    /// fits in 32 bits; else the identifier as it is.
    pub fn optimal_i(other: SpaceTimeId) -> (res: SpaceTimeId)
        requires
            other.wf(),
        ensures
            res@ == other@.with_longest_interval(),
            res.wf(),
            (res@.i == 0) == (other@.i == 0),
            forall|p: Point| #[trigger] res@.covers(p) <==> other@.covers(p),
    {
        proof {
            lemma_longest_interval(other@);
        }
        let (s, e) = match other.t() {
            DimensionRange::LimitRange(s, e) => (s as u64, e as u64 + 1),
            DimensionRange::BeforeUnLimitRange(e) => (0u64, e as u64 + 1),
            DimensionRange::Single(v) => (v as u64, v as u64 + 1),
            DimensionRange::AfterUnLimitRange(_) => {
                return other;
            },
            DimensionRange::Any => {
                return other;
            },
        };
        let i = other.i() as u64;
        assert(i * s <= 0xffff_ffff * 0x1_0000_0000 && i * e <= 0xffff_ffff * 0x1_0000_0000)
            by (nonlinear_arith)
            requires
                0 <= i <= 0xffff_ffff,
                0 <= s <= e <= 0x1_0000_0000,
        ;
        let start = i * s;
        let end = i * e;
        let g = gcd_u64(start, end);
        if g == i || g > 0xffff_ffff {
            return other;
        }
        let first = start / g;
        let last = end / g - 1;
        proof {
            let v = other@;
            let t2 = DimensionRange::LimitRange(first as int, last as int);
            lemma_normalize_ok(t2, t_domain());
            lemma_domain_fits(v.z);
            lemma_normalize_canonical(v.f, f_domain(v.z));
            lemma_normalize_canonical(v.x, xy_domain(v.z));
            lemma_normalize_canonical(v.y, xy_domain(v.z));
        }
        match SpaceTimeId::new(
            other.z(),
            other.f(),
            other.x(),
            other.y(),
            g as u32,
            DimensionRange::LimitRange(first as u32, last as u32),
        ) {
            Ok(v) => v,
            Err(_) => vstd::pervasive::unreached(),
        }
    }

    /// The identifier at the coarsest zoom level at which each of its spatial
    /// ranges is still made of whole cells.
    pub fn optimal_z(other: SpaceTimeId) -> (res: SpaceTimeId)
        requires
            other.wf(),
        ensures
            res.wf(),
            res@ == other@.coarsest(),
            res@.z <= other@.z,
            other@.blocks(pow2((other@.z - res@.z) as nat) as int),
            res@.z > 0 ==> !other@.blocks(pow2((other@.z - res@.z + 1) as nat) as int),
            res@.i == other@.i,
            res@.t == other@.t,
            forall|p: Point| #[trigger] res@.covers(p) <==> other@.covers(p),
    {
        let z = other.z();
        let side = pow2_i64(z);
        let f = lift_i32(other.f());
        let x = lift_u32(other.x());
        let y = lift_u32(other.y());
        let mut e: u8 = 0;
        let mut k: i64 = 1;
        proof {
            lemma_domain_fits(z as int);
            lemma_canonical_bounds(f@, f_domain(z as int));
            lemma_canonical_bounds(x@, xy_domain(z as int));
            lemma_canonical_bounds(y@, xy_domain(z as int));
            vstd::arithmetic::power2::lemma2_to64();
            assert(side % 1 == 0);
        }
        while e < z && aligned_to(f, side, 2 * k) && aligned_to(x, 0, 2 * k) && aligned_to(
            y,
            0,
            2 * k,
        )
            invariant
                e <= z < 32,
                k == pow2(e as nat),
                1 <= k <= side <= 0x8000_0000,
                side == pow2(z as nat),
                side % k == 0,
                e < z ==> (side as int) % (2 * k) == 0 && 2 * k <= side,
                f@ == other@.f,
                x@ == other@.x,
                y@ == other@.y,
                f@.bounds_within(-(side as int), 0x1_0000_0000),
                x@.bounds_within(0, 0x1_0000_0000),
                y@.bounds_within(0, 0x1_0000_0000),
                other@.blocks(k as int),
                other@.level_drop(e as nat) == other@.level_drop(0),
                z == other@.z,
            decreases z - e,
        {
            proof {
                lemma_pow2_unfold((e + 1) as nat);
                if e + 1 < z {
                    lemma_block_divides((e + 2) as nat, z as nat);
                    lemma_pow2_unfold((e + 2) as nat);
                }
            }
            e = e + 1;
            k = 2 * k;
        }
        proof {
            lemma_coarsened(other@, e as int);
            if e < z {
                lemma_pow2_unfold((e + 1) as nat);
            }
        }
        if e == 0 {
            proof {
                lemma_new_idempotent(other@);
                assert(other@.f.narrow(1) == other@.f) by {
                    lemma_narrow_one(other@.f);
                }
                assert(other@.x.narrow(1) == other@.x) by {
                    lemma_narrow_one(other@.x);
                }
                assert(other@.y.narrow(1) == other@.y) by {
                    lemma_narrow_one(other@.y);
                }
            }
            return other;
        }
        let nf = narrow_to(f, side, k);
        let nx = narrow_to(x, 0, k);
        let ny = narrow_to(y, 0, k);
        proof {
            let n = pow2((z - e) as nat) as int;
            lemma_pow2_adds((z - e) as nat, e as nat);
            lemma_domain_fits((z - e) as int);
            assert((-n) * k == -(n * k)) by (nonlinear_arith);
            assert(0 * k == 0);
            lemma_narrow_bounds(f@, k as int, -n, n);
            lemma_narrow_bounds(x@, k as int, 0, n);
            lemma_narrow_bounds(y@, k as int, 0, n);
        }
        match SpaceTimeId::new(
            z - e,
            lower_i32(nf),
            lower_u32(nx),
            lower_u32(ny),
            other.i(),
            other.t(),
        ) {
            Ok(v) => v,
            Err(_) => vstd::pervasive::unreached(),
        }
    }
}

/// A block of `2^a` cells divides the side of the grid at a zoom level of at
/// least `a`.
pub proof fn lemma_block_divides(a: nat, z: nat)
    requires
        a <= z,
    ensures
        pow2(z) % pow2(a) == 0,
        pow2(a) <= pow2(z),
        pow2(a) >= 1,
{
    lemma_pow2_adds((z - a) as nat, a);
    lemma_pow2_pos(a);
    lemma_pow2_pos((z - a) as nat);
    let q = pow2((z - a) as nat) as int;
    let k = pow2(a) as int;
    vstd::arithmetic::div_mod::lemma_fundamental_div_mod_converse(q * k, k, q, 0);
    assert(q * k >= k) by (nonlinear_arith)
        requires
            q >= 1,
            k >= 1,
    ;
}

/// Narrowing by blocks of one cell changes nothing.
pub proof fn lemma_narrow_one(r: DimensionRange<int>)
    ensures
        r.narrow(1) == r,
{
}

} // verus!
