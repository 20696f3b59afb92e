//! Bringing an identifier to a finer zoom level or a shorter interval.

use vstd::prelude::*;
use vstd::arithmetic::div_mod::{lemma_fundamental_div_mod, lemma_fundamental_div_mod_converse};
use vstd::arithmetic::power2::{lemma_pow2_adds, lemma_pow2_pos, pow2};
use crate::id::cover::{lemma_cell_coarser, lemma_new_covers, Point};
use crate::id::range::{
    change_scale_logic, lemma_canonical_bounds, lemma_div_bounds, lemma_div_twice,
    lemma_widen_bounds, lemma_widen_contains, lift_i32, lift_u32, lower_i32, lower_u32, pow2_i64,
};
use crate::id::{
    f_domain, id_result_view, lemma_domain_fits, lemma_new_wf, model_new, xy_domain,
    DimensionRange, IdError, IdView, ScaleFault, SpaceTimeId,
};

verus! {

/// The greatest common divisor of `a` and `b`, by Euclid's rule; `gcd(a, 0)`
/// is `a`.
pub open spec fn gcd_of(a: nat, b: nat) -> nat
    decreases b,
{
    if b == 0 {
        a
    } else {
        gcd_of(b, a % b)
    }
}

/// `d` divides `n`.
pub open spec fn divides(d: nat, n: nat) -> bool {
    exists|q: nat| n == #[trigger] (q * d)
}

/// `gcd_of(a, b)` divides both numbers, and every number that divides both
/// divides it.
pub proof fn lemma_gcd_is_greatest(a: nat, b: nat)
    ensures
        divides(gcd_of(a, b), a),
        divides(gcd_of(a, b), b),
        forall|d: nat| divides(d, a) && divides(d, b) ==> #[trigger] divides(d, gcd_of(a, b)),
    decreases b,
{
    if b == 0 {
        assert(a == 1 * a);
        assert(0 == 0 * a);
    } else {
        lemma_gcd_is_greatest(b, a % b);
        let g = gcd_of(a, b);
        vstd::arithmetic::div_mod::lemma_fundamental_div_mod(a as int, b as int);
        let qb = choose|q: nat| b == #[trigger] (q * g);
        let qr = choose|q: nat| a % b == #[trigger] (q * g);
        let n = (a / b) * qb + qr;
        assert(a == n * g) by (nonlinear_arith)
            requires
                a == b * (a / b) + a % b,
                b == qb * g,
                a % b == qr * g,
                n == (a / b) * qb + qr,
        ;
        assert forall|d: nat| divides(d, a) && divides(d, b) implies #[trigger] divides(d, g) by {
            let da = choose|q: nat| a == #[trigger] (q * d);
            let db = choose|q: nat| b == #[trigger] (q * d);
            let quot = (a / b) as int;
            let rest = (a % b) as int;
            if d == 0 {
                assert(a % b == 0 * d);
            } else {
                let diff = da - quot * db;
                assert(rest == diff * d) by (nonlinear_arith)
                    requires
                        a == da * d,
                        b == db * d,
                        a == b * quot + rest,
                        diff == da - quot * db,
                ;
                assert(diff >= 0) by (nonlinear_arith)
                    requires
                        rest == diff * d,
                        rest >= 0,
                        d > 0,
                ;
                let m = diff as nat;
                assert(a % b == m * d);
            }
            assert(divides(d, a % b));
        }
    }
}

/// Where `a` divides `b`, the greatest common divisor of the two is `a`.
pub proof fn lemma_gcd_of_divisor(a: nat, b: nat)
    requires
        a > 0,
        b % a == 0,
    ensures
        gcd_of(a, b) == a,
        gcd_of(b, a) == a,
{
    reveal_with_fuel(gcd_of, 3);
    if b == 0 {
    } else {
        assert(gcd_of(b, a) == gcd_of(a, b % a));
        assert(gcd_of(a, 0) == a);
        if a <= b {
            vstd::arithmetic::div_mod::lemma_fundamental_div_mod(b as int, a as int);
            if a == b {
            } else {
                vstd::arithmetic::div_mod::lemma_small_mod(a, b);
            }
        } else {
            vstd::arithmetic::div_mod::lemma_small_mod(b, a);
        }
    }
}

/// A number divides another exactly if it leaves no remainder.
pub proof fn lemma_divides(d: nat, n: nat)
    requires
        d > 0,
    ensures
        divides(d, n) <==> n % d == 0,
{
    if divides(d, n) {
        let q = choose|q: nat| n == #[trigger] (q * d);
        lemma_fundamental_div_mod_converse(n as int, d as int, q as int, 0);
    }
    if n % d == 0 {
        lemma_fundamental_div_mod(n as int, d as int);
        let q = (n / d) as nat;
        assert(n == q * d) by (nonlinear_arith)
            requires
                n == d * (n / d) + 0,
                q == n / d,
        ;
    }
}

/// The greatest common divisor of 0 and a number is the number; that of two
/// numbers of which one is positive is positive, divides both, and is
/// divided by what divides both.
pub proof fn lemma_gcd(a: nat, b: nat)
    ensures
        gcd_of(0, b) == b,
        a > 0 || b > 0 ==> {
            &&& gcd_of(a, b) > 0
            &&& a % gcd_of(a, b) == 0
            &&& b % gcd_of(a, b) == 0
            &&& forall|d: nat| d > 0 && a % d == 0 && b % d == 0 ==> #[trigger] (gcd_of(a, b) % d) == 0
        },
{
    reveal_with_fuel(gcd_of, 3);
    if b > 0 {
        vstd::arithmetic::div_mod::lemma_small_mod(0, b);
    }
    if a > 0 || b > 0 {
        let g = gcd_of(a, b);
        lemma_gcd_is_greatest(a, b);
        if g == 0 {
            let qa = choose|q: nat| a == #[trigger] (q * g);
            let qb = choose|q: nat| b == #[trigger] (q * g);
            assert(qa * 0 == 0 && qb * 0 == 0);
        }
        lemma_divides(g, a);
        lemma_divides(g, b);
        assert forall|d: nat| d > 0 && a % d == 0 && b % d == 0 implies #[trigger] (g % d)
            == 0 by {
            lemma_divides(d, a);
            lemma_divides(d, b);
            lemma_divides(d, g);
        }
    }
}

/// A positive number divides itself, and is at most a positive number that
/// it divides.
pub proof fn lemma_divisor_below(d: int, n: int)
    requires
        d >= 1,
        n >= 1,
    ensures
        d % d == 0,
        n % d == 0 ==> d <= n,
{
    lemma_fundamental_div_mod_converse(d, d, 1, 0);
    if n % d == 0 {
        lemma_fundamental_div_mod(n, d);
        let q = n / d;
        assert(q >= 1 && d <= n) by (nonlinear_arith)
            requires
                n == d * q,
                n >= 1,
                d >= 1,
        ;
    }
}

/// The interval that an identifier with the interval `old` has after
/// scaling to the interval `asked`: its own where none is asked for, the one
/// asked for where it has none or has that one, and else the greatest common
/// divisor of the two.
pub open spec fn scaled_interval(old: int, asked: Option<int>) -> int {
    match asked {
        None => old,
        Some(n) => if old == 0 || old == n {
            n
        } else {
            gcd_of(n as nat, old as nat) as int
        },
    }
}

/// The zoom level asked of [`SpaceTimeId::scale`], as the model reads it.
pub open spec fn zoom_arg(z: Option<u8>) -> Option<int> {
    match z {
        Some(v) => Some(v as int),
        None => None,
    }
}

/// The interval asked of [`SpaceTimeId::scale`], as the model reads it.
pub open spec fn interval_arg(i: Option<u32>) -> Option<int> {
    match i {
        Some(v) => Some(v as int),
        None => None,
    }
}

/// The interval and the time range of `v` after scaling to the interval `i`,
/// or why there is none.
///
/// An identifier without interval takes any interval, with the time range
/// `Any`. One with an interval keeps it, or is asked for a shorter one other
/// than 0: its interval is then `g`, the greatest common divisor of the two,
/// which is the interval asked for where that divides its own; its time
/// range is widened by the factor `v.i / g`, and its bounds must fit in 32
/// bits.
pub open spec fn scaled_time(v: IdView, i: Option<int>) -> Result<
    (int, DimensionRange<int>),
    ScaleFault,
> {
    match i {
        None => Ok((v.i, v.t)),
        Some(n) => if v.i != 0 && n == 0 {
            Err(ScaleFault::TimeDropped)
        } else if v.i == 0 {
            Ok((n, DimensionRange::Any))
        } else if v.i < n {
            Err(ScaleFault::LongerInterval)
        } else if v.i == n {
            Ok((n, v.t))
        } else {
            let g = gcd_of(n as nat, v.i as nat) as int;
            let k = v.i / g;
            if v.t.widen(k).bounds_within(0, u32::MAX as int) {
                Ok((g, v.t.widen(k)))
            } else {
                Err(ScaleFault::TimeOverflow)
            }
        },
    }
}

/// The identifier `v` at the zoom level `z` and the interval `i`, each kept
/// where `None` is given, or why there is none.
///
/// A zoom level below the identifier's is refused, then one of 32 or more,
/// then the interval as [`scaled_time`] says. Each spatial range is widened by
/// `2^(z - v.z)`, and the result is made by [`model_new`].
pub open spec fn model_scale(v: IdView, z: Option<int>, i: Option<int>) -> Result<IdView, IdError> {
    let z2 = match z {
        Some(n) => n,
        None => v.z,
    };
    if z is None && i is None {
        Ok(v)
    } else if z2 < v.z {
        Err(IdError::ScaleError(ScaleFault::CoarserZoom))
    } else if z2 >= 32 {
        Err(IdError::ResolutionTooLarge(z2 as u8))
    } else if scaled_time(v, i) is Err {
        Err(IdError::ScaleError(scaled_time(v, i)->Err_0))
    } else {
        let k = pow2((z2 - v.z) as nat) as int;
        let (i2, t2) = scaled_time(v, i)->Ok_0;
        model_new(z2, v.f.widen(k), v.x.widen(k), v.y.widen(k), i2, t2)
    }
}

/// Scaling a well-formed identifier fails only for the reasons that
/// [`model_scale`] names before it builds the result, and what it returns is
/// well-formed.
pub proof fn lemma_scale_wf(v: IdView, z: Option<int>, i: Option<int>)
    requires
        v.wf(),
        z matches Some(n) ==> 0 <= n,
        i matches Some(n) ==> 0 <= n <= u32::MAX,
    ensures
        model_scale(v, z, i) matches Ok(w) ==> w.wf(),
        model_scale(v, z, i) is Err <==> {
            let z2 = z.unwrap_or(v.z);
            !(z is None && i is None) && (z2 < v.z || z2 >= 32 || scaled_time(v, i) is Err)
        },
{
    let z2 = z.unwrap_or(v.z);
    if !(z is None && i is None) && v.z <= z2 < 32 && scaled_time(v, i) is Ok {
        let k = pow2((z2 - v.z) as nat) as int;
        let (i2, t2) = scaled_time(v, i)->Ok_0;
        lemma_scaled_space(v.x, v.z, z2, false);
        lemma_scaled_space(v.y, v.z, z2, false);
        lemma_scaled_space(v.f, v.z, z2, true);
        lemma_scaled_time(v, i);
        lemma_new_wf(z2, v.f.widen(k), v.x.widen(k), v.y.widen(k), i2, t2);
    }
}

/// A canonical range of zoom level `z`, widened to the level `z2`, has a
/// canonical form there.
pub proof fn lemma_scaled_space(r: DimensionRange<int>, z: int, z2: int, vertical: bool)
    requires
        0 <= z <= z2 < 32,
        r.canonical(if vertical { f_domain(z) } else { xy_domain(z) }),
    ensures
        pow2((z2 - z) as nat) >= 1,
        r.widen(pow2((z2 - z) as nat) as int).normalize(
            if vertical {
                f_domain(z2)
            } else {
                xy_domain(z2)
            },
        ) is Ok,
        r.widen(pow2((z2 - z) as nat) as int).bounds_within(-0x8000_0000, 0x7fff_ffff),
{
    let k = pow2((z2 - z) as nat) as int;
    let n = pow2(z as nat) as int;
    lemma_pow2_pos((z2 - z) as nat);
    lemma_pow2_adds(z as nat, (z2 - z) as nat);
    lemma_domain_fits(z);
    lemma_domain_fits(z2);
    assert(pow2(z2 as nat) == n * k);
    let d = if vertical { f_domain(z) } else { xy_domain(z) };
    lemma_canonical_bounds(r, d);
    lemma_widen_bounds(r, k, d.min, d.max->0);
    assert((n - 1 + 1) * k - 1 == n * k - 1);
    assert((-n) * k == -(n * k)) by (nonlinear_arith);
    assert(0 * k == 0);
}

/// The time range that [`scaled_time`] returns has a canonical form.
pub proof fn lemma_scaled_time(v: IdView, i: Option<int>)
    requires
        v.wf(),
        i matches Some(n) ==> 0 <= n <= u32::MAX,
        scaled_time(v, i) is Ok,
    ensures
        ({
            let (i2, t2) = scaled_time(v, i)->Ok_0;
            &&& 0 <= i2 <= u32::MAX
            &&& t2.bounds_within(0, u32::MAX as int)
            &&& t2.ordered()
            &&& (i2 == 0 ==> t2 is Any)
            &&& t2.normalize(crate::id::t_domain()) is Ok
        }),
{
    if i is Some && v.i != 0 && i->0 != 0 && i->0 < v.i {
        let n = i->0;
        let g = gcd_of(n as nat, v.i as nat) as int;
        lemma_gcd_is_greatest(n as nat, v.i as nat);
        let q = choose|q: nat| v.i as nat == #[trigger] (q * (g as nat));
        assert(g > 0 && q > 0) by (nonlinear_arith)
            requires
                v.i == q * g,
                v.i > 0,
                g >= 0,
                q >= 0,
        ;
        lemma_div_bounds(v.i, g, 1);
        assert(1 * g <= v.i) by (nonlinear_arith)
            requires
                v.i == q * g,
                q >= 1,
                g > 0,
        ;
        let k = v.i / g;
        assert(k >= 1);
        lemma_widen_bounds(v.t, k, 0, u32::MAX as int);
        assert(0 * k == 0);
    }
}

/// A scaled identifier covers what the identifier covered.
pub proof fn lemma_scale_covers(v: IdView, z: Option<int>, i: Option<int>, p: Point)
    requires
        v.wf(),
        z matches Some(n) ==> 0 <= n,
        i matches Some(n) ==> 0 <= n <= u32::MAX,
        model_scale(v, z, i) is Ok,
    ensures
        model_scale(v, z, i)->Ok_0.covers(p) <==> v.covers(p),
{
    if !(z is None && i is None) {
        let z2 = z.unwrap_or(v.z);
        let k = pow2((z2 - v.z) as nat) as int;
        let (i2, t2) = scaled_time(v, i)->Ok_0;
        lemma_new_covers(z2, v.f.widen(k), v.x.widen(k), v.y.widen(k), i2, t2, p);
        lemma_cell_coarser(p.f, v.z, z2);
        lemma_cell_coarser(p.x, v.z, z2);
        lemma_cell_coarser(p.y, v.z, z2);
        lemma_widen_contains(v.f, k, crate::id::cover::cell_at(p.f, z2));
        lemma_widen_contains(v.x, k, crate::id::cover::cell_at(p.x, z2));
        lemma_widen_contains(v.y, k, crate::id::cover::cell_at(p.y, z2));
        if i is Some && v.i != 0 && i->0 != v.i {
            let n = i->0;
            lemma_scaled_time_factor(n as nat, v.i as nat);
            let g = gcd_of(n as nat, v.i as nat) as int;
            let kt = v.i / g;
            lemma_gcd_is_greatest(n as nat, v.i as nat);
            let q = choose|q: nat| v.i as nat == #[trigger] (q * (g as nat));
            vstd::arithmetic::div_mod::lemma_fundamental_div_mod_converse(v.i, g, q as int, 0);
            assert(kt >= 1 && v.i == g * kt) by (nonlinear_arith)
                requires
                    v.i == q * g,
                    kt == q,
                    kt >= 1,
            ;
            lemma_widen_contains(v.t, kt, p.s / g);
            lemma_div_twice(p.s, g, kt);
        }
    }
}

impl SpaceTimeId {
    /// The greatest common divisor of `a` and `b`; `gcd(a, 0)` and `gcd(0, a)`
    /// are `a`.
    pub fn gcd(a: u32, b: u32) -> (r: u32)
        ensures
            r == gcd_of(a as nat, b as nat),
    {
        let mut m = a;
        let mut n = b;
        while n != 0
            invariant
                gcd_of(m as nat, n as nat) == gcd_of(a as nat, b as nat),
            decreases n,
        {
            let rest = m % n;
            m = n;
            n = rest;
        }
        m
    }

    /// This identifier at the zoom level `z` and with the interval `i`, each
    /// kept as it is where `None` is given. The zoom level may only grow and
    /// the interval only shrink; an identifier without interval takes any.
    /// Where the interval asked for does not divide this one's, the result
    /// has the greatest common divisor of the two as its interval, so that it
    /// covers what this identifier covers.
    ///
    /// Every cell becomes the block of finer cells that it is made of, and the
    /// result is validated as [`SpaceTimeId::new`] does. It fails, in this
    /// order, with `ScaleError(CoarserZoom)` for a zoom level below this one's,
    /// with `ResolutionTooLarge` for one of 32 or more, with
    /// `ScaleError(TimeDropped)` where an interval would become 0, with
    /// `ScaleError(LongerInterval)` for an interval above this one's, and with
    /// `ScaleError(TimeOverflow)` where a time index of the result is above
    /// `u32::MAX`.
    pub fn scale(&self, z: Option<u8>, i: Option<u32>) -> (res: Result<Self, IdError>)
        requires
            self.wf(),
        ensures
            id_result_view(res) == model_scale(self@, zoom_arg(z), interval_arg(i)),
            res matches Ok(id) ==> id.wf(),
    {
        proof {
            lemma_scale_wf(self@, zoom_arg(z), interval_arg(i));
        }
        if z.is_none() && i.is_none() {
            return Ok(*self);
        }
        let z2 = match z {
            Some(n) => n,
            None => self.z,
        };
        if z2 < self.z {
            return Err(IdError::ScaleError(ScaleFault::CoarserZoom));
        }
        if z2 >= 32 {
            return Err(IdError::ResolutionTooLarge(z2));
        }
        let (i2, t2) = match i {
            None => (self.i, self.t),
            Some(n) => {
                if self.i != 0 && n == 0 {
                    return Err(IdError::ScaleError(ScaleFault::TimeDropped));
                } else if self.i == 0 {
                    (n, DimensionRange::Any)
                } else if self.i < n {
                    return Err(IdError::ScaleError(ScaleFault::LongerInterval));
                } else if self.i == n {
                    (n, self.t)
                } else {
                    let g = Self::gcd(n, self.i);
                    proof {
                        lemma_scaled_time_factor(n as nat, self.i as nat);
                    }
                    let k = self.i / g;
                    let wide = match change_scale_logic(lift_u32(self.t), k as i64) {
                        Some(w) => w,
                        None => {
                            return Err(IdError::ScaleError(ScaleFault::TimeOverflow));
                        },
                    };
                    if !fits_u32(wide) {
                        return Err(IdError::ScaleError(ScaleFault::TimeOverflow));
                    }
                    (g, lower_u32(wide))
                }
            },
        };
        let k = pow2_i64(z2 - self.z);
        proof {
            lemma_scaled_space(self@.x, self@.z, z2 as int, false);
            lemma_scaled_space(self@.y, self@.z, z2 as int, false);
            lemma_scaled_space(self@.f, self@.z, z2 as int, true);
            lemma_domain_fits(self@.z);
            lemma_canonical_bounds(self@.x, xy_domain(self@.z));
            lemma_canonical_bounds(self@.y, xy_domain(self@.z));
            lemma_canonical_bounds(self@.f, f_domain(self@.z));
        }
        let f2 = change_scale_logic(lift_i32(self.f), k);
        let x2 = change_scale_logic(lift_u32(self.x), k);
        let y2 = change_scale_logic(lift_u32(self.y), k);
        match (f2, x2, y2) {
            (Some(f2), Some(x2), Some(y2)) => {
                proof {
                    assert(x2@.bounds_within(0, u32::MAX as int)) by {
                        lemma_widen_bounds(
                            self@.x,
                            k as int,
                            0,
                            pow2(self@.z as nat) - 1,
                        );
                        assert(0 * k == 0);
                    }
                    assert(y2@.bounds_within(0, u32::MAX as int)) by {
                        lemma_widen_bounds(
                            self@.y,
                            k as int,
                            0,
                            pow2(self@.z as nat) - 1,
                        );
                        assert(0 * k == 0);
                    }
                }
                Self::new(z2, lower_i32(f2), lower_u32(x2), lower_u32(y2), i2, t2)
            },
            _ => vstd::pervasive::unreached(),
        }
    }
}

/// The factor by which a time range is widened is at least 1.
pub proof fn lemma_scaled_time_factor(n: nat, i: nat)
    requires
        0 < n < i,
        i <= u32::MAX,
    ensures
        1 <= gcd_of(n, i) <= i,
        1 <= i / gcd_of(n, i) <= i,
{
    let g = gcd_of(n, i);
    lemma_gcd_is_greatest(n, i);
    let q = choose|q: nat| i == #[trigger] (q * g);
    assert(g > 0 && q > 0 && g <= i) by (nonlinear_arith)
        requires
            i == q * g,
            i > 0,
            g >= 0,
            q >= 0,
    ;
    lemma_div_bounds(i as int, g as int, 1);
    lemma_div_bounds(i as int, g as int, i as int);
    assert((i + 1) * g - 1 >= i) by (nonlinear_arith)
        requires
            g >= 1,
            i >= 0,
    ;
}

/// Every bound of the range fits in 32 bits without sign.
pub fn fits_u32(r: DimensionRange<i64>) -> (b: bool)
    ensures
        b == r@.bounds_within(0, u32::MAX as int),
{
    match r {
        DimensionRange::LimitRange(s, e) => 0 <= s && s <= 0xffff_ffff && 0 <= e && e <= 0xffff_ffff,
        DimensionRange::BeforeUnLimitRange(e) => 0 <= e && e <= 0xffff_ffff,
        DimensionRange::AfterUnLimitRange(s) => 0 <= s && s <= 0xffff_ffff,
        DimensionRange::Single(v) => 0 <= v && v <= 0xffff_ffff,
        DimensionRange::Any => true,
    }
}

} // verus!
