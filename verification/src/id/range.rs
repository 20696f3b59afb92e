//! One axis: what a range holds, its canonical form within the bounds of the
//! axis, and the intersection of two ranges.

use vstd::prelude::*;
use vstd::arithmetic::div_mod::{lemma_fundamental_div_mod, lemma_mod_bound};
use vstd::arithmetic::power2::{lemma2_to64, lemma_pow2_strictly_increases, lemma_pow2_unfold, pow2};
use crate::id::DimensionRange;
use crate::id::DimensionRange::{AfterUnLimitRange, Any, BeforeUnLimitRange, LimitRange, Single};

verus! {

/// The values of an axis: from `min` up to `max`, or without end where `max`
/// is `None`.
pub struct Domain {
    pub min: int,
    pub max: Option<int>,
}

impl Domain {
    /// `v` is a value of the axis.
    pub open spec fn has(self, v: int) -> bool {
        self.min <= v && (self.max matches Some(m) ==> v <= m)
    }

    /// `v` is the greatest value of the axis.
    pub open spec fn top(self, v: int) -> bool {
        self.max == Some(v)
    }

    /// The axis has at least one value.
    pub open spec fn inhabited(self) -> bool {
        self.max matches Some(m) ==> self.min <= m
    }
}

/// Why a range is refused on an axis.
#[derive(Debug, Clone, Copy, PartialEq, Eq, Structural)]
pub enum RangeFault {
    /// A bound of the range is no value of the axis.
    OutOfRange,
    /// The range starts after it ends.
    InvalidOrder,
}

impl DimensionRange<int> {
    /// The least value that the range names, `None` where it is open below.
    pub open spec fn lower(self) -> Option<int> {
        match self {
            LimitRange(s, _) => Some(s),
            AfterUnLimitRange(s) => Some(s),
            Single(v) => Some(v),
            BeforeUnLimitRange(_) => None,
            Any => None,
        }
    }

    /// The greatest value that the range names, `None` where it is open above.
    pub open spec fn upper(self) -> Option<int> {
        match self {
            LimitRange(_, e) => Some(e),
            BeforeUnLimitRange(e) => Some(e),
            Single(v) => Some(v),
            AfterUnLimitRange(_) => None,
            Any => None,
        }
    }

    /// The place of the range's form in the order in which the intersection
    /// takes the forms up: `Single` first, `Any` last.
    pub open spec fn form_rank(self) -> nat {
        match self {
            Single(_) => 0,
            LimitRange(_, _) => 1,
            AfterUnLimitRange(_) => 2,
            BeforeUnLimitRange(_) => 3,
            Any => 4,
        }
    }

    /// A `LimitRange` does not start after its end.
    pub open spec fn ordered(self) -> bool {
        self matches LimitRange(s, e) ==> s <= e
    }

    /// `v` lies in the range.
    pub open spec fn contains(self, v: int) -> bool {
        (self.lower() matches Some(lo) ==> lo <= v) && (self.upper() matches Some(hi) ==> v <= hi)
    }

    /// The range with the given bounds that is neither a `Single` nor
    /// collapsed in any way.
    pub open spec fn between(lo: Option<int>, hi: Option<int>) -> DimensionRange<int> {
        match (lo, hi) {
            (Some(s), Some(e)) => LimitRange(s, e),
            (Some(s), None) => AfterUnLimitRange(s),
            (None, Some(e)) => BeforeUnLimitRange(e),
            (None, None) => Any,
        }
    }

    /// Every bound that the range names lies between `lo` and `hi`.
    pub open spec fn bounds_within(self, lo: int, hi: int) -> bool {
        (self.lower() matches Some(s) ==> lo <= s <= hi) && (self.upper() matches Some(e) ==> lo
            <= e <= hi)
    }

    /// The range is the one form chosen for its set of values on the axis
    /// `d`: a `LimitRange` holds at least two values and touches neither end
    /// of the axis, an open range does not touch the end it names and does not
    /// start at the end it leaves open, and a `Single` is a value of the axis.
    pub open spec fn canonical(self, d: Domain) -> bool {
        match self {
            Single(v) => d.has(v),
            LimitRange(s, e) => d.min < s && s < e && d.has(e) && !d.top(e),
            BeforeUnLimitRange(e) => d.min < e && d.has(e) && !d.top(e),
            AfterUnLimitRange(s) => d.min < s && d.has(s) && !d.top(s),
            Any => true,
        }
    }

    /// The canonical form of the range on the axis `d`, or why it has none.
    ///
    /// A `LimitRange` that starts after its end is refused as `InvalidOrder`
    /// before its bounds are looked at; a bound that is no value of the axis is
    /// `OutOfRange`.
    pub open spec fn normalize(self, d: Domain) -> Result<DimensionRange<int>, RangeFault> {
        match self {
            Single(v) => if d.has(v) {
                Ok(Single(v))
            } else {
                Err(RangeFault::OutOfRange)
            },
            LimitRange(s, e) => if s > e {
                Err(RangeFault::InvalidOrder)
            } else if !d.has(s) || !d.has(e) {
                Err(RangeFault::OutOfRange)
            } else if s == e {
                Ok(Single(s))
            } else if s == d.min && d.top(e) {
                Ok(Any)
            } else if s == d.min {
                Ok(BeforeUnLimitRange(e))
            } else if d.top(e) {
                Ok(AfterUnLimitRange(s))
            } else {
                Ok(LimitRange(s, e))
            },
            AfterUnLimitRange(s) => if !d.has(s) {
                Err(RangeFault::OutOfRange)
            } else if s == d.min {
                Ok(Any)
            } else if d.top(s) {
                Ok(Single(s))
            } else {
                Ok(AfterUnLimitRange(s))
            },
            BeforeUnLimitRange(e) => if !d.has(e) {
                Err(RangeFault::OutOfRange)
            } else if d.top(e) {
                Ok(Any)
            } else if e == d.min {
                Ok(Single(e))
            } else {
                Ok(BeforeUnLimitRange(e))
            },
            Any => Ok(Any),
        }
    }

    /// The range of the cells, `k` to each cell of this axis, into which the
    /// cells of this range fall apart: a cell `v` becomes the cells `v * k` to
    /// `(v + 1) * k - 1`. A `Single` becomes a `LimitRange`.
    pub open spec fn widen(self, k: int) -> DimensionRange<int> {
        match self {
            Single(v) => LimitRange(v * k, (v + 1) * k - 1),
            LimitRange(s, e) => LimitRange(s * k, (e + 1) * k - 1),
            AfterUnLimitRange(s) => AfterUnLimitRange(s * k),
            BeforeUnLimitRange(e) => BeforeUnLimitRange((e + 1) * k - 1),
            Any => Any,
        }
    }

    /// The values of the axis `d` below the range, `None` where there are
    /// none.
    pub open spec fn below(self, d: Domain) -> Option<DimensionRange<int>> {
        match self.lower() {
            Some(lo) => if lo > d.min {
                Some(BeforeUnLimitRange(lo - 1))
            } else {
                None
            },
            None => None,
        }
    }

    /// The values of the axis `d` above the range, `None` where there are
    /// none.
    pub open spec fn above(self, d: Domain) -> Option<DimensionRange<int>> {
        match self.upper() {
            Some(hi) => if d.max is Some && hi >= d.max->0 {
                None
            } else {
                Some(AfterUnLimitRange(hi + 1))
            },
            None => None,
        }
    }

    /// The pieces of the axis `d` that the range leaves out: what lies below
    /// it, then what lies above it.
    pub open spec fn pieces(self, d: Domain) -> Seq<DimensionRange<int>> {
        let low = match self.below(d) {
            Some(b) => seq![b],
            None => seq![],
        };
        match self.above(d) {
            Some(a) => low.push(a),
            None => low,
        }
    }

    /// The one range that holds what two ranges hold, where one ends right
    /// before the other starts; `None` where neither does.
    pub open spec fn join(self, other: DimensionRange<int>) -> Option<DimensionRange<int>> {
        if self.upper() is Some && other.lower() is Some && self.upper()->0 + 1 == other.lower()->0 {
            Some(Self::between(self.lower(), other.upper()))
        } else if other.upper() is Some && self.lower() is Some && other.upper()->0 + 1
            == self.lower()->0 {
            Some(Self::between(other.lower(), self.upper()))
        } else {
            None
        }
    }

    /// The range is made of whole blocks of `k` cells: its first cell starts
    /// a block and its last cell ends one. A `Single` is so for `k == 1`
    /// alone.
    pub open spec fn aligned(self, k: int) -> bool {
        &&& self.lower() matches Some(s) ==> s % k == 0
        &&& self.upper() matches Some(e) ==> (e + 1) % k == 0
        &&& self is Single ==> k == 1
    }

    /// The range of the blocks of `k` cells that an aligned range is made of.
    pub open spec fn narrow(self, k: int) -> DimensionRange<int> {
        match self {
            Single(v) => Single(v / k),
            LimitRange(s, e) => LimitRange(s / k, (e + 1) / k - 1),
            AfterUnLimitRange(s) => AfterUnLimitRange(s / k),
            BeforeUnLimitRange(e) => BeforeUnLimitRange((e + 1) / k - 1),
            Any => Any,
        }
    }

    /// The values that two ranges share, `None` where they share none.
    ///
    /// Where one of the two is a `Single` the result is that `Single`;
    /// otherwise it runs from the greater lower bound to the lesser upper
    /// bound and is not brought to canonical form.
    pub open spec fn meet(self, other: DimensionRange<int>) -> Option<DimensionRange<int>> {
        let lo = match (self.lower(), other.lower()) {
            (Some(a), Some(b)) => Some(if a >= b { a } else { b }),
            (Some(a), None) => Some(a),
            (None, b) => b,
        };
        let hi = match (self.upper(), other.upper()) {
            (Some(a), Some(b)) => Some(if a <= b { a } else { b }),
            (Some(a), None) => Some(a),
            (None, b) => b,
        };
        if lo is Some && hi is Some && lo->0 > hi->0 {
            None
        } else if self is Single {
            Some(self)
        } else if other is Single {
            Some(other)
        } else {
            Some(Self::between(lo, hi))
        }
    }
}

/// A range in canonical form holds, among the values of its axis, what the
/// range it came from holds.
pub proof fn lemma_normalize_keeps_values(r: DimensionRange<int>, d: Domain)
    requires
        r.normalize(d) is Ok,
    ensures
        r.normalize(d)->Ok_0.canonical(d),
        forall|v: int| d.has(v) ==> (#[trigger] r.normalize(d)->Ok_0.contains(v) <==> r.contains(v)),
        forall|lo: int, hi: int| #[trigger]
            r.bounds_within(lo, hi) ==> r.normalize(d)->Ok_0.bounds_within(lo, hi),
        r.normalize(d)->Ok_0.ordered(),
{
}

/// The bounds of a canonical range are values of its axis.
pub proof fn lemma_canonical_bounds(r: DimensionRange<int>, d: Domain)
    requires
        r.canonical(d),
        d.max is Some,
    ensures
        r.bounds_within(d.min, d.max->0),
        r.ordered(),
{
}

/// Bringing a canonical range to canonical form changes nothing.
pub proof fn lemma_normalize_canonical(r: DimensionRange<int>, d: Domain)
    requires
        r.canonical(d),
    ensures
        r.normalize(d) == Ok::<DimensionRange<int>, RangeFault>(r),
{
}

/// The meet of two ranges holds exactly the values that both hold.
pub proof fn lemma_meet_contains(a: DimensionRange<int>, b: DimensionRange<int>)
    ensures
        a.meet(b) matches Some(m) ==> forall|v: int| #[trigger]
            m.contains(v) <==> a.contains(v) && b.contains(v),
        a.meet(b) is None ==> forall|v: int| !(#[trigger] a.contains(v) && b.contains(v)),
        a.meet(b) is None ==> a.lower() is Some || b.lower() is Some,
{
}

/// A value of the axis lies outside a range exactly if it lies in one of the
/// pieces that the range leaves out, and it lies in at most one of them.
pub proof fn lemma_pieces(r: DimensionRange<int>, d: Domain, v: int)
    requires
        r.ordered(),
        d.has(v),
    ensures
        !r.contains(v) <==> ((r.below(d) matches Some(b) && b.contains(v)) || (r.above(
            d,
        ) matches Some(a) && a.contains(v))),
        !((r.below(d) matches Some(b) && b.contains(v)) && (r.above(d) matches Some(a)
            && a.contains(v))),
{
}

/// The pieces that a canonical range leaves out have a canonical form.
pub proof fn lemma_pieces_normal(r: DimensionRange<int>, d: Domain)
    requires
        r.canonical(d),
    ensures
        r.below(d) matches Some(b) ==> b.normalize(d) is Ok && b.ordered(),
        r.above(d) matches Some(a) ==> a.normalize(d) is Ok && a.ordered(),
{
}

/// The bounds of the pieces that a range leaves out lie at most one beyond
/// the bounds of the range.
pub proof fn lemma_pieces_bounds(r: DimensionRange<int>, d: Domain, lo: int, hi: int)
    requires
        r.bounds_within(lo, hi),
    ensures
        r.below(d) matches Some(b) ==> b.bounds_within(lo - 1, hi),
        r.above(d) matches Some(a) ==> a.bounds_within(lo, hi + 1),
{
}

/// Two ranges that join hold together what their join holds.
pub proof fn lemma_join_contains(a: DimensionRange<int>, b: DimensionRange<int>, v: int)
    requires
        a.ordered(),
        b.ordered(),
        a.join(b) is Some,
    ensures
        a.join(b)->0.contains(v) <==> a.contains(v) || b.contains(v),
        !(a.contains(v) && b.contains(v)),
        a.join(b)->0.ordered(),
        forall|lo: int, hi: int|
            a.bounds_within(lo, hi) && b.bounds_within(lo, hi) ==> #[trigger] a.join(
                b,
            )->0.bounds_within(lo, hi),
{
}

/// The narrowed form of an aligned range holds a block exactly if the range
/// holds the cells of the block.
pub proof fn lemma_narrow_contains(r: DimensionRange<int>, k: int, c: int)
    requires
        k > 0,
        r.aligned(k),
    ensures
        r.narrow(k).contains(c / k) <==> r.contains(c),
{
    if r is Single {
        assert(c / 1 == c);
        assert(r->Single_0 / 1 == r->Single_0);
    } else {
        if r.lower() is Some {
            let s = r.lower()->0;
            lemma_fundamental_div_mod(s, k);
            lemma_div_bounds(c, k, s / k);
            assert(k * (s / k) == (s / k) * k) by (nonlinear_arith);
        }
        if r.upper() is Some {
            let e = r.upper()->0;
            lemma_fundamental_div_mod(e + 1, k);
            lemma_div_bounds(c, k, (e + 1) / k - 1);
            assert(k * ((e + 1) / k) == ((e + 1) / k - 1 + 1) * k) by (nonlinear_arith);
        }
    }
}

/// The bounds of the narrowed form of an aligned range lie within the
/// narrowed bounds, and it is ordered.
pub proof fn lemma_narrow_bounds(r: DimensionRange<int>, k: int, lo: int, hi: int)
    requires
        k > 0,
        r.aligned(k),
        r.ordered(),
        r.bounds_within(lo * k, hi * k - 1),
    ensures
        r.narrow(k).bounds_within(lo, hi - 1),
        r.narrow(k).ordered(),
{
    if r is Single {
        let v = r->Single_0;
        assert(v / 1 == v);
        assert(lo * 1 == lo && hi * 1 == hi);
    } else {
        if r.lower() is Some {
            let s = r.lower()->0;
            lemma_div_bounds(s, k, lo);
            lemma_div_bounds(s, k, hi - 1);
            assert((hi - 1 + 1) * k == hi * k);
        }
        if r.upper() is Some {
            let e = r.upper()->0;
            lemma_div_bounds(e + 1, k, hi);
            assert((hi + 1) * k == hi * k + k) by (nonlinear_arith);
            lemma_fundamental_div_mod(e + 1, k);
            let b = (e + 1) / k;
            assert(b >= lo + 1) by (nonlinear_arith)
                requires
                    e + 1 == k * b,
                    e + 1 > lo * k,
                    k > 0,
            ;
        }
        if r is LimitRange {
            let s = r->LimitRange_0;
            let e = r->LimitRange_1;
            lemma_fundamental_div_mod(s, k);
            lemma_fundamental_div_mod(e + 1, k);
            let a = s / k;
            let b = (e + 1) / k;
            assert(a < b) by (nonlinear_arith)
                requires
                    s == k * a,
                    e + 1 == k * b,
                    s < e + 1,
                    k > 0,
            ;
        }
    }
}

/// An ordered range whose bounds are values of the axis has a canonical form
/// there.
pub proof fn lemma_normalize_ok(r: DimensionRange<int>, d: Domain)
    requires
        r.ordered(),
        r.lower() matches Some(s) ==> d.has(s),
        r.upper() matches Some(e) ==> d.has(e),
    ensures
        r.normalize(d) is Ok,
{
}

/// Adding whole blocks of `k` to a number adds their count to its quotient
/// by `k` and leaves its remainder.
pub proof fn lemma_shift_div_mod(s: int, q: int, k: int)
    requires
        k > 0,
    ensures
        (s + q * k) % k == s % k,
        (s + q * k) / k == s / k + q,
{
    lemma_fundamental_div_mod(s, k);
    lemma_mod_bound(s, k);
    assert(s + q * k == (s / k + q) * k + s % k) by (nonlinear_arith)
        requires
            s == k * (s / k) + s % k,
    ;
    vstd::arithmetic::div_mod::lemma_fundamental_div_mod_converse(
        s + q * k,
        k,
        s / k + q,
        s % k,
    );
}

/// The meet of two canonical ranges of an axis has a canonical form there.
pub proof fn lemma_meet_normal(a: DimensionRange<int>, b: DimensionRange<int>, d: Domain)
    requires
        a.canonical(d),
        b.canonical(d),
        a.meet(b) is Some,
    ensures
        a.meet(b)->0.normalize(d) is Ok,
        a.meet(b)->0.ordered(),
        forall|lo: int, hi: int|
            a.bounds_within(lo, hi) && b.bounds_within(lo, hi) ==> #[trigger] a.meet(
                b,
            )->0.bounds_within(lo, hi),
{
}

/// An ordered range shares with itself what it holds.
pub proof fn lemma_meet_self(r: DimensionRange<int>)
    requires
        r.ordered(),
    ensures
        r.meet(r) == Some(r),
{
}

/// A canonical range, widened by the factor 1, has itself as its canonical
/// form.
pub proof fn lemma_widen_one(r: DimensionRange<int>, d: Domain)
    requires
        r.canonical(d),
    ensures
        r.widen(1).normalize(d) == Ok::<DimensionRange<int>, RangeFault>(r),
{
}

/// The meet does not depend on the order of the two ranges.
pub proof fn lemma_meet_symmetric(a: DimensionRange<int>, b: DimensionRange<int>)
    ensures
        a.meet(b) == b.meet(a),
{
}

/// A quotient lies at or above `s` exactly if the dividend lies at or above
/// `s * k`, and at or below `s` exactly if the dividend lies below
/// `(s + 1) * k`.
pub proof fn lemma_div_bounds(c: int, k: int, s: int)
    requires
        k > 0,
    ensures
        (s <= c / k) <==> (s * k <= c),
        (c / k <= s) <==> (c <= (s + 1) * k - 1),
{
    lemma_fundamental_div_mod(c, k);
    lemma_mod_bound(c, k);
    let q = c / k;
    assert(k * q == q * k) by (nonlinear_arith);
    assert((s + 1) * k == s * k + k) by (nonlinear_arith);
    assert((q + 1) * k == q * k + k) by (nonlinear_arith);
    assert(s <= q ==> s * k <= q * k) by (nonlinear_arith)
        requires
            k > 0,
    ;
    assert(s >= q + 1 ==> s * k >= (q + 1) * k) by (nonlinear_arith)
        requires
            k > 0,
    ;
    assert(q <= s ==> q * k <= s * k) by (nonlinear_arith)
        requires
            k > 0,
    ;
    assert(q >= s + 1 ==> q * k >= (s + 1) * k) by (nonlinear_arith)
        requires
            k > 0,
    ;
}

/// Dividing by `a` and then by `b` is dividing by `a * b`, for a dividend of
/// either sign.
pub proof fn lemma_div_twice(c: int, a: int, b: int)
    requires
        a > 0,
        b > 0,
    ensures
        a * b > 0,
        c / a / b == c / (a * b),
{
    assert(a * b > 0) by (nonlinear_arith)
        requires
            a > 0,
            b > 0,
    ;
    let q = c / a / b;
    lemma_div_bounds(c, a, q * b);
    lemma_div_bounds(c / a, b, q);
    lemma_div_bounds(c, a, (q + 1) * b - 1);
    lemma_div_bounds(c, a * b, q);
    lemma_div_bounds(c, a * b, c / (a * b));
    assert(q * b * a == q * (a * b)) by (nonlinear_arith);
    assert(((q + 1) * b - 1 + 1) * a == (q + 1) * (a * b)) by (nonlinear_arith);
    lemma_div_bounds(c, a * b, q - 1);
    lemma_div_bounds(c, a * b, q + 1);
    assert((q - 1 + 1) * (a * b) == q * (a * b));
}

/// The widened range holds a cell exactly if the range holds the cell that it
/// is a part of.
pub proof fn lemma_widen_contains(r: DimensionRange<int>, k: int, c: int)
    requires
        k > 0,
    ensures
        r.widen(k).contains(c) <==> r.contains(c / k),
{
    match r {
        Single(v) => {
            lemma_div_bounds(c, k, v);
        },
        LimitRange(s, e) => {
            lemma_div_bounds(c, k, s);
            lemma_div_bounds(c, k, e);
        },
        AfterUnLimitRange(s) => {
            lemma_div_bounds(c, k, s);
        },
        BeforeUnLimitRange(e) => {
            lemma_div_bounds(c, k, e);
        },
        Any => {},
    }
}

/// The bounds of the widened range lie within the widened bounds.
pub proof fn lemma_widen_bounds(r: DimensionRange<int>, k: int, lo: int, hi: int)
    requires
        k > 0,
        r.bounds_within(lo, hi),
        r.ordered(),
    ensures
        r.widen(k).bounds_within(lo * k, (hi + 1) * k - 1),
        r.widen(k).ordered(),
{
    assert forall|v: int| lo <= v <= hi implies lo * k <= #[trigger] (v * k) && (v + 1) * k - 1 <= (
    hi + 1) * k - 1 && v * k <= (v + 1) * k - 1 by {
        assert(lo * k <= v * k && (v + 1) * k <= (hi + 1) * k && v * k + k == (v + 1) * k)
            by (nonlinear_arith)
            requires
                lo <= v <= hi,
                k > 0,
        ;
    }
    match r {
        LimitRange(s, e) => {
            assert(s * k <= e * k) by (nonlinear_arith)
                requires
                    s <= e,
                    k > 0,
            ;
            assert(e * k >= lo * k);
            assert(s * k <= (s + 1) * k - 1);
            assert(e * k <= (e + 1) * k - 1);
        },
        Single(v) => {
            assert(v * k <= (v + 1) * k - 1);
        },
        AfterUnLimitRange(s) => {
            assert(s * k <= (s + 1) * k - 1);
        },
        BeforeUnLimitRange(e) => {
            assert(e * k <= (e + 1) * k - 1);
        },
        Any => {},
    }
}

/// The bounds of an axis, as the functions on ranges take them.
#[derive(Debug, Clone, Copy)]
pub struct Bounds {
    pub min: i64,
    pub max: Option<i64>,
}

impl View for Bounds {
    type V = Domain;

    open spec fn view(&self) -> Domain {
        Domain {
            min: self.min as int,
            max: match self.max {
                Some(m) => Some(m as int),
                None => None,
            },
        }
    }
}

impl Bounds {
    /// `v` is a value of the axis.
    pub fn has(&self, v: i64) -> (r: bool)
        ensures
            r == self@.has(v as int),
    {
        self.min <= v && match self.max {
            Some(m) => v <= m,
            None => true,
        }
    }

    /// `v` is the greatest value of the axis.
    pub fn top(&self, v: i64) -> (r: bool)
        ensures
            r == self@.top(v as int),
    {
        match self.max {
            Some(m) => v == m,
            None => false,
        }
    }
}

/// What `normalize` returns, read as the model reads it.
pub open spec fn normalized_view(res: Result<DimensionRange<i64>, RangeFault>) -> Result<
    DimensionRange<int>,
    RangeFault,
> {
    match res {
        Ok(n) => Ok(n@),
        Err(e) => Err(e),
    }
}

/// Brings a range to its canonical form on the axis with bounds `b`.
pub fn normalize(r: DimensionRange<i64>, b: Bounds) -> (res: Result<DimensionRange<i64>, RangeFault>)
    ensures
        normalized_view(res) == r@.normalize(b@),
{
    match r {
        Single(v) => {
            if b.has(v) {
                Ok(Single(v))
            } else {
                Err(RangeFault::OutOfRange)
            }
        },
        LimitRange(s, e) => {
            if s > e {
                Err(RangeFault::InvalidOrder)
            } else if !b.has(s) || !b.has(e) {
                Err(RangeFault::OutOfRange)
            } else if s == e {
                Ok(Single(s))
            } else if s == b.min && b.top(e) {
                Ok(Any)
            } else if s == b.min {
                Ok(BeforeUnLimitRange(e))
            } else if b.top(e) {
                Ok(AfterUnLimitRange(s))
            } else {
                Ok(LimitRange(s, e))
            }
        },
        AfterUnLimitRange(s) => {
            if !b.has(s) {
                Err(RangeFault::OutOfRange)
            } else if s == b.min {
                Ok(Any)
            } else if b.top(s) {
                Ok(Single(s))
            } else {
                Ok(AfterUnLimitRange(s))
            }
        },
        BeforeUnLimitRange(e) => {
            if !b.has(e) {
                Err(RangeFault::OutOfRange)
            } else if b.top(e) {
                Ok(Any)
            } else if e == b.min {
                Ok(Single(e))
            } else {
                Ok(BeforeUnLimitRange(e))
            }
        },
        Any => Ok(Any),
    }
}

/// What `same_level_dimension_intersection` returns, read as the model reads
/// it.
pub open spec fn met_view(res: Option<DimensionRange<i64>>) -> Option<DimensionRange<int>> {
    match res {
        Some(m) => Some(m@),
        None => None,
    }
}

/// The values that two ranges of one axis, at one zoom level, share.
pub fn same_level_dimension_intersection(a: DimensionRange<i64>, b: DimensionRange<i64>) -> (res:
    Option<DimensionRange<i64>>)
    requires
        a@.ordered(),
        b@.ordered(),
    ensures
        met_view(res) == a@.meet(b@),
    decreases (if a@.form_rank() > b@.form_rank() { 1nat } else { 0nat }),
{
    match a {
        Single(a_v) => match b {
            Single(b_v) => if a_v == b_v {
                Some(a)
            } else {
                None
            },
            LimitRange(b_s, b_e) => if b_s <= a_v && a_v <= b_e {
                Some(a)
            } else {
                None
            },
            AfterUnLimitRange(b_s) => if b_s <= a_v {
                Some(a)
            } else {
                None
            },
            BeforeUnLimitRange(b_e) => if a_v <= b_e {
                Some(a)
            } else {
                None
            },
            Any => Some(a),
        },
        LimitRange(a_s, a_e) => match b {
            Single(_) => {
                proof {
                    lemma_meet_symmetric(a@, b@);
                }
                same_level_dimension_intersection(b, a)
            },
            LimitRange(b_s, b_e) => {
                let start = if a_s >= b_s { a_s } else { b_s };
                let end = if a_e <= b_e { a_e } else { b_e };
                if start <= end {
                    Some(LimitRange(start, end))
                } else {
                    None
                }
            },
            AfterUnLimitRange(b_s) => {
                let start = if a_s >= b_s { a_s } else { b_s };
                if start <= a_e {
                    Some(LimitRange(start, a_e))
                } else {
                    None
                }
            },
            BeforeUnLimitRange(b_e) => {
                let end = if a_e <= b_e { a_e } else { b_e };
                if a_s <= end {
                    Some(LimitRange(a_s, end))
                } else {
                    None
                }
            },
            Any => Some(a),
        },
        AfterUnLimitRange(a_s) => match b {
            AfterUnLimitRange(b_s) => Some(AfterUnLimitRange(if a_s >= b_s { a_s } else { b_s })),
            BeforeUnLimitRange(b_e) => if a_s <= b_e {
                Some(LimitRange(a_s, b_e))
            } else {
                None
            },
            Any => Some(a),
            _ => {
                proof {
                    lemma_meet_symmetric(a@, b@);
                }
                same_level_dimension_intersection(b, a)
            },
        },
        BeforeUnLimitRange(a_e) => match b {
            BeforeUnLimitRange(b_e) => Some(BeforeUnLimitRange(if a_e <= b_e { a_e } else { b_e })),
            Any => Some(a),
            _ => {
                proof {
                    lemma_meet_symmetric(a@, b@);
                }
                same_level_dimension_intersection(b, a)
            },
        },
        Any => match b {
            Any => Some(a),
            _ => {
                proof {
                    lemma_meet_symmetric(a@, b@);
                }
                same_level_dimension_intersection(b, a)
            },
        },
    }
}

/// The product of two numbers, `None` where it does not fit in 64 bits.
fn times(a: i64, k: i64) -> (res: Option<i64>)
    ensures
        res == (if i64::MIN <= a * k <= i64::MAX {
            Some((a * k) as i64)
        } else {
            None
        }),
{
    a.checked_mul(k)
}

/// The last cell of the block of `k` cells that the cell `e` is made of,
/// `None` where its number does not fit in 64 bits.
fn block_end(e: i64, k: i64) -> (res: Option<i64>)
    requires
        k >= 1,
        -0x1_0000_0000 <= e <= 0x1_0000_0000,
    ensures
        res == (if i64::MIN <= (e + 1) * k - 1 <= i64::MAX {
            Some(((e + 1) * k - 1) as i64)
        } else {
            None
        }),
{
    let cells: i128 = e as i128 + 1;
    let block: i128 = k as i128;
    assert(-0x1_0000_0000_0000_0000_0000_0000 <= cells * block
        <= 0x1_0000_0000_0000_0000_0000_0000) by (nonlinear_arith)
        requires
            -0x1_0000_0000 <= cells <= 0x1_0000_0001,
            1 <= block <= 0x7fff_ffff_ffff_ffff,
    ;
    let end: i128 = cells * block - 1;
    if end < -0x8000_0000_0000_0000 || end > 0x7fff_ffff_ffff_ffff {
        None
    } else {
        Some(end as i64)
    }
}

/// What `change_scale_logic` returns, read as the model reads it.
pub open spec fn widened_view(res: Option<DimensionRange<i64>>) -> Option<DimensionRange<int>> {
    match res {
        Some(w) => Some(w@),
        None => None,
    }
}

/// The range on an axis with `k` cells to each cell of this one: `Some` of
/// the widened range, or `None` where a bound of it does not fit in 64 bits.
pub fn change_scale_logic(r: DimensionRange<i64>, k: i64) -> (res: Option<DimensionRange<i64>>)
    requires
        k >= 1,
        r@.bounds_within(-0x1_0000_0000, 0x1_0000_0000),
    ensures
        widened_view(res) == (if r@.widen(k as int).bounds_within(i64::MIN as int, i64::MAX as int) {
            Some(r@.widen(k as int))
        } else {
            None
        }),
{
    match r {
        Single(v) => match (times(v, k), block_end(v, k)) {
            (Some(start), Some(end)) => Some(LimitRange(start, end)),
            _ => None,
        },
        LimitRange(s, e) => match (times(s, k), block_end(e, k)) {
            (Some(start), Some(end)) => Some(LimitRange(start, end)),
            _ => None,
        },
        AfterUnLimitRange(s) => match times(s, k) {
            Some(start) => Some(AfterUnLimitRange(start)),
            None => None,
        },
        BeforeUnLimitRange(e) => match block_end(e, k) {
            Some(end) => Some(BeforeUnLimitRange(end)),
            None => None,
        },
        Any => Some(Any),
    }
}

/// A sequence of ranges, read as the model reads it.
pub open spec fn range_views(v: Seq<DimensionRange<i64>>) -> Seq<DimensionRange<int>> {
    Seq::new(v.len(), |k: int| v[k]@)
}

/// The pieces of the axis with bounds `b` that the range leaves out: what
/// lies below it, then what lies above it; at most two.
pub fn split_dimension(r: DimensionRange<i64>, b: Bounds) -> (res: Vec<DimensionRange<i64>>)
    requires
        r@.bounds_within(-0x1_0000_0000, 0x1_0000_0000),
    ensures
        range_views(res@) == r@.pieces(b@),
{
    let mut res: Vec<DimensionRange<i64>> = Vec::new();
    let lower = match r {
        LimitRange(s, _) => Some(s),
        AfterUnLimitRange(s) => Some(s),
        Single(v) => Some(v),
        BeforeUnLimitRange(_) => None,
        Any => None,
    };
    let upper = match r {
        LimitRange(_, e) => Some(e),
        BeforeUnLimitRange(e) => Some(e),
        Single(v) => Some(v),
        AfterUnLimitRange(_) => None,
        Any => None,
    };
    match lower {
        Some(lo) => {
            if lo > b.min {
                res.push(BeforeUnLimitRange(lo - 1));
            }
        },
        None => {},
    }
    assert(range_views(res@) =~= (match r@.below(b@) {
        Some(p) => seq![p],
        None => seq![],
    }));
    match upper {
        Some(hi) => {
            let at_top = match b.max {
                Some(m) => hi >= m,
                None => false,
            };
            if !at_top {
                let ghost before = range_views(res@);
                res.push(AfterUnLimitRange(hi + 1));
                assert(range_views(res@) =~= before.push(AfterUnLimitRange(hi + 1)));
            }
        },
        None => {},
    }
    res
}

/// What `to_continuous_range` returns, read as the model reads it.
pub open spec fn joined_view(res: Option<DimensionRange<i64>>) -> Option<DimensionRange<int>> {
    match res {
        Some(m) => Some(m@),
        None => None,
    }
}

/// The one range that holds what `target` and `other` hold, where one of them
/// ends right before the other starts; `None` where neither does.
pub fn to_continuous_range(target: DimensionRange<i64>, other: DimensionRange<i64>) -> (res: Option<
    DimensionRange<i64>,
>)
    requires
        target@.bounds_within(-0x1_0000_0000, 0x1_0000_0000),
        other@.bounds_within(-0x1_0000_0000, 0x1_0000_0000),
    ensures
        joined_view(res) == target@.join(other@),
{
    match target {
        Single(v) => match other {
            Single(s) => if v + 1 == s {
                Some(LimitRange(v, s))
            } else if s + 1 == v {
                Some(LimitRange(s, v))
            } else {
                None
            },
            LimitRange(s, e) => if v + 1 == s {
                Some(LimitRange(v, e))
            } else if e + 1 == v {
                Some(LimitRange(s, v))
            } else {
                None
            },
            AfterUnLimitRange(s) => if v + 1 == s {
                Some(AfterUnLimitRange(v))
            } else {
                None
            },
            BeforeUnLimitRange(e) => if e + 1 == v {
                Some(BeforeUnLimitRange(v))
            } else {
                None
            },
            Any => None,
        },
        LimitRange(vs, ve) => match other {
            Single(s) => if ve + 1 == s {
                Some(LimitRange(vs, s))
            } else if s + 1 == vs {
                Some(LimitRange(s, ve))
            } else {
                None
            },
            LimitRange(s, e) => if ve + 1 == s {
                Some(LimitRange(vs, e))
            } else if e + 1 == vs {
                Some(LimitRange(s, ve))
            } else {
                None
            },
            AfterUnLimitRange(s) => if ve + 1 == s {
                Some(AfterUnLimitRange(vs))
            } else {
                None
            },
            BeforeUnLimitRange(e) => if e + 1 == vs {
                Some(BeforeUnLimitRange(ve))
            } else {
                None
            },
            Any => None,
        },
        AfterUnLimitRange(vs) => match other {
            Single(s) => if s + 1 == vs {
                Some(AfterUnLimitRange(s))
            } else {
                None
            },
            LimitRange(s, e) => if e + 1 == vs {
                Some(AfterUnLimitRange(s))
            } else {
                None
            },
            BeforeUnLimitRange(e) => if e + 1 == vs {
                Some(Any)
            } else {
                None
            },
            AfterUnLimitRange(_) => None,
            Any => None,
        },
        BeforeUnLimitRange(ve) => match other {
            Single(s) => if ve + 1 == s {
                Some(BeforeUnLimitRange(s))
            } else {
                None
            },
            LimitRange(s, e) => if ve + 1 == s {
                Some(BeforeUnLimitRange(e))
            } else {
                None
            },
            AfterUnLimitRange(s) => if ve + 1 == s {
                Some(Any)
            } else {
                None
            },
            BeforeUnLimitRange(_) => None,
            Any => None,
        },
        Any => None,
    }
}

/// The range is made of whole blocks of `k` cells, for a range whose bounds
/// are at least `-offset`, where `offset` is itself made of whole blocks.
pub fn aligned_to(r: DimensionRange<i64>, offset: i64, k: i64) -> (b: bool)
    requires
        1 <= k <= 0x1_0000_0000,
        0 <= offset <= 0x1_0000_0000,
        offset % k == 0,
        r@.bounds_within(-(offset as int), 0x1_0000_0000),
    ensures
        b == r@.aligned(k as int),
{
    proof {
        lemma_fundamental_div_mod(offset as int, k as int);
        let q = offset as int / k as int;
        assert(offset == q * k) by (nonlinear_arith)
            requires
                offset == k * q + 0,
        ;
        if r@.lower() is Some {
            lemma_shift_div_mod(r@.lower()->0, q, k as int);
        }
        if r@.upper() is Some {
            lemma_shift_div_mod(r@.upper()->0 + 1, q, k as int);
        }
    }
    match r {
        Single(_) => k == 1,
        LimitRange(s, e) => (s + offset) % k == 0 && (e + 1 + offset) % k == 0,
        AfterUnLimitRange(s) => (s + offset) % k == 0,
        BeforeUnLimitRange(e) => (e + 1 + offset) % k == 0,
        Any => true,
    }
}

/// The range of the blocks of `k` cells that an aligned range is made of,
/// for a range whose bounds are at least `-offset`, where `offset` is itself
/// made of whole blocks.
pub fn narrow_to(r: DimensionRange<i64>, offset: i64, k: i64) -> (res: DimensionRange<i64>)
    requires
        1 <= k <= 0x1_0000_0000,
        0 <= offset <= 0x1_0000_0000,
        offset % k == 0,
        r@.bounds_within(-(offset as int), 0x1_0000_0000),
    ensures
        res@ == r@.narrow(k as int),
{
    let shift = offset / k;
    proof {
        lemma_fundamental_div_mod(offset as int, k as int);
        let q = offset as int / k as int;
        assert(offset == q * k) by (nonlinear_arith)
            requires
                offset == k * q + 0,
        ;
        if r@.lower() is Some {
            lemma_shift_div_mod(r@.lower()->0, q, k as int);
            lemma_div_bounds(r@.lower()->0 + offset, k as int, 0);
            lemma_div_bounds(r@.lower()->0 + offset, k as int, 0x2_0000_0000);
        }
        if r@.upper() is Some {
            lemma_shift_div_mod(r@.upper()->0 + 1, q, k as int);
            lemma_div_bounds(r@.upper()->0 + 1 + offset, k as int, 0);
            lemma_div_bounds(r@.upper()->0 + 1 + offset, k as int, 0x2_0000_0001);
        }
        lemma_div_bounds(offset as int, k as int, 0);
        lemma_div_bounds(offset as int, k as int, 0x1_0000_0000);
        assert((0x2_0000_0000 + 1) * k >= 0x2_0000_0001) by (nonlinear_arith)
            requires
                k >= 1,
        ;
        assert((0x2_0000_0001 + 1) * k >= 0x2_0000_0002) by (nonlinear_arith)
            requires
                k >= 1,
        ;
        assert((0x1_0000_0000 + 1) * k >= 0x1_0000_0001) by (nonlinear_arith)
            requires
                k >= 1,
        ;
    }
    match r {
        Single(v) => Single((v + offset) / k - shift),
        LimitRange(s, e) => LimitRange((s + offset) / k - shift, (e + 1 + offset) / k - shift - 1),
        AfterUnLimitRange(s) => AfterUnLimitRange((s + offset) / k - shift),
        BeforeUnLimitRange(e) => BeforeUnLimitRange((e + 1 + offset) / k - shift - 1),
        Any => Any,
    }
}

/// Two ranges are the same range.
pub fn same_range(a: DimensionRange<i64>, b: DimensionRange<i64>) -> (r: bool)
    ensures
        r == (a@ == b@),
{
    match (a, b) {
        (LimitRange(s, e), LimitRange(s2, e2)) => s == s2 && e == e2,
        (BeforeUnLimitRange(e), BeforeUnLimitRange(e2)) => e == e2,
        (AfterUnLimitRange(s), AfterUnLimitRange(s2)) => s == s2,
        (Single(v), Single(v2)) => v == v2,
        (Any, Any) => true,
        _ => false,
    }
}

/// The range with its bounds as 64-bit integers.
pub fn lift_u32(r: DimensionRange<u32>) -> (res: DimensionRange<i64>)
    ensures
        res@ == r@,
{
    match r {
        LimitRange(s, e) => LimitRange(s as i64, e as i64),
        BeforeUnLimitRange(e) => BeforeUnLimitRange(e as i64),
        AfterUnLimitRange(s) => AfterUnLimitRange(s as i64),
        Single(v) => Single(v as i64),
        Any => Any,
    }
}

/// The range with its bounds as 64-bit integers.
pub fn lift_i32(r: DimensionRange<i32>) -> (res: DimensionRange<i64>)
    ensures
        res@ == r@,
{
    match r {
        LimitRange(s, e) => LimitRange(s as i64, e as i64),
        BeforeUnLimitRange(e) => BeforeUnLimitRange(e as i64),
        AfterUnLimitRange(s) => AfterUnLimitRange(s as i64),
        Single(v) => Single(v as i64),
        Any => Any,
    }
}

/// The range with its bounds as unsigned 32-bit integers, which they fit.
pub fn lower_u32(r: DimensionRange<i64>) -> (res: DimensionRange<u32>)
    requires
        r@.bounds_within(0, u32::MAX as int),
    ensures
        res@ == r@,
{
    match r {
        LimitRange(s, e) => LimitRange(s as u32, e as u32),
        BeforeUnLimitRange(e) => BeforeUnLimitRange(e as u32),
        AfterUnLimitRange(s) => AfterUnLimitRange(s as u32),
        Single(v) => Single(v as u32),
        Any => Any,
    }
}

/// The range with its bounds as signed 32-bit integers, which they fit.
pub fn lower_i32(r: DimensionRange<i64>) -> (res: DimensionRange<i32>)
    requires
        r@.bounds_within(i32::MIN as int, i32::MAX as int),
    ensures
        res@ == r@,
{
    match r {
        LimitRange(s, e) => LimitRange(s as i32, e as i32),
        BeforeUnLimitRange(e) => BeforeUnLimitRange(e as i32),
        AfterUnLimitRange(s) => AfterUnLimitRange(s as i32),
        Single(v) => Single(v as i32),
        Any => Any,
    }
}

/// Two to the power `k`.
pub fn pow2_i64(k: u8) -> (r: i64)
    requires
        k <= 32,
    ensures
        r == pow2(k as nat),
        1 <= r <= 0x1_0000_0000,
{
    let mut r: i64 = 1;
    let mut j: u8 = 0;
    proof {
        lemma2_to64();
    }
    while j < k
        invariant
            j <= k <= 32,
            r == pow2(j as nat),
            1 <= r <= 0x1_0000_0000,
            pow2(32) == 0x1_0000_0000,
        decreases k - j,
    {
        proof {
            lemma_pow2_unfold((j + 1) as nat);
            if j + 1 < 32 {
                lemma_pow2_strictly_increases((j + 1) as nat, 32);
            }
        }
        r = r * 2;
        j = j + 1;
    }
    r
}

} // verus!
