//! The identifier, the range of one axis, and the errors of construction.

use vstd::prelude::*;
use vstd::arithmetic::power2::{lemma2_to64, lemma_pow2_pos, lemma_pow2_strictly_increases, pow2};
use crate::id::range::{
    lemma_canonical_bounds, lemma_normalize_canonical, lemma_normalize_keeps_values, lift_i32,
    lift_u32, lower_i32, lower_u32, normalize, pow2_i64, Bounds, Domain, RangeFault,
};

pub mod bounds;
pub mod complement;
pub mod contain;
pub mod cover;
pub mod parse;
pub mod pure;
pub mod range;
pub mod relation;
pub mod scale;
pub mod text;
pub mod to_pure;
pub mod value;
pub mod with;

verus! {

/// The values that an identifier covers on one axis.
#[derive(Debug, Clone, Copy, Hash, PartialEq, Eq, PartialOrd, Ord, Structural)]
pub enum DimensionRange<T> {
    /// Every value from the first to the second, both included.
    LimitRange(T, T),
    /// Every value of the axis up to the given one.
    BeforeUnLimitRange(T),
    /// Every value of the axis from the given one on.
    AfterUnLimitRange(T),
    /// One value.
    Single(T),
    /// Every value of the axis.
    Any,
}

impl View for DimensionRange<u32> {
    type V = DimensionRange<int>;

    open spec fn view(&self) -> DimensionRange<int> {
        match *self {
            DimensionRange::LimitRange(s, e) => DimensionRange::LimitRange(s as int, e as int),
            DimensionRange::BeforeUnLimitRange(e) => DimensionRange::BeforeUnLimitRange(e as int),
            DimensionRange::AfterUnLimitRange(s) => DimensionRange::AfterUnLimitRange(s as int),
            DimensionRange::Single(v) => DimensionRange::Single(v as int),
            DimensionRange::Any => DimensionRange::Any,
        }
    }
}

impl View for DimensionRange<i32> {
    type V = DimensionRange<int>;

    open spec fn view(&self) -> DimensionRange<int> {
        match *self {
            DimensionRange::LimitRange(s, e) => DimensionRange::LimitRange(s as int, e as int),
            DimensionRange::BeforeUnLimitRange(e) => DimensionRange::BeforeUnLimitRange(e as int),
            DimensionRange::AfterUnLimitRange(s) => DimensionRange::AfterUnLimitRange(s as int),
            DimensionRange::Single(v) => DimensionRange::Single(v as int),
            DimensionRange::Any => DimensionRange::Any,
        }
    }
}

impl View for DimensionRange<i64> {
    type V = DimensionRange<int>;

    open spec fn view(&self) -> DimensionRange<int> {
        match *self {
            DimensionRange::LimitRange(s, e) => DimensionRange::LimitRange(s as int, e as int),
            DimensionRange::BeforeUnLimitRange(e) => DimensionRange::BeforeUnLimitRange(e as int),
            DimensionRange::AfterUnLimitRange(s) => DimensionRange::AfterUnLimitRange(s as int),
            DimensionRange::Single(v) => DimensionRange::Single(v as int),
            DimensionRange::Any => DimensionRange::Any,
        }
    }
}

/// One of the four axes of an identifier.
#[derive(Debug, Clone, Copy, PartialEq, Eq, Structural)]
pub enum Axis {
    /// The vertical axis.
    F,
    /// The first horizontal axis.
    X,
    /// The second horizontal axis.
    Y,
    /// The time axis.
    T,
}

/// Why an identifier cannot be brought to another zoom level or interval.
#[derive(Debug, Clone, Copy, PartialEq, Eq, Structural)]
pub enum ScaleFault {
    /// The zoom level asked for is coarser than the identifier's.
    CoarserZoom,
    /// An identifier with a time interval was asked to take the interval 0.
    TimeDropped,
    /// The interval asked for is longer than the identifier's.
    LongerInterval,
    /// A time index of the result does not fit in 32 bits.
    TimeOverflow,
}

/// Why an identifier was refused.
#[derive(Debug, Clone, Copy, PartialEq, Eq, Structural)]
pub enum IdError {
    /// The zoom level is 32 or more.
    ResolutionTooLarge(u8),
    /// A bound of the range on the named axis is no value of that axis at the
    /// zoom level.
    OutOfRange(Axis),
    /// The range on the named axis starts, at the first number, after its end,
    /// the second.
    InvalidOrder(Axis, i64, i64),
    /// The interval is 0 and the time range is not `Any`.
    InvalidTimeConfiguration,
    /// The identifier cannot be scaled as asked.
    ScaleError(ScaleFault),
}

/// The greatest zoom level plus one.
pub const ZOOM_LIMIT: u8 = 32;

/// A box of cells in space and time: a zoom level `z`, the ranges `f`, `x` and
/// `y` that it covers on the vertical and the two horizontal axes at that
/// level, the length `i` of a time interval in seconds, and the range `t` of
/// intervals that it covers. With `i == 0` it covers all time.
///
/// A value is made by [`SpaceTimeId::new`] alone, which brings each range to
/// its canonical form.
#[derive(Debug, Clone, Copy, Hash, PartialEq, Eq, PartialOrd, Ord, Structural)]
pub struct SpaceTimeId {
    z: u8,
    f: DimensionRange<i32>,
    x: DimensionRange<u32>,
    y: DimensionRange<u32>,
    i: u32,
    t: DimensionRange<u32>,
}

/// What an identifier is: its six fields as mathematical values.
pub struct IdView {
    pub z: int,
    pub f: DimensionRange<int>,
    pub x: DimensionRange<int>,
    pub y: DimensionRange<int>,
    pub i: int,
    pub t: DimensionRange<int>,
}

/// The horizontal axes at zoom level `z`: the values `0` to `2^z - 1`.
pub open spec fn xy_domain(z: int) -> Domain {
    Domain { min: 0, max: Some(pow2(z as nat) - 1) }
}

/// The vertical axis at zoom level `z`: the values `-2^z` to `2^z - 1`.
pub open spec fn f_domain(z: int) -> Domain {
    Domain { min: -pow2(z as nat), max: Some(pow2(z as nat) - 1) }
}

/// The time axis: the indices from `0` on, without end.
pub open spec fn t_domain() -> Domain {
    Domain { min: 0, max: None }
}

/// The error that a fault of the range `r` on `axis` is reported as.
pub open spec fn axis_error(axis: Axis, fault: RangeFault, r: DimensionRange<int>) -> IdError {
    match fault {
        RangeFault::OutOfRange => IdError::OutOfRange(axis),
        RangeFault::InvalidOrder => IdError::InvalidOrder(
            axis,
            r.lower().unwrap_or(0) as i64,
            r.upper().unwrap_or(0) as i64,
        ),
    }
}

/// The identifier that the six values make, or the first fault among them:
/// the zoom level, then the ranges of `x`, `y` and `f`, then the time.
pub open spec fn model_new(
    z: int,
    f: DimensionRange<int>,
    x: DimensionRange<int>,
    y: DimensionRange<int>,
    i: int,
    t: DimensionRange<int>,
) -> Result<IdView, IdError> {
    if z >= 32 {
        Err(IdError::ResolutionTooLarge(z as u8))
    } else if x.normalize(xy_domain(z)) is Err {
        Err(axis_error(Axis::X, x.normalize(xy_domain(z))->Err_0, x))
    } else if y.normalize(xy_domain(z)) is Err {
        Err(axis_error(Axis::Y, y.normalize(xy_domain(z))->Err_0, y))
    } else if f.normalize(f_domain(z)) is Err {
        Err(axis_error(Axis::F, f.normalize(f_domain(z))->Err_0, f))
    } else if i == 0 && !(t is Any) {
        Err(IdError::InvalidTimeConfiguration)
    } else if t.normalize(t_domain()) is Err {
        Err(axis_error(Axis::T, t.normalize(t_domain())->Err_0, t))
    } else {
        Ok(
            IdView {
                z,
                f: f.normalize(f_domain(z))->Ok_0,
                x: x.normalize(xy_domain(z))->Ok_0,
                y: y.normalize(xy_domain(z))->Ok_0,
                i,
                t: t.normalize(t_domain())->Ok_0,
            },
        )
    }
}

impl IdView {
    /// The identifier is one that [`SpaceTimeId::new`] returns: the zoom level
    /// is below 32, each range is canonical on its axis, and with the
    /// interval 0 the time range is `Any`.
    pub open spec fn wf(self) -> bool {
        &&& 0 <= self.z < 32
        &&& self.f.canonical(f_domain(self.z))
        &&& self.x.canonical(xy_domain(self.z))
        &&& self.y.canonical(xy_domain(self.z))
        &&& 0 <= self.i <= u32::MAX
        &&& self.t.canonical(t_domain())
        &&& self.t.bounds_within(0, u32::MAX as int)
        &&& (self.i == 0 ==> self.t is Any)
    }
}

/// What [`SpaceTimeId::new`] returns, read as the model reads it.
pub open spec fn id_result_view(res: Result<SpaceTimeId, IdError>) -> Result<IdView, IdError> {
    match res {
        Ok(id) => Ok(id@),
        Err(e) => Err(e),
    }
}

impl View for SpaceTimeId {
    type V = IdView;

    closed spec fn view(&self) -> IdView {
        IdView {
            z: self.z as int,
            f: self.f@,
            x: self.x@,
            y: self.y@,
            i: self.i as int,
            t: self.t@,
        }
    }
}

/// Two identifiers with the same six values are the same identifier.
pub proof fn lemma_view_injective(a: SpaceTimeId, b: SpaceTimeId)
    ensures
        a@ == b@ <==> a == b,
{
    if a@ == b@ {
        assert(a.f@ == b.f@);
        assert(a.x@ == b.x@);
        assert(a.y@ == b.y@);
        assert(a.t@ == b.t@);
    }
}

/// The sides of the grid at a zoom level below 32 fit in 32 bits.
pub proof fn lemma_domain_fits(z: int)
    requires
        0 <= z < 32,
    ensures
        1 <= pow2(z as nat) <= 0x8000_0000,
        xy_domain(z).inhabited(),
        f_domain(z).inhabited(),
{
    lemma2_to64();
    lemma_pow2_pos(z as nat);
    if z < 31 {
        lemma_pow2_strictly_increases(z as nat, 31);
    }
}

/// What [`SpaceTimeId::new`] accepts, it returns well-formed.
pub proof fn lemma_new_wf(
    z: int,
    f: DimensionRange<int>,
    x: DimensionRange<int>,
    y: DimensionRange<int>,
    i: int,
    t: DimensionRange<int>,
)
    requires
        0 <= z,
        0 <= i <= u32::MAX,
        t.bounds_within(0, u32::MAX as int),
    ensures
        model_new(z, f, x, y, i, t) matches Ok(v) ==> v.wf(),
{
    if model_new(z, f, x, y, i, t) is Ok {
        lemma_normalize_keeps_values(x, xy_domain(z));
        lemma_normalize_keeps_values(y, xy_domain(z));
        lemma_normalize_keeps_values(f, f_domain(z));
        lemma_normalize_keeps_values(t, t_domain());
    }
}

/// Building an identifier again from the fields of a well-formed one gives
/// that identifier: what is canonical stays as it is.
pub proof fn lemma_new_idempotent(v: IdView)
    requires
        v.wf(),
    ensures
        model_new(v.z, v.f, v.x, v.y, v.i, v.t) == Ok::<IdView, IdError>(v),
{
    lemma_normalize_canonical(v.x, xy_domain(v.z));
    lemma_normalize_canonical(v.y, xy_domain(v.z));
    lemma_normalize_canonical(v.f, f_domain(v.z));
    lemma_normalize_canonical(v.t, t_domain());
}

/// The error that a fault of the range `r` on `axis` is reported as.
fn report(axis: Axis, fault: RangeFault, r: DimensionRange<i64>) -> (e: IdError)
    ensures
        e == axis_error(axis, fault, r@),
{
    match fault {
        RangeFault::OutOfRange => IdError::OutOfRange(axis),
        RangeFault::InvalidOrder => match r {
            DimensionRange::LimitRange(s, e) => IdError::InvalidOrder(axis, s, e),
            DimensionRange::BeforeUnLimitRange(e) => IdError::InvalidOrder(axis, 0, e),
            DimensionRange::AfterUnLimitRange(s) => IdError::InvalidOrder(axis, s, 0),
            DimensionRange::Single(v) => IdError::InvalidOrder(axis, v, v),
            DimensionRange::Any => IdError::InvalidOrder(axis, 0, 0),
        },
    }
}

impl SpaceTimeId {
    /// The identifier is well-formed, as every value of this type is that
    /// came from [`SpaceTimeId::new`].
    pub open spec fn wf(&self) -> bool {
        self@.wf()
    }

    /// Makes an identifier from a zoom level, a range on each spatial axis, an
    /// interval and a range of time indices, each range brought to its
    /// canonical form at that zoom level.
    ///
    /// It fails with `ResolutionTooLarge` for a zoom level of 32 or more, with
    /// `InvalidOrder` for a `LimitRange` that starts after its end, with
    /// `OutOfRange` for a bound outside the axis, and with
    /// `InvalidTimeConfiguration` for a time range other than `Any` beside the
    /// interval 0. Of several faults the first is reported, in the order zoom
    /// level, `x`, `y`, `f`, time.
    pub fn new(
        z: u8,
        f: DimensionRange<i32>,
        x: DimensionRange<u32>,
        y: DimensionRange<u32>,
        i: u32,
        t: DimensionRange<u32>,
    ) -> (res: Result<Self, IdError>)
        ensures
            id_result_view(res) == model_new(z as int, f@, x@, y@, i as int, t@),
            res matches Ok(id) ==> id.wf(),
    {
        if z >= ZOOM_LIMIT {
            return Err(IdError::ResolutionTooLarge(z));
        }
        let side = pow2_i64(z);
        let xy = Bounds { min: 0, max: Some(side - 1) };
        let fb = Bounds { min: -side, max: Some(side - 1) };
        let tb = Bounds { min: 0, max: None };
        proof {
            lemma_domain_fits(z as int);
            assert(xy@ == xy_domain(z as int));
            assert(fb@ == f_domain(z as int));
            assert(tb@ == t_domain());
            lemma_new_wf(z as int, f@, x@, y@, i as int, t@);
        }
        let nx = match normalize(lift_u32(x), xy) {
            Ok(n) => n,
            Err(e) => {
                return Err(report(Axis::X, e, lift_u32(x)));
            },
        };
        let ny = match normalize(lift_u32(y), xy) {
            Ok(n) => n,
            Err(e) => {
                return Err(report(Axis::Y, e, lift_u32(y)));
            },
        };
        let nf = match normalize(lift_i32(f), fb) {
            Ok(n) => n,
            Err(e) => {
                return Err(report(Axis::F, e, lift_i32(f)));
            },
        };
        if i == 0 {
            match t {
                DimensionRange::Any => {},
                _ => {
                    return Err(IdError::InvalidTimeConfiguration);
                },
            }
        }
        let nt = match normalize(lift_u32(t), tb) {
            Ok(n) => n,
            Err(e) => {
                return Err(report(Axis::T, e, lift_u32(t)));
            },
        };
        proof {
            lemma_normalize_keeps_values(x@, xy_domain(z as int));
            lemma_normalize_keeps_values(y@, xy_domain(z as int));
            lemma_normalize_keeps_values(f@, f_domain(z as int));
            lemma_normalize_keeps_values(t@, t_domain());
            lemma_canonical_bounds(nx@, xy_domain(z as int));
            lemma_canonical_bounds(ny@, xy_domain(z as int));
            lemma_canonical_bounds(nf@, f_domain(z as int));
            assert(t@.bounds_within(0, u32::MAX as int));
        }
        Ok(
            SpaceTimeId {
                z,
                f: lower_i32(nf),
                x: lower_u32(nx),
                y: lower_u32(ny),
                i,
                t: lower_u32(nt),
            },
        )
    }
}

} // verus!
