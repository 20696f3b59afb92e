//! The written form of ranges, identifiers and errors.

use vstd::prelude::*;
use vstd::string::StringExecFns;
use crate::id::range::{lift_i32, lift_u32};
use crate::id::{Axis, DimensionRange, IdError, IdView, ScaleFault, SpaceTimeId};

verus! {

/// The character of a decimal digit.
pub open spec fn digit(d: int) -> char {
    if d == 0 {
        '0'
    } else if d == 1 {
        '1'
    } else if d == 2 {
        '2'
    } else if d == 3 {
        '3'
    } else if d == 4 {
        '4'
    } else if d == 5 {
        '5'
    } else if d == 6 {
        '6'
    } else if d == 7 {
        '7'
    } else if d == 8 {
        '8'
    } else {
        '9'
    }
}

/// A natural number in decimal digits, without leading zeros.
pub open spec fn decimal(n: nat) -> Seq<char>
    decreases n,
{
    if n < 10 {
        seq![digit(n as int)]
    } else {
        decimal(n / 10).push(digit((n % 10) as int))
    }
}

/// An integer in decimal digits, with a minus sign before a negative one.
pub open spec fn signed(v: int) -> Seq<char> {
    if v < 0 {
        seq!['-'] + decimal((-v) as nat)
    } else {
        decimal(v as nat)
    }
}

/// A range as it is written: `v` for a single value, `s:e` for the values
/// from `s` to `e`, `-:e` and `s:-` for the ranges open at one end, and `-`
/// for every value.
pub open spec fn range_text(r: DimensionRange<int>) -> Seq<char> {
    match r {
        DimensionRange::Single(v) => signed(v),
        DimensionRange::LimitRange(s, e) => signed(s) + seq![':'] + signed(e),
        DimensionRange::BeforeUnLimitRange(e) => seq!['-', ':'] + signed(e),
        DimensionRange::AfterUnLimitRange(s) => signed(s) + seq![':', '-'],
        DimensionRange::Any => seq!['-'],
    }
}

/// The spatial part of an identifier as it is written: `z/f/x/y`.
pub open spec fn space_text(v: IdView) -> Seq<char> {
    signed(v.z) + seq!['/'] + range_text(v.f) + seq!['/'] + range_text(v.x) + seq!['/']
        + range_text(v.y)
}

/// The time part of an identifier as it is written: `_i/t`.
pub open spec fn time_text(v: IdView) -> Seq<char> {
    seq!['_'] + signed(v.i) + seq!['/'] + range_text(v.t)
}

/// An identifier as it is written: `z/f/x/y_i/t`, each range written as
/// [`range_text`] says.
pub open spec fn id_text(v: IdView) -> Seq<char> {
    space_text(v) + time_text(v)
}

/// An identifier as it is written for inspection, with the horizontal
/// ranges before the vertical one: `z/x/y/f_i/t`.
pub open spec fn inspect_text(v: IdView) -> Seq<char> {
    signed(v.z) + seq!['/'] + range_text(v.x) + seq!['/'] + range_text(v.y) + seq!['/']
        + range_text(v.f) + time_text(v)
}

/// The identifiers of a sequence as they are written for inspection, one
/// after the other with `, ` between them.
pub open spec fn inspect_texts(s: Seq<IdView>) -> Seq<char>
    decreases s.len(),
{
    if s.len() == 0 {
        Seq::empty()
    } else if s.len() == 1 {
        inspect_text(s[0])
    } else {
        inspect_texts(s.drop_last()) + seq![',', ' '] + inspect_text(s.last())
    }
}

/// The identifiers of a sequence as they are written, one after the other
/// with `, ` between them.
pub open spec fn ids_text(s: Seq<IdView>) -> Seq<char>
    decreases s.len(),
{
    if s.len() == 0 {
        Seq::empty()
    } else if s.len() == 1 {
        id_text(s[0])
    } else {
        ids_text(s.drop_last()) + seq![',', ' '] + id_text(s.last())
    }
}

/// The name of an axis in a message.
pub open spec fn axis_name(axis: Axis) -> Seq<char> {
    match axis {
        Axis::F => seq!['f'],
        Axis::X => seq!['x'],
        Axis::Y => seq!['y'],
        Axis::T => seq!['t'],
    }
}

/// The message of an error.
pub open spec fn error_text(e: IdError) -> Seq<char> {
    match e {
        IdError::ResolutionTooLarge(z) => "Zoom level z must be less than 32. Got "@ + signed(
            z as int,
        ),
        IdError::OutOfRange(axis) => "Invalid "@ + axis_name(axis)
            + " dimension: a value is out of range for the zoom level"@,
        IdError::InvalidOrder(axis, s, e) => "Invalid "@ + axis_name(axis)
            + " dimension: start value "@ + signed(s as int) + " cannot be greater than end value "@
            + signed(e as int),
        IdError::InvalidTimeConfiguration => "t must be Any when time interval i is 0"@,
        IdError::ScaleError(ScaleFault::CoarserZoom) => "Target zoom level must be finer than or equal to the current zoom level"@,
        IdError::ScaleError(ScaleFault::TimeDropped) => "An identifier with a time interval cannot be scaled to the interval 0"@,
        IdError::ScaleError(ScaleFault::LongerInterval) => "Target time interval must not be longer than the current time interval"@,
        IdError::ScaleError(ScaleFault::TimeOverflow) => "A time index does not fit in 32 bits at the target time interval"@,
    }
}

/// Appends one decimal digit.
fn push_digit(out: &mut String, d: u64)
    requires
        d < 10,
    ensures
        final(out)@ == old(out)@.push(digit(d as int)),
{
    proof {
        reveal_strlit("0");
        reveal_strlit("1");
        reveal_strlit("2");
        reveal_strlit("3");
        reveal_strlit("4");
        reveal_strlit("5");
        reveal_strlit("6");
        reveal_strlit("7");
        reveal_strlit("8");
        reveal_strlit("9");
    }
    let ghost before = out@;
    if d == 0 {
        out.append("0");
        assert(out@ =~= before.push('0'));
    } else if d == 1 {
        out.append("1");
        assert(out@ =~= before.push('1'));
    } else if d == 2 {
        out.append("2");
        assert(out@ =~= before.push('2'));
    } else if d == 3 {
        out.append("3");
        assert(out@ =~= before.push('3'));
    } else if d == 4 {
        out.append("4");
        assert(out@ =~= before.push('4'));
    } else if d == 5 {
        out.append("5");
        assert(out@ =~= before.push('5'));
    } else if d == 6 {
        out.append("6");
        assert(out@ =~= before.push('6'));
    } else if d == 7 {
        out.append("7");
        assert(out@ =~= before.push('7'));
    } else if d == 8 {
        out.append("8");
        assert(out@ =~= before.push('8'));
    } else {
        out.append("9");
        assert(out@ =~= before.push('9'));
    }
}

/// Appends a natural number in decimal digits.
pub fn push_decimal(out: &mut String, n: u64)
    ensures
        final(out)@ == old(out)@ + decimal(n as nat),
    decreases n,
{
    let ghost before = out@;
    if n >= 10 {
        push_decimal(out, n / 10);
        push_digit(out, n % 10);
        assert(out@ =~= before + decimal(n as nat));
    } else {
        push_digit(out, n);
        assert(out@ =~= before + decimal(n as nat));
    }
}

/// Appends an integer in decimal digits.
pub fn push_signed(out: &mut String, v: i64)
    requires
        v > i64::MIN,
    ensures
        final(out)@ == old(out)@ + signed(v as int),
{
    let ghost before = out@;
    if v < 0 {
        proof {
            reveal_strlit("-");
        }
        out.append("-");
        assert(out@ =~= before + seq!['-']);
        push_decimal(out, (-v) as u64);
        assert(out@ =~= before + signed(v as int));
    } else {
        push_decimal(out, v as u64);
    }
}

/// Appends a range as it is written.
pub fn push_range(out: &mut String, r: DimensionRange<i64>)
    requires
        r@.bounds_within(-0x1_0000_0000, 0x1_0000_0000),
    ensures
        final(out)@ == old(out)@ + range_text(r@),
{
    let ghost before = out@;
    proof {
        reveal_strlit("-");
        reveal_strlit(":");
        reveal_strlit("-:");
        reveal_strlit(":-");
    }
    match r {
        DimensionRange::Single(v) => {
            push_signed(out, v);
        },
        DimensionRange::LimitRange(s, e) => {
            push_signed(out, s);
            out.append(":");
            push_signed(out, e);
            assert(out@ =~= before + range_text(r@));
        },
        DimensionRange::BeforeUnLimitRange(e) => {
            out.append("-:");
            push_signed(out, e);
            assert(out@ =~= before + range_text(r@));
        },
        DimensionRange::AfterUnLimitRange(s) => {
            push_signed(out, s);
            out.append(":-");
            assert(out@ =~= before + range_text(r@));
        },
        DimensionRange::Any => {
            out.append("-");
            assert(out@ =~= before + range_text(r@));
        },
    }
}

/// Appends the name of an axis.
fn push_axis(out: &mut String, axis: Axis)
    ensures
        final(out)@ == old(out)@ + axis_name(axis),
{
    let ghost before = out@;
    proof {
        reveal_strlit("f");
        reveal_strlit("x");
        reveal_strlit("y");
        reveal_strlit("t");
    }
    match axis {
        Axis::F => {
            out.append("f");
        },
        Axis::X => {
            out.append("x");
        },
        Axis::Y => {
            out.append("y");
        },
        Axis::T => {
            out.append("t");
        },
    }
    assert(out@ =~= before + axis_name(axis));
}

impl DimensionRange<u32> {
    /// The range as it is written.
    pub fn to_string(&self) -> (res: String)
        ensures
            res@ == range_text(self@),
    {
        let mut out = String::new();
        push_range(&mut out, lift_u32(*self));
        assert(out@ =~= range_text(self@));
        out
    }
}

impl DimensionRange<i32> {
    /// The range as it is written.
    pub fn to_string(&self) -> (res: String)
        ensures
            res@ == range_text(self@),
    {
        let mut out = String::new();
        push_range(&mut out, lift_i32(*self));
        assert(out@ =~= range_text(self@));
        out
    }
}

impl SpaceTimeId {
    /// Appends the spatial part of the identifier as it is written.
    fn write_space(&self, out: &mut String)
        ensures
            final(out)@ == old(out)@ + space_text(self@),
    {
        let ghost before = out@;
        proof {
            reveal_strlit("/");
        }
        push_signed(out, self.z() as i64);
        out.append("/");
        let ghost first = out@;
        assert(first =~= before + (signed(self@.z) + seq!['/']));
        push_range(out, lift_i32(self.f()));
        out.append("/");
        let ghost second = out@;
        assert(second =~= before + (signed(self@.z) + seq!['/'] + range_text(self@.f) + seq!['/']));
        push_range(out, lift_u32(self.x()));
        out.append("/");
        let ghost third = out@;
        assert(third =~= before + (signed(self@.z) + seq!['/'] + range_text(self@.f) + seq!['/']
            + range_text(self@.x) + seq!['/']));
        push_range(out, lift_u32(self.y()));
        assert(out@ =~= before + space_text(self@));
    }

    /// Appends the time part of the identifier as it is written.
    fn write_time(&self, out: &mut String)
        ensures
            final(out)@ == old(out)@ + time_text(self@),
    {
        let ghost before = out@;
        proof {
            reveal_strlit("/");
            reveal_strlit("_");
        }
        out.append("_");
        push_signed(out, self.i() as i64);
        out.append("/");
        let ghost first = out@;
        assert(first =~= before + (seq!['_'] + signed(self@.i) + seq!['/']));
        push_range(out, lift_u32(self.t()));
        assert(out@ =~= before + time_text(self@));
    }

    /// Appends the identifier as it is written for inspection.
    pub fn inspect_to(&self, out: &mut String)
        ensures
            final(out)@ == old(out)@ + inspect_text(self@),
    {
        let ghost before = out@;
        proof {
            reveal_strlit("/");
        }
        push_signed(out, self.z() as i64);
        out.append("/");
        let ghost first = out@;
        assert(first =~= before + (signed(self@.z) + seq!['/']));
        push_range(out, lift_u32(self.x()));
        out.append("/");
        let ghost second = out@;
        assert(second =~= before + (signed(self@.z) + seq!['/'] + range_text(self@.x) + seq!['/']));
        push_range(out, lift_u32(self.y()));
        out.append("/");
        let ghost third = out@;
        assert(third =~= before + (signed(self@.z) + seq!['/'] + range_text(self@.x) + seq!['/']
            + range_text(self@.y) + seq!['/']));
        push_range(out, lift_i32(self.f()));
        let ghost fourth = out@;
        assert(fourth =~= before + (signed(self@.z) + seq!['/'] + range_text(self@.x) + seq!['/']
            + range_text(self@.y) + seq!['/'] + range_text(self@.f)));
        self.write_time(out);
        assert(out@ =~= before + inspect_text(self@));
    }

    /// Appends the identifier as it is written.
    pub fn write_to(&self, out: &mut String)
        ensures
            final(out)@ == old(out)@ + id_text(self@),
    {
        let ghost before = out@;
        self.write_space(out);
        self.write_time(out);
        assert(out@ =~= before + id_text(self@));
    }

    /// The identifier as it is written: `z/f/x/y_i/t`.
    pub fn to_string(&self) -> (res: String)
        ensures
            res@ == id_text(self@),
    {
        let mut out = String::new();
        self.write_to(&mut out);
        assert(out@ =~= id_text(self@));
        out
    }
}

impl IdError {
    /// The message of the error.
    pub fn to_string(&self) -> (res: String)
        ensures
            res@ == error_text(*self),
    {
        let mut out = String::new();
        match *self {
            IdError::ResolutionTooLarge(z) => {
                out.append("Zoom level z must be less than 32. Got ");
                push_signed(&mut out, z as i64);
                assert(out@ =~= error_text(*self));
            },
            IdError::OutOfRange(axis) => {
                out.append("Invalid ");
                push_axis(&mut out, axis);
                out.append(" dimension: a value is out of range for the zoom level");
                assert(out@ =~= error_text(*self));
            },
            IdError::InvalidOrder(axis, s, e) => {
                out.append("Invalid ");
                push_axis(&mut out, axis);
                out.append(" dimension: start value ");
                if s > i64::MIN {
                    push_signed(&mut out, s);
                } else {
                    Self::push_least(&mut out);
                }
                out.append(" cannot be greater than end value ");
                if e > i64::MIN {
                    push_signed(&mut out, e);
                } else {
                    Self::push_least(&mut out);
                }
                assert(out@ =~= error_text(*self));
            },
            IdError::InvalidTimeConfiguration => {
                out.append("t must be Any when time interval i is 0");
                assert(out@ =~= error_text(*self));
            },
            IdError::ScaleError(ScaleFault::CoarserZoom) => {
                out.append(
                    "Target zoom level must be finer than or equal to the current zoom level",
                );
                assert(out@ =~= error_text(*self));
            },
            IdError::ScaleError(ScaleFault::TimeDropped) => {
                out.append("An identifier with a time interval cannot be scaled to the interval 0");
                assert(out@ =~= error_text(*self));
            },
            IdError::ScaleError(ScaleFault::LongerInterval) => {
                out.append(
                    "Target time interval must not be longer than the current time interval",
                );
                assert(out@ =~= error_text(*self));
            },
            IdError::ScaleError(ScaleFault::TimeOverflow) => {
                out.append("A time index does not fit in 32 bits at the target time interval");
                assert(out@ =~= error_text(*self));
            },
        }
        out
    }

    /// Appends the least 64-bit integer in decimal digits.
    fn push_least(out: &mut String)
        ensures
            final(out)@ == old(out)@ + signed(i64::MIN as int),
    {
        let ghost before = out@;
        proof {
            reveal_strlit("-");
        }
        out.append("-");
        assert(out@ =~= before + seq!['-']);
        push_decimal(out, 0x8000_0000_0000_0000u64);
        assert(out@ =~= before + signed(i64::MIN as int));
    }
}

} // verus!
