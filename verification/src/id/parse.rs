//! Reading an identifier from its written form.

use vstd::prelude::*;
use vstd::string::StrSliceExecFns;
use crate::id::range::{lower_i32, lower_u32};
use crate::id::text::{decimal, digit, id_text, range_text, signed};
use crate::id::{lemma_new_idempotent, model_new, DimensionRange, IdError, IdView, SpaceTimeId};

verus! {

/// The value of the character of a decimal digit.
pub open spec fn digit_value(c: char) -> Option<int> {
    if c == '0' {
        Some(0)
    } else if c == '1' {
        Some(1)
    } else if c == '2' {
        Some(2)
    } else if c == '3' {
        Some(3)
    } else if c == '4' {
        Some(4)
    } else if c == '5' {
        Some(5)
    } else if c == '6' {
        Some(6)
    } else if c == '7' {
        Some(7)
    } else if c == '8' {
        Some(8)
    } else if c == '9' {
        Some(9)
    } else {
        None
    }
}

/// The natural number that a text of decimal digits stands for; `None` for
/// an empty text or one that holds another character.
pub open spec fn parse_nat(s: Seq<char>) -> Option<nat>
    decreases s.len(),
{
    if s.len() == 0 {
        None
    } else if s.len() == 1 {
        match digit_value(s[0]) {
            Some(d) => Some(d as nat),
            None => None,
        }
    } else {
        match (parse_nat(s.drop_last()), digit_value(s.last())) {
            (Some(h), Some(d)) => Some((h * 10 + d) as nat),
            _ => None,
        }
    }
}

/// The integer that a text stands for: decimal digits, with a minus sign
/// before them for a negative number.
pub open spec fn parse_int(s: Seq<char>) -> Option<int> {
    if s.len() > 0 && s[0] == '-' {
        match parse_nat(s.subrange(1, s.len() as int)) {
            Some(n) => Some(-(n as int)),
            None => None,
        }
    } else {
        match parse_nat(s) {
            Some(n) => Some(n as int),
            None => None,
        }
    }
}

/// The place of the first `c` in the text, its length where there is none.
pub open spec fn first_index(s: Seq<char>, c: char) -> int
    decreases s.len(),
{
    if s.len() == 0 {
        0
    } else if s[0] == c {
        0
    } else {
        1 + first_index(s.drop_first(), c)
    }
}

/// The text before the first `c`.
pub open spec fn before(s: Seq<char>, c: char) -> Seq<char> {
    s.subrange(0, first_index(s, c))
}

/// The text after the first `c`, `None` where there is no `c`.
pub open spec fn after(s: Seq<char>, c: char) -> Option<Seq<char>> {
    if first_index(s, c) < s.len() {
        Some(s.subrange(first_index(s, c) + 1, s.len() as int))
    } else {
        None
    }
}

/// The range that a text stands for: `-` for every value, a number for a
/// single value, and two parts with `:` between them, each a number or `-`
/// for an open end, for the other forms; `None` for any other text.
pub open spec fn parse_range(s: Seq<char>) -> Option<DimensionRange<int>> {
    let open_end = seq!['-'];
    match after(s, ':') {
        None => if s == open_end {
            Some(DimensionRange::Any)
        } else {
            match parse_int(s) {
                Some(v) => Some(DimensionRange::Single(v)),
                None => None,
            }
        },
        Some(right) => {
            let left = before(s, ':');
            if left == open_end {
                match parse_int(right) {
                    Some(e) => Some(DimensionRange::BeforeUnLimitRange(e)),
                    None => None,
                }
            } else if right == open_end {
                match parse_int(left) {
                    Some(v) => Some(DimensionRange::AfterUnLimitRange(v)),
                    None => None,
                }
            } else {
                match (parse_int(left), parse_int(right)) {
                    (Some(a), Some(b)) => Some(DimensionRange::LimitRange(a, b)),
                    _ => None,
                }
            }
        },
    }
}

/// The six values that a text `z/f/x/y_i/t` names, not yet validated; `None`
/// for a text of another form.
pub open spec fn parse_fields(s: Seq<char>) -> Option<IdView> {
    match after(s, '/') {
        None => None,
        Some(s1) => match after(s1, '/') {
            None => None,
            Some(s2) => match after(s2, '/') {
                None => None,
                Some(s3) => match after(s3, '_') {
                    None => None,
                    Some(s4) => match after(s4, '/') {
                        None => None,
                        Some(s5) => match (
                            parse_nat(before(s, '/')),
                            parse_range(before(s1, '/')),
                            parse_range(before(s2, '/')),
                            parse_range(before(s3, '_')),
                            parse_nat(before(s4, '/')),
                            parse_range(s5),
                        ) {
                            (Some(z), Some(f), Some(x), Some(y), Some(i), Some(t)) => Some(
                                IdView { z: z as int, f, x, y, i: i as int, t },
                            ),
                            _ => None,
                        },
                    },
                },
            },
        },
    }
}

/// Why a text is not read as an identifier.
#[derive(Debug, Clone, Copy, PartialEq, Eq, Structural)]
pub enum TextError {
    /// The text does not have the form `z/f/x/y_i/t`.
    Malformed,
    /// A number of the text does not fit its field: the zoom level in 8 bits,
    /// a bound on the vertical axis in 32 bits with sign, any other in 32 bits
    /// without.
    NumberTooLarge,
    /// The values are refused as an identifier.
    Invalid(IdError),
}

/// The values fit their fields.
pub open spec fn fields_fit(v: IdView) -> bool {
    &&& 0 <= v.z <= u8::MAX
    &&& v.f.bounds_within(i32::MIN as int, i32::MAX as int)
    &&& v.x.bounds_within(0, u32::MAX as int)
    &&& v.y.bounds_within(0, u32::MAX as int)
    &&& 0 <= v.i <= u32::MAX
    &&& v.t.bounds_within(0, u32::MAX as int)
}

/// The identifier that a text stands for, or why it stands for none.
pub open spec fn model_parse(s: Seq<char>) -> Result<IdView, TextError> {
    match parse_fields(s) {
        None => Err(TextError::Malformed),
        Some(v) => if !fields_fit(v) {
            Err(TextError::NumberTooLarge)
        } else {
            match model_new(v.z, v.f, v.x, v.y, v.i, v.t) {
                Ok(id) => Ok(id),
                Err(e) => Err(TextError::Invalid(e)),
            }
        },
    }
}

/// The character is a decimal digit.
pub open spec fn is_digit(c: char) -> bool {
    digit_value(c) is Some
}

/// A number in decimal digits is made of digits, and is read as itself.
pub proof fn lemma_parse_decimal(n: nat)
    ensures
        parse_nat(decimal(n)) == Some(n),
        decimal(n).len() >= 1,
        forall|k: int| 0 <= k < decimal(n).len() ==> is_digit(#[trigger] decimal(n)[k]),
    decreases n,
{
    if n >= 10 {
        lemma_parse_decimal(n / 10);
        let head = decimal(n / 10);
        let all = decimal(n);
        assert(all.drop_last() =~= head);
        assert(all.last() == digit((n % 10) as int));
        assert(digit_value(digit((n % 10) as int)) == Some((n % 10) as int));
        assert(all.len() >= 2);
        assert forall|k: int| 0 <= k < all.len() implies is_digit(#[trigger] all[k]) by {
            if k < head.len() {
                assert(all[k] == head[k]);
            }
        }
    } else {
        assert(digit_value(digit(n as int)) == Some(n as int));
    }
}

/// The text is made of digits, but for a minus sign that may stand first,
/// and does not end with a minus sign.
pub open spec fn number_like(s: Seq<char>) -> bool {
    &&& s.len() >= 1
    &&& is_digit(s.last())
    &&& forall|k: int| 1 <= k < s.len() ==> is_digit(#[trigger] s[k])
    &&& (is_digit(s[0]) || s[0] == '-')
}

/// An integer as it is written is read as itself.
pub proof fn lemma_parse_signed(v: int)
    ensures
        parse_int(signed(v)) == Some(v),
        number_like(signed(v)),
{
    if v < 0 {
        lemma_parse_decimal((-v) as nat);
        let s = signed(v);
        assert(s.subrange(1, s.len() as int) =~= decimal((-v) as nat));
        assert forall|k: int| 1 <= k < s.len() implies is_digit(#[trigger] s[k]) by {
            assert(s[k] == decimal((-v) as nat)[k - 1]);
        }
        assert(s.last() == decimal((-v) as nat).last());
    } else {
        lemma_parse_decimal(v as nat);
    }
}

/// The first `c` of a text that has none before the place `n`, and has one
/// there, is at `n`.
pub proof fn lemma_first_index(s: Seq<char>, c: char, n: int)
    requires
        0 <= n <= s.len(),
        forall|k: int| 0 <= k < n ==> s[k] != c,
        n < s.len() ==> s[n] == c,
    ensures
        first_index(s, c) == n,
    decreases n,
{
    if n > 0 {
        let rest = s.drop_first();
        assert forall|k: int| 0 <= k < n - 1 implies rest[k] != c by {
            assert(rest[k] == s[k + 1]);
        }
        lemma_first_index(rest, c, n - 1);
    }
}

/// A text made like a number holds none of the signs that part the fields.
pub proof fn lemma_number_like(s: Seq<char>, k: int)
    requires
        number_like(s),
        0 <= k < s.len(),
    ensures
        s[k] != ':',
        s[k] != '/',
        s[k] != '_',
        s != seq!['-'],
{
    if k >= 1 {
        assert(is_digit(s[k]));
    }
    if s == seq!['-'] {
        assert(s.last() == '-');
    }
}

/// The parts of a text `a c b`, where `a` holds no `c`.
pub proof fn lemma_parts(a: Seq<char>, c: char, b: Seq<char>)
    requires
        forall|k: int| 0 <= k < a.len() ==> a[k] != c,
    ensures
        before(a + seq![c] + b, c) == a,
        after(a + seq![c] + b, c) == Some(b),
{
    let s = a + seq![c] + b;
    assert forall|k: int| 0 <= k < a.len() implies s[k] != c by {
        assert(s[k] == a[k]);
    }
    assert(s[a.len() as int] == c);
    lemma_first_index(s, c, a.len() as int);
    assert(s.subrange(0, a.len() as int) =~= a);
    assert(s.subrange(a.len() as int + 1, s.len() as int) =~= b);
}

/// A range as it is written: the signs that part the fields of an
/// identifier do not occur in it, and it is read as itself.
pub proof fn lemma_parse_range(r: DimensionRange<int>)
    ensures
        parse_range(range_text(r)) == Some(r),
        forall|k: int|
            0 <= k < range_text(r).len() ==> (#[trigger] range_text(r)[k]) != '/' && range_text(
                r,
            )[k] != '_',
{
    let s = range_text(r);
    let open_end = seq!['-'];
    match r {
        DimensionRange::Single(v) => {
            lemma_parse_signed(v);
            assert forall|k: int| 0 <= k < s.len() implies s[k] != ':' && s[k] != '/' && s[k]
                != '_' by {
                lemma_number_like(s, k);
            }
            lemma_first_index(s, ':', s.len() as int);
            lemma_number_like(s, 0);
        },
        DimensionRange::LimitRange(a, b) => {
            lemma_parse_signed(a);
            lemma_parse_signed(b);
            let left = signed(a);
            let right = signed(b);
            assert forall|k: int| 0 <= k < left.len() implies left[k] != ':' by {
                lemma_number_like(left, k);
            }
            lemma_parts(left, ':', right);
            lemma_number_like(left, 0);
            lemma_number_like(right, 0);
            assert forall|k: int| 0 <= k < s.len() implies (#[trigger] s[k]) != '/' && s[k]
                != '_' by {
                if k < left.len() {
                    lemma_number_like(left, k);
                } else if k > left.len() {
                    lemma_number_like(right, k - left.len() - 1);
                }
            }
        },
        DimensionRange::BeforeUnLimitRange(e) => {
            lemma_parse_signed(e);
            let right = signed(e);
            assert(s =~= open_end + seq![':'] + right);
            lemma_parts(open_end, ':', right);
            assert forall|k: int| 0 <= k < s.len() implies (#[trigger] s[k]) != '/' && s[k]
                != '_' by {
                if k >= 2 {
                    lemma_number_like(right, k - 2);
                }
            }
        },
        DimensionRange::AfterUnLimitRange(v) => {
            lemma_parse_signed(v);
            let left = signed(v);
            assert(s =~= left + seq![':'] + open_end);
            assert forall|k: int| 0 <= k < left.len() implies left[k] != ':' by {
                lemma_number_like(left, k);
            }
            lemma_parts(left, ':', open_end);
            lemma_number_like(left, 0);
            assert forall|k: int| 0 <= k < s.len() implies (#[trigger] s[k]) != '/' && s[k]
                != '_' by {
                if k < left.len() {
                    lemma_number_like(left, k);
                }
            }
        },
        DimensionRange::Any => {
            lemma_first_index(s, ':', 1);
        },
    }
}

/// An identifier as it is written names its own six values.
pub proof fn lemma_parse_fields(v: IdView)
    requires
        0 <= v.z,
        0 <= v.i,
    ensures
        parse_fields(id_text(v)) == Some(v),
{
    let zt = signed(v.z);
    let ft = range_text(v.f);
    let xt = range_text(v.x);
    let yt = range_text(v.y);
    let it = signed(v.i);
    let tt = range_text(v.t);
    lemma_parse_signed(v.z);
    lemma_parse_signed(v.i);
    lemma_parse_decimal(v.z as nat);
    lemma_parse_decimal(v.i as nat);
    lemma_parse_range(v.f);
    lemma_parse_range(v.x);
    lemma_parse_range(v.y);
    lemma_parse_range(v.t);
    let s5 = tt;
    let s4 = it + seq!['/'] + s5;
    let s3 = yt + seq!['_'] + s4;
    let s2 = xt + seq!['/'] + s3;
    let s1 = ft + seq!['/'] + s2;
    let s = zt + seq!['/'] + s1;
    assert(id_text(v) =~= s);
    assert forall|k: int| 0 <= k < zt.len() implies zt[k] != '/' by {
        lemma_number_like(zt, k);
    }
    assert forall|k: int| 0 <= k < it.len() implies it[k] != '/' by {
        lemma_number_like(it, k);
    }
    lemma_parts(zt, '/', s1);
    lemma_parts(ft, '/', s2);
    lemma_parts(xt, '/', s3);
    lemma_parts(yt, '_', s4);
    lemma_parts(it, '/', s5);
}

/// Reading an identifier from its written form gives the identifier: the
/// written form of an identifier is read as no other.
pub proof fn law_text_round_trip(v: IdView)
    requires
        v.wf(),
    ensures
        model_parse(id_text(v)) == Ok::<IdView, TextError>(v),
{
    lemma_parse_fields(v);
    crate::id::lemma_domain_fits(v.z);
    crate::id::range::lemma_canonical_bounds(v.f, crate::id::f_domain(v.z));
    crate::id::range::lemma_canonical_bounds(v.x, crate::id::xy_domain(v.z));
    crate::id::range::lemma_canonical_bounds(v.y, crate::id::xy_domain(v.z));
    lemma_new_idempotent(v);
}

/// The greatest size of a number that is read as it stands; a greater one is
/// read as this one, which fits no field either.
pub const READ_LIMIT: u64 = 0x2_0000_0000;

/// A number, cut down to the size up to which numbers are read as they
/// stand.
pub open spec fn cut(v: int) -> int {
    if v > READ_LIMIT {
        READ_LIMIT as int
    } else if v < -(READ_LIMIT as int) {
        -(READ_LIMIT as int)
    } else {
        v
    }
}

/// A range with its bounds cut down.
pub open spec fn cut_range(r: DimensionRange<int>) -> DimensionRange<int> {
    match r {
        DimensionRange::LimitRange(s, e) => DimensionRange::LimitRange(cut(s), cut(e)),
        DimensionRange::BeforeUnLimitRange(e) => DimensionRange::BeforeUnLimitRange(cut(e)),
        DimensionRange::AfterUnLimitRange(s) => DimensionRange::AfterUnLimitRange(cut(s)),
        DimensionRange::Single(v) => DimensionRange::Single(cut(v)),
        DimensionRange::Any => DimensionRange::Any,
    }
}

/// The characters of a text.
fn to_chars(text: &str) -> (res: Vec<char>)
    ensures
        res@ == text@,
{
    let n = text.unicode_len();
    let mut res: Vec<char> = Vec::new();
    let mut k: usize = 0;
    while k < n
        invariant
            k <= n,
            n == text@.len(),
            res@ == text@.subrange(0, k as int),
        decreases n - k,
    {
        res.push(text.get_char(k));
        assert(res@ =~= text@.subrange(0, k + 1));
        k = k + 1;
    }
    assert(text@.subrange(0, n as int) =~= text@);
    res
}

/// The place of the first `c` among the characters from `from` to `to`, or
/// `to` where there is none.
fn find(v: &Vec<char>, from: usize, to: usize, c: char) -> (k: usize)
    requires
        from <= to <= v.len(),
    ensures
        from <= k <= to,
        k - from == first_index(v@.subrange(from as int, to as int), c),
{
    let ghost sub = v@.subrange(from as int, to as int);
    let mut k = from;
    while k < to && v[k] != c
        invariant
            from <= k <= to <= v.len(),
            sub == v@.subrange(from as int, to as int),
            forall|j: int| 0 <= j < k - from ==> sub[j] != c,
        decreases to - k,
    {
        k = k + 1;
    }
    proof {
        lemma_first_index(sub, c, k - from);
    }
    k
}

/// The value of a decimal digit.
fn digit_of(c: char) -> (res: Option<u64>)
    ensures
        match res {
            Some(d) => digit_value(c) == Some(d as int) && d < 10,
            None => digit_value(c) is None,
        },
{
    if c == '0' {
        Some(0)
    } else if c == '1' {
        Some(1)
    } else if c == '2' {
        Some(2)
    } else if c == '3' {
        Some(3)
    } else if c == '4' {
        Some(4)
    } else if c == '5' {
        Some(5)
    } else if c == '6' {
        Some(6)
    } else if c == '7' {
        Some(7)
    } else if c == '8' {
        Some(8)
    } else if c == '9' {
        Some(9)
    } else {
        None
    }
}

/// A text that is read as a number begins with texts that are read as
/// numbers.
pub proof fn lemma_parse_nat_prefix(s: Seq<char>, k: int)
    requires
        1 <= k <= s.len(),
        parse_nat(s) is Some,
    ensures
        parse_nat(s.subrange(0, k)) is Some,
    decreases s.len() - k,
{
    if k < s.len() {
        lemma_parse_nat_prefix(s.drop_last(), k);
        assert(s.drop_last().subrange(0, k) =~= s.subrange(0, k));
    } else {
        assert(s.subrange(0, k) =~= s);
    }
}

/// The natural number that the characters from `from` to `to` stand for, cut
/// down to the limit; `None` where they stand for none.
fn read_nat(v: &Vec<char>, from: usize, to: usize) -> (res: Option<u64>)
    requires
        from <= to <= v.len(),
    ensures
        match parse_nat(v@.subrange(from as int, to as int)) {
            Some(n) => res == Some(cut(n as int) as u64),
            None => res is None,
        },
{
    let ghost sub = v@.subrange(from as int, to as int);
    if from == to {
        return None;
    }
    let mut acc: u64 = match digit_of(v[from]) {
        Some(d) => d,
        None => {
            proof {
                if parse_nat(sub) is Some {
                    lemma_parse_nat_prefix(sub, 1);
                    assert(sub.subrange(0, 1) =~= seq![sub[0]]);
                }
            }
            return None;
        },
    };
    let mut k = from + 1;
    proof {
        assert(sub.subrange(0, 1) =~= seq![sub[0]]);
    }
    while k < to
        invariant
            from < k <= to <= v.len(),
            sub == v@.subrange(from as int, to as int),
            parse_nat(sub.subrange(0, k - from)) is Some,
            acc == cut(parse_nat(sub.subrange(0, k - from))->0 as int),
            acc <= READ_LIMIT,
        decreases to - k,
    {
        let ghost head = sub.subrange(0, k - from);
        let ghost more = sub.subrange(0, k - from + 1);
        proof {
            assert(more.drop_last() =~= head);
            assert(more.last() == v@[k as int]);
        }
        match digit_of(v[k]) {
            Some(d) => {
                let next = acc * 10 + d;
                acc = if next > READ_LIMIT { READ_LIMIT } else { next };
            },
            None => {
                proof {
                    if parse_nat(sub) is Some {
                        lemma_parse_nat_prefix(sub, k - from + 1);
                    }
                }
                return None;
            },
        }
        k = k + 1;
    }
    proof {
        assert(sub.subrange(0, to - from) =~= sub);
    }
    Some(acc)
}

/// The integer that the characters from `from` to `to` stand for, cut down
/// to the limit; `None` where they stand for none.
fn read_int(v: &Vec<char>, from: usize, to: usize) -> (res: Option<i64>)
    requires
        from <= to <= v.len(),
    ensures
        match parse_int(v@.subrange(from as int, to as int)) {
            Some(n) => res == Some(cut(n) as i64),
            None => res is None,
        },
{
    let ghost sub = v@.subrange(from as int, to as int);
    if from < to && v[from] == '-' {
        proof {
            assert(sub.subrange(1, sub.len() as int) =~= v@.subrange(from + 1, to as int));
        }
        match read_nat(v, from + 1, to) {
            Some(n) => Some(-(n as i64)),
            None => None,
        }
    } else {
        match read_nat(v, from, to) {
            Some(n) => Some(n as i64),
            None => None,
        }
    }
}

/// The range that the characters from `from` to `to` stand for, with its
/// bounds cut down to the limit; `None` where they stand for none.
fn read_range(v: &Vec<char>, from: usize, to: usize) -> (res: Option<DimensionRange<i64>>)
    requires
        from <= to <= v.len(),
    ensures
        match parse_range(v@.subrange(from as int, to as int)) {
            Some(r) => res matches Some(got) && got@ == cut_range(r),
            None => res is None,
        },
{
    let ghost sub = v@.subrange(from as int, to as int);
    let colon = find(v, from, to, ':');
    let whole_open = to - from == 1 && v[from] == '-';
    proof {
        assert(whole_open == (sub =~= seq!['-']));
    }
    if colon == to {
        if whole_open {
            return Some(DimensionRange::Any);
        }
        return match read_int(v, from, to) {
            Some(x) => Some(DimensionRange::Single(x)),
            None => None,
        };
    }
    let left_open = colon - from == 1 && v[from] == '-';
    let right_open = to - colon == 2 && v[colon + 1] == '-';
    proof {
        let left = before(sub, ':');
        let right = after(sub, ':')->0;
        assert(left =~= v@.subrange(from as int, colon as int));
        assert(right =~= v@.subrange(colon + 1, to as int));
        assert(left_open == (left =~= seq!['-']));
        assert(right_open == (right =~= seq!['-']));
    }
    if left_open {
        match read_int(v, colon + 1, to) {
            Some(e) => Some(DimensionRange::BeforeUnLimitRange(e)),
            None => None,
        }
    } else if right_open {
        match read_int(v, from, colon) {
            Some(x) => Some(DimensionRange::AfterUnLimitRange(x)),
            None => None,
        }
    } else {
        match (read_int(v, from, colon), read_int(v, colon + 1, to)) {
            (Some(a), Some(b)) => Some(DimensionRange::LimitRange(a, b)),
            _ => None,
        }
    }
}

/// Every bound of the range fits in 32 bits without sign.
fn in_u32(r: DimensionRange<i64>) -> (b: bool)
    ensures
        b == r@.bounds_within(0, u32::MAX as int),
{
    crate::id::scale::fits_u32(r)
}

/// Every bound of the range fits in 32 bits with sign.
fn in_i32(r: DimensionRange<i64>) -> (b: bool)
    ensures
        b == r@.bounds_within(i32::MIN as int, i32::MAX as int),
{
    match r {
        DimensionRange::LimitRange(s, e) => -0x8000_0000 <= s && s <= 0x7fff_ffff && -0x8000_0000
            <= e && e <= 0x7fff_ffff,
        DimensionRange::BeforeUnLimitRange(e) => -0x8000_0000 <= e && e <= 0x7fff_ffff,
        DimensionRange::AfterUnLimitRange(s) => -0x8000_0000 <= s && s <= 0x7fff_ffff,
        DimensionRange::Single(v) => -0x8000_0000 <= v && v <= 0x7fff_ffff,
        DimensionRange::Any => true,
    }
}

/// A range that is cut down fits in 32 bits exactly if it fits as it is, and
/// is then not changed by the cut.
pub proof fn lemma_cut_range(r: DimensionRange<int>, lo: int, hi: int)
    requires
        -(READ_LIMIT as int) < lo <= hi < READ_LIMIT,
    ensures
        cut_range(r).bounds_within(lo, hi) == r.bounds_within(lo, hi),
        r.bounds_within(lo, hi) ==> cut_range(r) == r,
{
}

/// What reading a text returns, read as the model reads it.
pub open spec fn parsed_view(res: Result<SpaceTimeId, TextError>) -> Result<IdView, TextError> {
    match res {
        Ok(id) => Ok(id@),
        Err(e) => Err(e),
    }
}

/// The places of the signs that part the fields of a text, and the fields
/// between them as they are read.
struct Fields {
    z: Option<u64>,
    f: Option<DimensionRange<i64>>,
    x: Option<DimensionRange<i64>>,
    y: Option<DimensionRange<i64>>,
    i: Option<u64>,
    t: Option<DimensionRange<i64>>,
}

/// The six fields of a text `z/f/x/y_i/t` as they are read, `None` where a
/// sign that parts them is missing.
fn read_fields(v: &Vec<char>) -> (res: Option<Fields>)
    ensures
        match res {
            None => parse_fields(v@) is None,
            Some(got) => {
                let s = v@;
                let s1 = after(s, '/')->0;
                let s2 = after(s1, '/')->0;
                let s3 = after(s2, '/')->0;
                let s4 = after(s3, '_')->0;
                let s5 = after(s4, '/')->0;
                &&& after(s, '/') is Some
                &&& after(s1, '/') is Some
                &&& after(s2, '/') is Some
                &&& after(s3, '_') is Some
                &&& after(s4, '/') is Some
                &&& read_as_nat(got.z, parse_nat(before(s, '/')))
                &&& read_as_range(got.f, parse_range(before(s1, '/')))
                &&& read_as_range(got.x, parse_range(before(s2, '/')))
                &&& read_as_range(got.y, parse_range(before(s3, '_')))
                &&& read_as_nat(got.i, parse_nat(before(s4, '/')))
                &&& read_as_range(got.t, parse_range(s5))
            },
        },
{
    let n = v.len();
    let ghost s = v@;
    proof {
        assert(s.subrange(0, n as int) =~= s);
    }
    let k1 = find(v, 0, n, '/');
    if k1 == n {
        return None;
    }
    let ghost s1 = after(s, '/')->0;
    proof {
        assert(s1 =~= s.subrange(k1 + 1, n as int));
        assert(before(s, '/') =~= s.subrange(0, k1 as int));
    }
    let k2 = find(v, k1 + 1, n, '/');
    if k2 == n {
        return None;
    }
    let ghost s2 = after(s1, '/')->0;
    proof {
        assert(s2 =~= s.subrange(k2 + 1, n as int));
        assert(before(s1, '/') =~= s.subrange(k1 + 1, k2 as int));
    }
    let k3 = find(v, k2 + 1, n, '/');
    if k3 == n {
        return None;
    }
    let ghost s3 = after(s2, '/')->0;
    proof {
        assert(s3 =~= s.subrange(k3 + 1, n as int));
        assert(before(s2, '/') =~= s.subrange(k2 + 1, k3 as int));
    }
    let k4 = find(v, k3 + 1, n, '_');
    if k4 == n {
        return None;
    }
    let ghost s4 = after(s3, '_')->0;
    proof {
        assert(s4 =~= s.subrange(k4 + 1, n as int));
        assert(before(s3, '_') =~= s.subrange(k3 + 1, k4 as int));
    }
    let k5 = find(v, k4 + 1, n, '/');
    if k5 == n {
        return None;
    }
    proof {
        let s5 = after(s4, '/')->0;
        assert(s5 =~= s.subrange(k5 + 1, n as int));
        assert(before(s4, '/') =~= s.subrange(k4 + 1, k5 as int));
    }
    Some(
        Fields {
            z: read_nat(v, 0, k1),
            f: read_range(v, k1 + 1, k2),
            x: read_range(v, k2 + 1, k3),
            y: read_range(v, k3 + 1, k4),
            i: read_nat(v, k4 + 1, k5),
            t: read_range(v, k5 + 1, n),
        },
    )
}

/// A number as it was read stands for the number of the text, cut down.
pub open spec fn read_as_nat(got: Option<u64>, meant: Option<nat>) -> bool {
    match meant {
        Some(n) => got == Some(cut(n as int) as u64),
        None => got is None,
    }
}

/// A range as it was read stands for the range of the text, cut down.
pub open spec fn read_as_range(got: Option<DimensionRange<i64>>, meant: Option<DimensionRange<int>>) -> bool {
    match meant {
        Some(r) => got matches Some(g) && g@ == cut_range(r),
        None => got is None,
    }
}

impl SpaceTimeId {
    /// The identifier that a text of the form `z/f/x/y_i/t` stands for, as
    /// [`SpaceTimeId::to_string`] writes it: the zoom level, the three
    /// spatial ranges, the interval and the time range, validated as
    /// [`SpaceTimeId::new`] validates them. A number may have zeros before
    /// it, and the ranges need not be in canonical form.
    ///
    /// It fails with `Malformed` for a text of another form, with
    /// `NumberTooLarge` for a number that does not fit its field, and with
    /// `Invalid` for values that `new` refuses. What `to_string` wrote of an
    /// identifier is read as that identifier.
    pub fn parse(text: &str) -> (res: Result<SpaceTimeId, TextError>)
        ensures
            parsed_view(res) == model_parse(text@),
            res matches Ok(id) ==> id.wf(),
    {
        let v = to_chars(text);
        let got = match read_fields(&v) {
            Some(g) => g,
            None => {
                return Err(TextError::Malformed);
            },
        };
        match (got.z, got.f, got.x, got.y, got.i, got.t) {
            (Some(z), Some(f), Some(x), Some(y), Some(i), Some(t)) => {
                proof {
                    let meant = parse_fields(text@)->0;
                    lemma_cut_range(meant.f, i32::MIN as int, i32::MAX as int);
                    lemma_cut_range(meant.x, 0, u32::MAX as int);
                    lemma_cut_range(meant.y, 0, u32::MAX as int);
                    lemma_cut_range(meant.t, 0, u32::MAX as int);
                }
                if z > 255 || i > 0xffff_ffff || !in_i32(f) || !in_u32(x) || !in_u32(y) || !in_u32(
                    t,
                ) {
                    return Err(TextError::NumberTooLarge);
                }
                match SpaceTimeId::new(
                    z as u8,
                    lower_i32(f),
                    lower_u32(x),
                    lower_u32(y),
                    i as u32,
                    lower_u32(t),
                ) {
                    Ok(id) => Ok(id),
                    Err(e) => Err(TextError::Invalid(e)),
                }
            },
            _ => Err(TextError::Malformed),
        }
    }
}

} // verus!
