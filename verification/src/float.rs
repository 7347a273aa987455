//! Single-precision values as bit patterns.
//!
//! The crate never computes with floating point itself. A host's f32 values
//! (weights, query components, centroid scores, inverse norms) are carried as
//! their 32-bit IEEE 754 patterns; what can be decided from a pattern alone
//! (NaN, order, largest magnitude) is decided here, and the five operations
//! that round are supplied by the host through [`Arith`].
use vstd::prelude::*;

verus! {

/// `0.0`.
pub const ZERO: u32 = 0;

/// `-0.0`, the identity of addition: `-0.0 + x` is `x` for every `x`.
pub const NEG_ZERO: u32 = 0x8000_0000;

/// `1.0`.
pub const ONE: u32 = 0x3f80_0000;

/// `-inf`, below every score.
pub const NEG_INFINITY: u32 = 0xff80_0000;

/// `127.0`, the largest int8 code.
pub const CODE_MAX: u32 = 0x42fe_0000;

/// `1e-12`, the smallest table scale.
pub const MIN_SCALE: u32 = 0x2b8c_bccc;

/// The host's rounding single-precision arithmetic on bit patterns.
///
/// Nothing is assumed of an implementation: every contract in this crate is
/// stated over whatever these functions return, and a result is unique as
/// soon as they are functions of their arguments ([`deterministic`]).
pub trait Arith {
    /// `a / b`.
    fn div(a: u32, b: u32) -> u32;

    /// `a * b`.
    fn mul(a: u32, b: u32) -> u32;

    /// `a + b`.
    fn add(a: u32, b: u32) -> u32;

    /// The single nearest to an integer.
    fn from_i32(x: i32) -> u32;

    /// The nearest integer, halves away from zero, saturating; 0 for NaN.
    fn round_to_i32(x: u32) -> i32;
}

/// `r` is a quotient the host's arithmetic gives for `a / b`.
pub open spec fn quotient<A: Arith>(a: u32, b: u32, r: u32) -> bool {
    call_ensures(A::div, (a, b), r)
}

/// `r` is a product the host's arithmetic gives for `a * b`.
pub open spec fn product<A: Arith>(a: u32, b: u32, r: u32) -> bool {
    call_ensures(A::mul, (a, b), r)
}

/// `r` is a sum the host's arithmetic gives for `a + b`.
pub open spec fn addition<A: Arith>(a: u32, b: u32, r: u32) -> bool {
    call_ensures(A::add, (a, b), r)
}

/// `r` is the single the host's arithmetic gives for the integer `x`.
pub open spec fn conversion<A: Arith>(x: i32, r: u32) -> bool {
    call_ensures(A::from_i32, (x,), r)
}

/// `r` is the integer the host's arithmetic rounds `x` to.
pub open spec fn rounding<A: Arith>(x: u32, r: i32) -> bool {
    call_ensures(A::round_to_i32, (x,), r)
}

/// The host's arithmetic is a function: equal arguments give equal results.
pub open spec fn deterministic<A: Arith>() -> bool {
    &&& forall|a: u32, b: u32, r: u32, s: u32| #[trigger]
        quotient::<A>(a, b, r) && #[trigger] quotient::<A>(a, b, s) ==> r == s
    &&& forall|a: u32, b: u32, r: u32, s: u32| #[trigger]
        product::<A>(a, b, r) && #[trigger] product::<A>(a, b, s) ==> r == s
    &&& forall|a: u32, b: u32, r: u32, s: u32| #[trigger]
        addition::<A>(a, b, r) && #[trigger] addition::<A>(a, b, s) ==> r == s
    &&& forall|x: i32, r: u32, s: u32| #[trigger]
        conversion::<A>(x, r) && #[trigger] conversion::<A>(x, s) ==> r == s
    &&& forall|x: u32, r: i32, s: i32| #[trigger]
        rounding::<A>(x, r) && #[trigger] rounding::<A>(x, s) ==> r == s
}

/// The pattern of `|x|`.
pub open spec fn magnitude(x: u32) -> u32 {
    x % 0x8000_0000
}

/// `x` is not a number.
pub open spec fn is_nan(x: u32) -> bool {
    magnitude(x) > 0x7f80_0000
}

/// Where `x` stands in the order of the numbers; the two zeros coincide.
pub open spec fn rank(x: u32) -> int {
    if x >= 0x8000_0000 {
        -(magnitude(x) as int)
    } else {
        magnitude(x) as int
    }
}

/// `a > b` as IEEE 754 compares: false as soon as one is NaN.
pub open spec fn greater(a: u32, b: u32) -> bool {
    !is_nan(a) && !is_nan(b) && rank(a) > rank(b)
}

/// The larger of two values; a NaN gives way to the other.
pub open spec fn larger(a: u32, b: u32) -> u32 {
    if is_nan(a) || greater(b, a) {
        b
    } else {
        a
    }
}

/// `m` is the largest magnitude among the numbers of `s`, 0 if there is none.
pub open spec fn is_max_abs(s: Seq<u32>, m: u32) -> bool {
    &&& forall|i: int| 0 <= i < s.len() && !is_nan(#[trigger] s[i]) ==> magnitude(s[i]) <= m
    &&& m == 0 || exists|i: int|
        0 <= i < s.len() && !is_nan(#[trigger] s[i]) && magnitude(s[i]) == m
}

/// The code an integer quotient is stored as: clamped to `-127 ..= 127`.
pub open spec fn clamped(x: int) -> int {
    if x > 127 {
        127
    } else if x < -127 {
        -127
    } else {
        x
    }
}

/// `v` is a code the host's arithmetic gives `x` at `scale`: the rounded
/// quotient `x / scale`, clamped.
pub open spec fn quantised<A: Arith>(x: u32, scale: u32, v: i8) -> bool {
    exists|q: u32, n: i32| #[trigger]
        quotient::<A>(x, scale, q) && #[trigger] rounding::<A>(q, n) && v == clamped(n as int)
}

/// `a > b` as IEEE 754 compares.
pub fn gt(a: u32, b: u32) -> (r: bool)
    ensures
        r == greater(a, b),
{
    let ma: u32 = a % 0x8000_0000;
    let mb: u32 = b % 0x8000_0000;
    if ma > 0x7f80_0000 || mb > 0x7f80_0000 {
        return false;
    }
    if a >= 0x8000_0000 {
        b >= 0x8000_0000 && ma < mb
    } else if b >= 0x8000_0000 {
        ma > 0 || mb > 0
    } else {
        ma > mb
    }
}

/// The larger of two values; a NaN gives way to the other.
pub fn max(a: u32, b: u32) -> (r: u32)
    ensures
        r == larger(a, b),
{
    if a % 0x8000_0000 > 0x7f80_0000 || gt(b, a) {
        b
    } else {
        a
    }
}

/// The largest magnitude in `values`, ignoring NaNs; 0 if there is none.
pub fn max_abs(values: &[u32]) -> (m: u32)
    ensures
        is_max_abs(values@, m),
        m <= 0x7f80_0000,
{
    let mut m: u32 = 0;
    let mut i: usize = 0;
    while i < values.len()
        invariant
            i <= values@.len(),
            is_max_abs(values@.take(i as int), m),
            m <= 0x7f80_0000,
        decreases values@.len() - i,
    {
        let x: u32 = values[i] % 0x8000_0000;
        let ghost before = values@.take(i as int);
        let ghost after = values@.take(i + 1);
        let ghost old_m = m;
        if x <= 0x7f80_0000 && x > m {
            m = x;
        }
        proof {
            assert(after == before.push(values@[i as int]));
            assert forall|j: int| 0 <= j < after.len() && !is_nan(#[trigger] after[j]) implies magnitude(
                after[j],
            ) <= m by {
                if j < i {
                    assert(before[j] == after[j]);
                }
            }
            if m != 0 {
                if m == old_m {
                    let j = choose|j: int|
                        0 <= j < before.len() && !is_nan(#[trigger] before[j]) && magnitude(
                            before[j],
                        ) == m;
                    assert(after[j] == before[j]);
                } else {
                    assert(!is_nan(after[i as int]));
                }
            }
        }
        i += 1;
    }
    assert(values@.take(i as int) == values@);
    m
}

/// The code of `x` at `scale`.
pub fn quantise<A: Arith>(x: u32, scale: u32) -> (v: i8)
    ensures
        quantised::<A>(x, scale, v),
        -127 <= v <= 127,
{
    let q: u32 = A::div(x, scale);
    let n: i32 = A::round_to_i32(q);
    assert(quotient::<A>(x, scale, q) && rounding::<A>(q, n));
    if n > 127 {
        127
    } else if n < -127 {
        -127
    } else {
        n as i8
    }
}

/// The largest magnitude of a slice is unique.
pub proof fn max_abs_is_unique(s: Seq<u32>, m: u32, n: u32)
    requires
        is_max_abs(s, m),
        is_max_abs(s, n),
    ensures
        m == n,
{
}

/// `-x`: the pattern with its sign flipped.
pub open spec fn negated(x: u32) -> u32 {
    if x >= 0x8000_0000 {
        (x - 0x8000_0000) as u32
    } else {
        (x + 0x8000_0000) as u32
    }
}

/// The host's arithmetic treats the two signs alike: negating a dividend
/// negates the quotient, negating a value negates the code it rounds to, and
/// a NaN rounds to 0. Single precision rounds this way.
pub open spec fn sign_symmetric<A: Arith>() -> bool {
    &&& forall|a: u32, b: u32, q: u32, r: u32| #[trigger]
        quotient::<A>(a, b, q) && #[trigger] quotient::<A>(negated(a), b, r) ==> r == negated(q) || (
        is_nan(q) && is_nan(r))
    &&& forall|x: u32, n: i32, m: i32| #[trigger]
        rounding::<A>(x, n) && #[trigger] rounding::<A>(negated(x), m) ==> clamped(m as int)
            == -clamped(n as int)
    &&& forall|x: u32, n: i32| is_nan(x) && #[trigger] rounding::<A>(x, n) ==> n == 0
}

/// Zero, or a number of magnitude `1e-30` to `1e30`: far from where single
/// precision under- or overflows.
pub open spec fn ordinary(x: u32) -> bool {
    magnitude(x) == 0 || 0x0da2_4260 <= magnitude(x) <= 0x7149_f2ca
}

/// `4 * x`, exact for a number far from under- and overflow: the exponent
/// goes up by two.
pub open spec fn quadrupled(x: u32) -> u32 {
    if magnitude(x) == 0 {
        x
    } else {
        (x + 0x0100_0000) as u32
    }
}

/// A power of two passes through the host's division: four times an ordinary
/// dividend gives four times the quotient by 127, and four times dividend and
/// divisor give the same quotient. Single precision divides this way.
pub open spec fn scale_invariant<A: Arith>() -> bool {
    &&& forall|m: u32, s: u32, t: u32|
        ordinary(m) && magnitude(m) != 0 && #[trigger] quotient::<A>(m, CODE_MAX, s)
            && #[trigger] quotient::<A>(quadrupled(m), CODE_MAX, t) ==> t == quadrupled(s)
    &&& forall|m: u32, s: u32, x: u32, q: u32, r: u32|
        ordinary(m) && magnitude(m) != 0 && ordinary(x) && #[trigger] quotient::<A>(m, CODE_MAX, s)
            && #[trigger] quotient::<A>(x, s, q) && #[trigger] quotient::<A>(
            quadrupled(x),
            quadrupled(s),
            r,
        ) ==> r == q
}

/// Negation keeps the magnitude.
pub proof fn lemma_negated(x: u32)
    ensures
        magnitude(negated(x)) == magnitude(x),
        is_nan(negated(x)) == is_nan(x),
{
}

/// Quadrupling an ordinary number moves its magnitude up and makes no NaN.
pub proof fn lemma_quadrupled(x: u32)
    requires
        ordinary(x),
    ensures
        magnitude(quadrupled(x)) == quadrupled(magnitude(x)),
        !is_nan(x),
        !is_nan(quadrupled(x)),
{
}

/// The largest magnitude of a row does not change with the signs.
pub proof fn lemma_max_abs_negated(s: Seq<u32>, t: Seq<u32>, m: u32)
    requires
        s.len() == t.len(),
        forall|i: int| 0 <= i < s.len() ==> #[trigger] t[i] == negated(s[i]),
        is_max_abs(s, m),
    ensures
        is_max_abs(t, m),
{
    assert forall|i: int| 0 <= i < t.len() && !is_nan(#[trigger] t[i]) implies magnitude(t[i])
        <= m by {
        lemma_negated(s[i]);
    }
    if m != 0 {
        let i = choose|i: int| 0 <= i < s.len() && !is_nan(#[trigger] s[i]) && magnitude(s[i]) == m;
        lemma_negated(s[i]);
        assert(!is_nan(t[i]) && magnitude(t[i]) == m);
    }
}

/// The largest magnitude of an ordinary row is quadrupled with the row.
pub proof fn lemma_max_abs_quadrupled(s: Seq<u32>, t: Seq<u32>, m: u32)
    requires
        s.len() == t.len(),
        forall|i: int| 0 <= i < s.len() ==> ordinary(#[trigger] s[i]),
        forall|i: int| 0 <= i < s.len() ==> #[trigger] t[i] == quadrupled(s[i]),
        is_max_abs(s, m),
    ensures
        is_max_abs(t, quadrupled(m)),
        ordinary(m),
{
    if m != 0 {
        let i = choose|i: int| 0 <= i < s.len() && !is_nan(#[trigger] s[i]) && magnitude(s[i]) == m;
        assert(ordinary(s[i]));
        lemma_quadrupled(s[i]);
        assert(!is_nan(t[i]) && magnitude(t[i]) == quadrupled(m));
    }
    assert forall|i: int| 0 <= i < t.len() && !is_nan(#[trigger] t[i]) implies magnitude(t[i])
        <= quadrupled(m) by {
        assert(ordinary(s[i]));
        lemma_quadrupled(s[i]);
        assert(!is_nan(s[i]) && magnitude(s[i]) <= m);
    }
}

/// The host's addition never falls where no operand falls. Single precision
/// adds this way.
pub open spec fn adds_in_order<A: Arith>() -> bool {
    forall|a: u32, b: u32, c: u32, d: u32, r: u32, s: u32| #[trigger]
        addition::<A>(a, b, r) && #[trigger] addition::<A>(c, d, s) && !greater(a, c) && !greater(
            b,
            d,
        ) ==> !greater(r, s)
}

/// `x` and `y` are the same number, or neither is one: the same bits up to
/// the sign of a zero and the pattern of a NaN.
pub open spec fn alike(x: u32, y: u32) -> bool {
    ||| x == y
    ||| magnitude(x) == 0 && magnitude(y) == 0
    ||| is_nan(x) && is_nan(y)
}

/// The host's addition of the same numbers gives the same number. Single
/// precision adds this way.
pub open spec fn adds_numbers<A: Arith>() -> bool {
    forall|a: u32, b: u32, c: u32, d: u32, r: u32, s: u32| #[trigger]
        addition::<A>(a, b, r) && #[trigger] addition::<A>(c, d, s) && alike(a, c) && alike(b, d)
            ==> alike(r, s)
}

} // verus!
