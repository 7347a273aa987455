//! What the operations on bit patterns and numerals mean, told over the
//! patterns and the characters.
use crate::float::{
    addition, adds_in_order, adds_numbers, alike, clamped, conversion, deterministic, greater, gt,
    is_nan, larger, magnitude, max, max_abs, product, quantise, quotient, rounding, Arith,
};
use crate::text::decimal;
use vstd::prelude::*;

verus! {

/// A pattern is not a number exactly where its exponent is all ones and its
/// fraction is not zero; its magnitude is the pattern without the sign.
pub proof fn a_pattern_is_a_number_by_its_fields(x: u32)
    ensures
        is_nan(x) <==> (x / 0x80_0000) % 256 == 255 && x % 0x80_0000 != 0,
        x < 0x8000_0000 ==> magnitude(x) == x,
        x >= 0x8000_0000 ==> magnitude(x) == x - 0x8000_0000,
{
}

/// `a > b` holds between numbers only, by sign and magnitude, the two zeros
/// being equal; it is an order in which any two numbers that are not equal
/// compare.
pub proof fn greater_orders_the_numbers(a: u32, b: u32, c: u32, r: bool)
    requires
        call_ensures(gt, (a, b), r),
    ensures
        r == greater(a, b),
        a % 0x8000_0000 > 0x7f80_0000 || b % 0x8000_0000 > 0x7f80_0000 ==> !r,
        a % 0x8000_0000 <= 0x7f80_0000 && b % 0x8000_0000 <= 0x7f80_0000 ==> (r <==> (if a
            < 0x8000_0000 && b < 0x8000_0000 {
            a > b
        } else if a >= 0x8000_0000 && b >= 0x8000_0000 {
            a < b
        } else {
            a < 0x8000_0000 && (a != 0 || b != 0x8000_0000)
        })),
        !greater(a, a),
        greater(a, b) ==> !greater(b, a),
        greater(a, b) && greater(b, c) ==> greater(a, c),
        !greater(a, b) && !greater(b, a) ==> alike(a, b) || a % 0x8000_0000 > 0x7f80_0000 || b
            % 0x8000_0000 > 0x7f80_0000,
{
}

/// Two patterns are alike where they are the same bits, two zeros, or neither
/// a number.
pub proof fn alike_is_equality_of_numbers(a: u32, b: u32)
    ensures
        alike(a, b) <==> a == b || (a % 0x8000_0000 == 0 && b % 0x8000_0000 == 0) || (a
            % 0x8000_0000 > 0x7f80_0000 && b % 0x8000_0000 > 0x7f80_0000),
{
}

/// The larger of two values is one of them and not below a number among them:
/// the second where the first is no number or is below it, else the first.
pub proof fn max_is_the_larger(a: u32, b: u32, r: u32)
    requires
        call_ensures(max, (a, b), r),
    ensures
        r == larger(a, b),
        r == a || r == b,
        !greater(a, r),
        !greater(b, r),
        a % 0x8000_0000 > 0x7f80_0000 ==> r == b,
        a % 0x8000_0000 <= 0x7f80_0000 ==> (r == b <==> a == b || greater(b, a)),
{
}

/// The largest magnitude of a slice is at least that of every number in it,
/// and is that of one unless it is zero; so it does not change when the slice
/// is rearranged, and it grows with the slice.
pub proof fn max_abs_is_the_largest_magnitude(values: &[u32], m: u32)
    requires
        call_ensures(max_abs, (values,), m),
    ensures
        m <= 0x7f80_0000,
        forall|i: int|
            0 <= i < values@.len() && #[trigger] values@[i] % 0x8000_0000 <= 0x7f80_0000
                ==> values@[i] % 0x8000_0000 <= m,
        m == 0 || exists|i: int|
            0 <= i < values@.len() && #[trigger] values@[i] % 0x8000_0000 == m,
{
    assert forall|i: int|
        0 <= i < values@.len() && #[trigger] values@[i] % 0x8000_0000
            <= 0x7f80_0000 implies values@[i] % 0x8000_0000 <= m by {
        assert(!is_nan(values@[i]));
    }
    if m != 0 {
        let i = choose|i: int|
            0 <= i < values@.len() && !is_nan(#[trigger] values@[i]) && magnitude(values@[i]) == m;
        assert(values@[i] % 0x8000_0000 == m);
    }
}

/// A code is the rounded quotient of value and scale, and at most 127 in
/// magnitude: cut off at 127 and at -127.
pub proof fn a_code_is_the_rounded_quotient<A: Arith>(x: u32, scale: u32, v: i8) -> (w: (u32, i32))
    requires
        call_ensures(quantise::<A>, (x, scale), v),
    ensures
        call_ensures(A::div, (x, scale), w.0),
        call_ensures(A::round_to_i32, (w.0,), w.1),
        -127 <= w.1 <= 127 ==> v == w.1,
        w.1 > 127 ==> v == 127,
        w.1 < -127 ==> v == -127,
{
    choose|q: u32, n: i32| #[trigger]
        quotient::<A>(x, scale, q) && #[trigger] rounding::<A>(q, n) && v == clamped(n as int)
}

/// An arithmetic is deterministic exactly where each of its five operations
/// gives equal results for equal arguments.
pub proof fn deterministic_is_equal_results_for_equal_arguments<A: Arith>()
    ensures
        deterministic::<A>() <==> {
            &&& forall|a: u32, b: u32, r: u32, s: u32| #[trigger]
                call_ensures(A::div, (a, b), r) && #[trigger] call_ensures(A::div, (a, b), s) ==> r
                    == s
            &&& forall|a: u32, b: u32, r: u32, s: u32| #[trigger]
                call_ensures(A::mul, (a, b), r) && #[trigger] call_ensures(A::mul, (a, b), s) ==> r
                    == s
            &&& forall|a: u32, b: u32, r: u32, s: u32| #[trigger]
                call_ensures(A::add, (a, b), r) && #[trigger] call_ensures(A::add, (a, b), s) ==> r
                    == s
            &&& forall|x: i32, r: u32, s: u32| #[trigger]
                call_ensures(A::from_i32, (x,), r) && #[trigger] call_ensures(A::from_i32, (x,), s)
                    ==> r == s
            &&& forall|x: u32, r: i32, s: i32| #[trigger]
                call_ensures(A::round_to_i32, (x,), r) && #[trigger] call_ensures(
                    A::round_to_i32,
                    (x,),
                    s,
                ) ==> r == s
        },
{
    if deterministic::<A>() {
        assert forall|a: u32, b: u32, r: u32, s: u32| #[trigger]
            call_ensures(A::div, (a, b), r) && #[trigger] call_ensures(
                A::div,
                (a, b),
                s,
            ) implies r == s by {
            assert(quotient::<A>(a, b, r) && quotient::<A>(a, b, s));
        }
        assert forall|a: u32, b: u32, r: u32, s: u32| #[trigger]
            call_ensures(A::mul, (a, b), r) && #[trigger] call_ensures(
                A::mul,
                (a, b),
                s,
            ) implies r == s by {
            assert(product::<A>(a, b, r) && product::<A>(a, b, s));
        }
        assert forall|a: u32, b: u32, r: u32, s: u32| #[trigger]
            call_ensures(A::add, (a, b), r) && #[trigger] call_ensures(
                A::add,
                (a, b),
                s,
            ) implies r == s by {
            assert(addition::<A>(a, b, r) && addition::<A>(a, b, s));
        }
        assert forall|x: i32, r: u32, s: u32| #[trigger]
            call_ensures(A::from_i32, (x,), r) && #[trigger] call_ensures(
                A::from_i32,
                (x,),
                s,
            ) implies r == s by {
            assert(conversion::<A>(x, r) && conversion::<A>(x, s));
        }
        assert forall|x: u32, r: i32, s: i32| #[trigger]
            call_ensures(A::round_to_i32, (x,), r) && #[trigger] call_ensures(
                A::round_to_i32,
                (x,),
                s,
            ) implies r == s by {
            assert(rounding::<A>(x, r) && rounding::<A>(x, s));
        }
    }
}

/// An addition that never falls where no operand falls is one that adds in
/// order, and one that gives alike results for alike operands adds numbers.
pub proof fn additions_are_judged_by_their_results<A: Arith>()
    ensures
        (forall|a: u32, b: u32, c: u32, d: u32, r: u32, s: u32| #[trigger]
            call_ensures(A::add, (a, b), r) && #[trigger] call_ensures(A::add, (c, d), s)
                && !greater(a, c) && !greater(b, d) ==> !greater(r, s)) ==> adds_in_order::<A>(),
        (forall|a: u32, b: u32, c: u32, d: u32, r: u32, s: u32| #[trigger]
            call_ensures(A::add, (a, b), r) && #[trigger] call_ensures(A::add, (c, d), s) && alike(
                a,
                c,
            ) && alike(b, d) ==> alike(r, s)) ==> adds_numbers::<A>(),
{
}

/// A numeral is digits whose value, read from the left in base ten, is the
/// number; it starts with 0 only if it is `0`.
pub proof fn a_numeral_reads_back_as_its_number(n: nat) -> (values: Seq<nat>)
    ensures
        decimal(n).len() >= 1,
        values.len() == decimal(n).len() + 1,
        values[0] == 0,
        values[decimal(n).len() as int] == n,
        forall|i: int|
            0 <= i < decimal(n).len() ==> '0' <= #[trigger] decimal(n)[i] && decimal(n)[i] <= '9'
                && values[i + 1] == 10 * values[i] + (decimal(n)[i] as int - '0' as int),
        decimal(n).len() > 1 ==> decimal(n)[0] != '0',
    decreases n,
{
    if n < 10 {
        seq![0nat, n]
    } else {
        let before = a_numeral_reads_back_as_its_number(n / 10);
        let values = before.push(n);
        let text = decimal(n);
        let shorter = decimal(n / 10);
        assert(text.len() == shorter.len() + 1);
        assert forall|i: int| 0 <= i < text.len() implies '0' <= #[trigger] text[i] && text[i]
            <= '9' && values[i + 1] == 10 * values[i] + (text[i] as int - '0' as int) by {
            if i < shorter.len() {
                assert(text[i] == shorter[i]);
                assert(values[i] == before[i]);
                assert(values[i + 1] == before[i + 1]);
            } else {
                assert(values[i] == n / 10);
            }
        }
        if shorter.len() == 1 {
            assert(before[1] == 10 * before[0] + (shorter[0] as int - '0' as int));
            assert(n / 10 > 0);
        }
        values
    }
}

} // verus!
