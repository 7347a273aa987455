//! Binary digits of small naturals.
use vstd::arithmetic::div_mod::{
    lemma_div_multiples_vanish_fancy, lemma_fundamental_div_mod, lemma_hoist_over_denominator,
    lemma_small_mod,
};
use vstd::arithmetic::power2::{lemma2_to64, lemma_pow2_adds, lemma_pow2_pos, lemma_pow2_unfold, pow2};
use vstd::prelude::*;

verus! {

/// Bit `i` of a number, 0 being the lowest.
pub open spec fn bit(x: nat, i: nat) -> nat {
    (x / pow2(i)) % 2
}

/// The number whose lowest `n` bits are `f(0)`, `f(1)`, ...
pub open spec fn number(f: spec_fn(nat) -> nat, n: nat) -> nat
    decreases n,
{
    if n == 0 {
        0
    } else {
        number(f, (n - 1) as nat) + f((n - 1) as nat) * pow2((n - 1) as nat)
    }
}

pub proof fn lemma_number_eq(f: spec_fn(nat) -> nat, g: spec_fn(nat) -> nat, n: nat)
    requires
        forall|i: nat| i < n ==> #[trigger] f(i) == g(i),
    ensures
        number(f, n) == number(g, n),
    decreases n,
{
    if n > 0 {
        lemma_number_eq(f, g, (n - 1) as nat);
    }
}

/// Adding a multiple of a higher power leaves the lower bits alone.
pub proof fn lemma_bit_add(v: nat, c: nat, n: nat, i: nat)
    requires
        i < n,
    ensures
        bit(v + c * pow2(n), i) == bit(v, i),
{
    let e = (n - i - 1) as nat;
    lemma_pow2_pos(i);
    lemma_pow2_adds(i, (n - i) as nat);
    lemma_pow2_unfold((n - i) as nat);
    let p = pow2(i) as int;
    let m = c * pow2(e);
    assert(c * pow2(n) == p * (2 * m)) by (nonlinear_arith)
        requires
            pow2(n) == p * (2 * pow2(e)),
            m == c * pow2(e),
    ;
    lemma_hoist_over_denominator(v as int, (2 * m) as int, pow2(i));
    assert((2 * m) * p == p * (2 * m)) by (nonlinear_arith);
    let q = v as int / p;
    assert((v + c * pow2(n)) as int / p == q + 2 * m);
}

proof fn lemma_bit_top(v: nat, c: nat, n: nat)
    requires
        v < pow2(n),
        c < 2,
    ensures
        bit(v + c * pow2(n), n) == c,
{
    lemma_pow2_pos(n);
    let p = pow2(n) as int;
    lemma_div_multiples_vanish_fancy(c as int, v as int, p);
    assert(p * c + v == v + c * pow2(n)) by (nonlinear_arith)
        requires
            p == pow2(n),
    ;
}

pub proof fn lemma_number(f: spec_fn(nat) -> nat, n: nat)
    requires
        forall|i: nat| i < n ==> #[trigger] f(i) < 2,
    ensures
        number(f, n) < pow2(n),
        forall|i: nat| i < n ==> #[trigger] bit(number(f, n), i) == f(i),
    decreases n,
{
    if n == 0 {
        lemma2_to64();
    } else {
        let m = (n - 1) as nat;
        lemma_number(f, m);
        let c = f(m);
        lemma_pow2_unfold(n);
        assert(c * pow2(m) <= pow2(m)) by (nonlinear_arith)
            requires
                c < 2,
        ;
        assert forall|i: nat| i < n implies #[trigger] bit(number(f, n), i) == f(i) by {
            if i < m {
                lemma_bit_add(number(f, m), c, m, i);
                assert(bit(number(f, m), i) == f(i));
            } else {
                lemma_bit_top(number(f, m), c, m);
            }
        }
    }
}

/// A number below `2^n` is made of its lowest `n` bits.
pub proof fn lemma_number_of_bits(x: nat, n: nat)
    requires
        x < pow2(n),
    ensures
        number(|i: nat| bit(x, i), n) == x,
    decreases n,
{
    let f = |i: nat| bit(x, i);
    if n == 0 {
        lemma2_to64();
    } else {
        let m = (n - 1) as nat;
        lemma_pow2_pos(m);
        lemma_pow2_unfold(n);
        let p = pow2(m) as int;
        let low = (x as int % p) as nat;
        let c = (x as int / p) as nat;
        lemma_fundamental_div_mod(x as int, p);
        assert(c < 2) by (nonlinear_arith)
            requires
                x as int == p * c + low,
                x < 2 * p,
                p > 0,
        ;
        assert(x == low + c * pow2(m)) by (nonlinear_arith)
            requires
                x as int == p * c + low,
                p == pow2(m),
        ;
        lemma_small_mod(c, 2);
        lemma_number_of_bits(low, m);
        let g = |i: nat| bit(low, i);
        assert forall|i: nat| i < m implies #[trigger] f(i) == g(i) by {
            lemma_bit_add(low, c, m, i);
        }
        lemma_number_eq(f, g, m);
        assert(f(m) == c);
    }
}

/// Two numbers below `2^n` with the same lowest `n` bits are equal.
pub proof fn lemma_same_bits(x: nat, y: nat, n: nat)
    requires
        x < pow2(n),
        y < pow2(n),
        forall|i: nat| i < n ==> #[trigger] bit(x, i) == bit(y, i),
    ensures
        x == y,
{
    lemma_number_of_bits(x, n);
    lemma_number_of_bits(y, n);
    let f = |i: nat| bit(x, i);
    let g = |i: nat| bit(y, i);
    assert forall|i: nat| i < n implies #[trigger] f(i) == g(i) by {
        assert(bit(x, i) == bit(y, i));
    }
    lemma_number_eq(f, g, n);
}

} // verus!
