//! Integer helpers of the `num` crate, with what is believed of them.

use vstd::prelude::*;

verus! {

/// The greatest common divisor of `a` and `b`; `gcd(0, 0)` is 0.
pub open spec fn gcd(a: nat, b: nat) -> nat
    decreases b,
{
    if b == 0 {
        a
    } else {
        gcd(b, a % b)
    }
}

/// The least common multiple of `a` and `b`; 0 where both are 0.
pub open spec fn lcm(a: nat, b: nat) -> nat {
    if a == 0 && b == 0 {
        0
    } else {
        a * (b / gcd(a, b))
    }
}

/// The greatest common divisor of two numbers that are not both 0 is not
/// 0.
pub proof fn lemma_gcd_positive(a: nat, b: nat)
    requires
        a > 0 || b > 0,
    ensures
        gcd(a, b) > 0,
    decreases b,
{
    if b > 0 {
        lemma_gcd_positive(b, a % b);
    }
}

/// The least common multiple is no greater than the product.
pub proof fn lemma_lcm_bound(a: nat, b: nat)
    ensures
        lcm(a, b) <= a * b,
{
    if a > 0 || b > 0 {
        lemma_gcd_positive(a, b);
        let g = gcd(a, b);
        vstd::arithmetic::div_mod::lemma_div_is_ordered_by_denominator(b as int, 1, g as int);
        assert(b as int / 1 == b);
        let q: int = b as int / g as int;
        assert(a * q <= a * b) by (nonlinear_arith)
            requires
                0 <= a,
                q <= b,
        ;
    } else {
        assert(a * b == 0) by (nonlinear_arith)
            requires
                a == 0,
        ;
    }
}

/// The greatest common divisor divides both numbers.
pub proof fn lemma_gcd_divides(a: nat, b: nat)
    requires
        a > 0 || b > 0,
    ensures
        gcd(a, b) > 0,
        a % gcd(a, b) == 0,
        b % gcd(a, b) == 0,
    decreases b,
{
    lemma_gcd_positive(a, b);
    let g = gcd(a, b) as int;
    if b > 0 {
        lemma_gcd_divides(b, a % b);
        let r = (a % b) as int;
        vstd::arithmetic::div_mod::lemma_fundamental_div_mod(a as int, b as int);
        vstd::arithmetic::div_mod::lemma_fundamental_div_mod(b as int, g);
        vstd::arithmetic::div_mod::lemma_fundamental_div_mod(r, g);
        let kb = b as int / g;
        let kr = r / g;
        let q = a as int / b as int;
        assert(a == g * (kb * q + kr)) by (nonlinear_arith)
            requires
                a == b * q + r,
                b == g * kb,
                r == g * kr,
        ;
        vstd::arithmetic::div_mod::lemma_mod_multiples_basic(kb * q + kr, g);
        assert(g * (kb * q + kr) == (kb * q + kr) * g) by (nonlinear_arith);
    } else {
        vstd::arithmetic::div_mod::lemma_mod_self_0(g);
        vstd::arithmetic::div_mod::lemma_small_mod(0, g as nat);
    }
}

/// The least common multiple of two numbers above 0 is above 0 and a
/// multiple of both.
pub proof fn lemma_lcm_multiple(a: nat, b: nat)
    requires
        a > 0,
        b > 0,
    ensures
        lcm(a, b) > 0,
        lcm(a, b) % a == 0,
        lcm(a, b) % b == 0,
{
    lemma_gcd_divides(a, b);
    let g = gcd(a, b) as int;
    let ka = a as int / g;
    let kb = b as int / g;
    vstd::arithmetic::div_mod::lemma_fundamental_div_mod(a as int, g);
    vstd::arithmetic::div_mod::lemma_fundamental_div_mod(b as int, g);
    assert(kb > 0 && ka > 0) by (nonlinear_arith)
        requires
            a == g * ka,
            b == g * kb,
            a > 0,
            b > 0,
            g > 0,
    ;
    assert(a * kb > 0) by (nonlinear_arith)
        requires
            a > 0,
            kb > 0,
    ;
    assert(a * kb == kb * a) by (nonlinear_arith);
    assert(a * kb == ka * b) by (nonlinear_arith)
        requires
            a == g * ka,
            b == g * kb,
    ;
    vstd::arithmetic::div_mod::lemma_mod_multiples_basic(kb, a as int);
    vstd::arithmetic::div_mod::lemma_mod_multiples_basic(ka, b as int);
}

/// `num::Integer::div_rem` on `usize`: the quotient and the remainder of the
/// truncating division, which for unsigned numbers is the usual one. The
/// divisor must not be 0.
#[verifier::external_body]
pub(crate) fn div_rem(a: usize, b: usize) -> (r: (usize, usize))
    requires
        b != 0,
    ensures
        r.0 == a / b,
        r.1 == a % b,
{
    num::Integer::div_rem(&a, &b)
}

/// `num::Integer::lcm` on `u64`: the least common multiple, computed as
/// `a * (b / gcd)`, which must fit.
#[verifier::external_body]
pub(crate) fn lcm_u64(a: u64, b: u64) -> (r: u64)
    requires
        lcm(a as nat, b as nat) <= u64::MAX,
    ensures
        r == lcm(a as nat, b as nat),
{
    num::Integer::lcm(&a, &b)
}

} // verus!
