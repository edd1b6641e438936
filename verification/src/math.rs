//! Number-theoretic groundwork for the prime modulus `P`: divisibility,
//! Bezout coefficients, and the two facts every gate-soundness argument
//! rests on — a product is zero modulo `P` only if a factor is, and every
//! nonzero residue has a multiplicative inverse.
use vstd::prelude::*;
use vstd::arithmetic::div_mod::lemma_fundamental_div_mod;
use vstd::arithmetic::div_mod::lemma_fundamental_div_mod_converse_mod;
use vstd::arithmetic::div_mod::lemma_mod_bound;
use vstd::arithmetic::div_mod::lemma_mod_is_zero;
use vstd::arithmetic::div_mod::lemma_mod_multiples_basic;
use vstd::arithmetic::div_mod::lemma_mod_multiples_vanish;
use vstd::arithmetic::div_mod::lemma_mod_self_0;
use vstd::arithmetic::div_mod::lemma_mul_mod_noop;
use vstd::arithmetic::div_mod::lemma_mul_mod_noop_general;
use vstd::arithmetic::div_mod::lemma_small_mod;
use crate::P;

verus! {

/// Greatest common divisor, by Euclid's recurrence.
pub open spec fn gcd(a: nat, b: nat) -> nat
    decreases b,
{
    if b == 0 {
        a
    } else {
        gcd(b, a % b)
    }
}

/// No integer in `[2, 256)` divides `P`. Since `256 * 256 > P`, any proper
/// factorization of `P` would have a factor in this interval, so this is
/// the computational core of `P`'s primality.
pub proof fn lemma_p_no_small_divisor(d: int)
    requires
        2 <= d < 256,
    ensures
        P as int % d != 0,
{
    let du = d as u16;
    assert(65521u16 % du != 0) by (bit_vector)
        requires
            2 <= du && du < 256,
    ;
    assert(P as int % d == 65521int % (du as int));
}

/// No integer `d` with `2 <= d < P` divides `P`: a small `d` is ruled out
/// directly, and a large one would have a small cofactor `P / d`.
pub proof fn lemma_p_no_divisor(d: int)
    requires
        2 <= d < P,
    ensures
        P as int % d != 0,
{
    let p = P as int;
    if d < 256 {
        lemma_p_no_small_divisor(d);
    } else if p % d == 0 {
        lemma_fundamental_div_mod(p, d);
        let e = p / d;
        assert(p == d * e);
        assert(2 <= e < 256) by (nonlinear_arith)
            requires
                p == d * e,
                256 <= d < p,
                p == 65521,
        ;
        lemma_mod_multiples_basic(d, e);
        assert((d * e) % e == 0);
        lemma_p_no_small_divisor(e);
        assert(false);
    }
}

/// The gcd is positive when its second argument is, and divides both
/// arguments whenever it is positive.
proof fn lemma_gcd_divides(a: nat, b: nat)
    ensures
        b > 0 ==> gcd(a, b) > 0,
        a > 0 && b == 0 ==> gcd(a, b) > 0,
        gcd(a, b) > 0 ==> (a as int) % (gcd(a, b) as int) == 0 && (b as int) % (gcd(a, b) as int) == 0,
    decreases b,
{
    let g = gcd(a, b);
    if b == 0 {
        if a > 0 {
            lemma_mod_self_0(a as int);
            assert(0int % (a as int) == 0) by {
                lemma_small_mod(0, a);
            }
        }
    } else {
        lemma_gcd_divides(b, a % b);
        assert(g == gcd(b, a % b));
        assert(g > 0);
        assert((b as int) % (g as int) == 0);
        assert(((a % b) as int) % (g as int) == 0);
        // a == (a / b) * b + a % b, and g divides both summands
        lemma_fundamental_div_mod(a as int, b as int);
        let q = a as int / b as int;
        let r = (a % b) as int;
        let gi = g as int;
        lemma_fundamental_div_mod(b as int, gi);
        lemma_fundamental_div_mod(r, gi);
        let kb = b as int / gi;
        let kr = r / gi;
        assert(b as int == gi * kb);
        assert(r == gi * kr);
        assert(a as int == (q * kb + kr) * gi) by (nonlinear_arith)
            requires
                a as int == b as int * q + r,
                b as int == gi * kb,
                r == gi * kr,
        ;
        lemma_mod_multiples_basic(q * kb + kr, gi);
    }
}

/// Bezout coefficients: `a * x + b * y == gcd(a, b)`.
proof fn lemma_bezout(a: nat, b: nat) -> (r: (int, int))
    ensures
        a * r.0 + b * r.1 == gcd(a, b),
    decreases b,
{
    if b == 0 {
        assert(a * 1int + b * 0int == gcd(a, b)) by (nonlinear_arith)
            requires
                b == 0,
                gcd(a, b) == a,
        ;
        (1int, 0int)
    } else {
        let (x, y) = lemma_bezout(b, a % b);
        lemma_fundamental_div_mod(a as int, b as int);
        let q = a as int / b as int;
        assert((a % b) as int == a as int - q * (b as int));
        assert(a * y + b * (x - q * y) == gcd(b, a % b)) by (nonlinear_arith)
            requires
                b as int * x + (a % b) as int * y == gcd(b, a % b),
                (a % b) as int == a as int - q * (b as int),
        ;
        (y, x - q * y)
    }
}

/// A nonzero reduced residue is coprime to the prime `P`.
proof fn lemma_coprime_p(a: nat)
    requires
        1 <= a < P,
    ensures
        gcd(a, P as nat) == 1,
{
    let g = gcd(a, P as nat);
    lemma_gcd_divides(a, P as nat);
    assert(g > 0);
    assert((a as int) % (g as int) == 0);
    assert(P as int % (g as int) == 0);
    if g >= 2 {
        lemma_mod_is_zero(a, g);
        assert(g <= a < P);
        lemma_p_no_divisor(g as int);
        assert(false);
    }
}

/// In the field: a product is zero only if a factor is.
pub proof fn lemma_zero_product(a: int, b: int)
    requires
        a % (P as int) != 0,
        (a * b) % (P as int) == 0,
    ensures
        b % (P as int) == 0,
{
    let p = P as int;
    lemma_mod_bound(a, p);
    lemma_mul_mod_noop_general(a, b, p);
    lemma_zero_product_reduced(a % p, b);
}

proof fn lemma_zero_product_reduced(a: int, b: int)
    requires
        1 <= a < P,
        (a * b) % (P as int) == 0,
    ensures
        b % (P as int) == 0,
{
    let p = P as int;
    lemma_coprime_p(a as nat);
    let (x, y) = lemma_bezout(a as nat, P as nat);
    assert(a * x + p * y == 1);
    lemma_fundamental_div_mod(a * b, p);
    let k = (a * b) / p;
    assert(a * b == p * k);
    // b == (a * x + p * y) * b == x * (a * b) + p * (y * b) == p * (x * k + y * b)
    assert(b == p * (x * k + y * b)) by (nonlinear_arith)
        requires
            a * x + p * y == 1,
            a * b == p * k,
    ;
    lemma_mod_multiples_vanish(x * k + y * b, 0, p);
    assert((p * (x * k + y * b) + 0) % p == 0int % p);
    lemma_small_mod(0, P as nat);
}

/// In the field: every nonzero reduced residue has an inverse.
pub proof fn lemma_inverse_exists(a: int) -> (b: int)
    requires
        1 <= a < P,
    ensures
        0 <= b < P,
        (a * b) % (P as int) == 1,
{
    let p = P as int;
    lemma_coprime_p(a as nat);
    let (x, y) = lemma_bezout(a as nat, P as nat);
    assert(a * x + p * y == 1);
    let b = x % p;
    lemma_mod_bound(x, p);
    lemma_mul_mod_noop_general(a, x, p);
    assert((a * b) % p == (a * x) % p);
    assert(a * x == p * (-y) + 1) by (nonlinear_arith)
        requires
            a * x + p * y == 1,
    ;
    lemma_mod_multiples_vanish(-y, 1, p);
    lemma_small_mod(1, P as nat);
    b
}

/// An integer that is divisible by `P` and smaller than `P` in magnitude
/// is zero.
pub proof fn lemma_small_cong_zero(x: int)
    requires
        -(P as int) < x < P as int,
        x % (P as int) == 0,
    ensures
        x == 0,
{
    let p = P as int;
    if 0 <= x {
        lemma_small_mod(x as nat, P as nat);
    } else {
        lemma_fundamental_div_mod_converse_mod(x, p, -1, x + p);
        assert(x % p == x + p);
    }
}

/// Two reduced residues congruent modulo `P` are equal.
pub proof fn lemma_cong_eq(x: int, y: int)
    requires
        0 <= x < P,
        0 <= y < P,
        (x - y) % (P as int) == 0,
    ensures
        x == y,
{
    lemma_small_cong_zero(x - y);
}

/// A residue has at most one inverse.
pub proof fn lemma_inverse_unique(a: int, b1: int, b2: int)
    requires
        0 <= b1 < P,
        0 <= b2 < P,
        (a * b1) % (P as int) == 1,
        (a * b2) % (P as int) == 1,
    ensures
        b1 == b2,
{
    let p = P as int;
    if a % p == 0 {
        lemma_mul_mod_noop_general(a, b1, p);
        assert((a * b1) % p == ((a % p) * b1) % p);
        assert((0 * b1) % p == 0int % p);
        lemma_small_mod(0, P as nat);
        assert(false);
    }
    vstd::arithmetic::div_mod::lemma_sub_mod_noop(a * b1, a * b2, p);
    assert((a * b1 - a * b2) % p == (1int - 1int) % p);
    lemma_small_mod(0, P as nat);
    assert(a * b1 - a * b2 == a * (b1 - b2)) by (nonlinear_arith);
    lemma_zero_product(a, b1 - b2);
    lemma_cong_eq(b1, b2);
}

/// Congruence is preserved by addition.
pub proof fn lemma_add_congruent(a: int, b: int, a2: int, b2: int)
    requires
        a % (P as int) == a2 % (P as int),
        b % (P as int) == b2 % (P as int),
    ensures
        (a + b) % (P as int) == (a2 + b2) % (P as int),
{
    let p = P as int;
    vstd::arithmetic::div_mod::lemma_add_mod_noop(a, b, p);
    vstd::arithmetic::div_mod::lemma_add_mod_noop(a2, b2, p);
}

/// Congruence is preserved by subtraction.
pub proof fn lemma_sub_congruent(a: int, b: int, a2: int, b2: int)
    requires
        a % (P as int) == a2 % (P as int),
        b % (P as int) == b2 % (P as int),
    ensures
        (a - b) % (P as int) == (a2 - b2) % (P as int),
{
    let p = P as int;
    vstd::arithmetic::div_mod::lemma_sub_mod_noop(a, b, p);
    vstd::arithmetic::div_mod::lemma_sub_mod_noop(a2, b2, p);
}

/// Congruence is preserved by multiplication: replacing each factor by a
/// congruent one does not change the product's residue.
pub proof fn lemma_mul_congruent(a: int, b: int, a2: int, b2: int)
    requires
        a % (P as int) == a2 % (P as int),
        b % (P as int) == b2 % (P as int),
    ensures
        (a * b) % (P as int) == (a2 * b2) % (P as int),
{
    let p = P as int;
    lemma_mul_mod_noop(a, b, p);
    lemma_mul_mod_noop(a2, b2, p);
}

/// A product of eight factors vanishes when any factor does.
pub proof fn lemma_prod8_zero(
    f0: int,
    f1: int,
    f2: int,
    f3: int,
    f4: int,
    f5: int,
    f6: int,
    f7: int,
) by (nonlinear_arith)
    requires
        f0 == 0 || f1 == 0 || f2 == 0 || f3 == 0 || f4 == 0 || f5 == 0 || f6 == 0 || f7 == 0,
    ensures
        f0 * f1 * f2 * f3 * f4 * f5 * f6 * f7 == 0,
{
}

} // verus!
