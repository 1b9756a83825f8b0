//! Laws relating the integer and complex operations, stated over the
//! mathematical values that the operations' contracts speak of.
use crate::big_complex::{c_mul, c_sub, conj, norm, rot90};
use crate::theory::{
    abs, factorial, gcd, lcm, lemma_gcd_divides, lemma_neg_mod, mod_floor, trunc_div, trunc_rem,
};
use vstd::arithmetic::div_mod::{
    lemma_div_multiples_vanish, lemma_fundamental_div_mod, lemma_mod_multiples_basic, lemma_mod_twice,
    lemma_mul_mod_noop_right,
};
use vstd::arithmetic::mul::lemma_mul_is_commutative;
use vstd::arithmetic::power::pow;
use vstd::prelude::*;

verus! {

/// Adding then subtracting `b` gives `a` back, one is the multiplicative
/// identity, and `a` plus its negation is zero (`add`, `sub`, `mul` and
/// `neg` compute exactly these).
pub proof fn law_ring_identities(a: int, b: int)
    ensures
        (a + b) - b == a,
        a * 1 == a,
        a + (-a) == 0,
{
}

/// The greatest common divisor is never negative, and for non-zero `a` and
/// `b` it times the least common multiple is `|a * b|`.
pub proof fn law_gcd_times_lcm(a: int, b: int)
    ensures
        gcd(abs(a), abs(b)) >= 0,
        a != 0 && b != 0 ==> gcd(abs(a), abs(b)) * lcm(abs(a), abs(b)) == abs(a * b),
{
    if a != 0 && b != 0 {
        lemma_gcd_divides(abs(a), abs(b));
        let (x, y) = (abs(a) as int, abs(b) as int);
        let g = gcd(abs(a), abs(b)) as int;
        lemma_fundamental_div_mod(x, g);
        let q = x / g;
        assert(x * y == g * (q * y)) by (nonlinear_arith)
            requires
                x == g * q,
        ;
        lemma_div_multiples_vanish(q * y, g);
        assert(abs(a * b) == x * y) by (nonlinear_arith)
            requires
                x == abs(a),
                y == abs(b),
        ;
    }
}

/// `mod_pow` reduced after every multiplication agrees with reducing the
/// full power once: one more factor `a` can be applied to the reduced value.
pub proof fn law_mod_pow_step(a: int, e: nat, m: int)
    requires
        m != 0,
    ensures
        mod_floor(pow(a, e + 1), m) == mod_floor(a * mod_floor(pow(a, e), m), m),
{
    let k = abs(m) as int;
    let x = pow(a, e);
    let y = mod_floor(x, m);
    assert(pow(a, e + 1) == a * x) by {
        reveal(pow);
    }
    assert(y % k == x % k) by {
        if m < 0 {
            let r = (-x) % k;
            lemma_neg_mod(-x, k);
            lemma_neg_mod(r, k);
            lemma_mod_twice(-x, k);
            assert(-(-x) == x);
        } else {
            lemma_mod_twice(x, k);
        }
    }
    lemma_mul_mod_noop_right(a, x, k);
    lemma_mul_mod_noop_right(a, y, k);
    lemma_mod_floor_congruent(a * x, a * y, m);
}

/// Values congruent modulo `|m|` have the same floor remainder.
pub proof fn lemma_mod_floor_congruent(x: int, y: int, m: int)
    requires
        m != 0,
        x % (abs(m) as int) == y % (abs(m) as int),
    ensures
        mod_floor(x, m) == mod_floor(y, m),
{
    if m < 0 {
        lemma_neg_mod(x, -m);
        lemma_neg_mod(y, -m);
    }
}

/// `n! == n * (n - 1)!` for `n >= 1`.
pub proof fn law_factorial_step(n: int)
    requires
        n >= 1,
    ensures
        factorial(n as nat) == n * factorial((n - 1) as nat),
{
}

/// Four quarter turns are the identity.
pub proof fn law_rotate_four_times(z: (int, int))
    ensures
        rot90(rot90(rot90(rot90(z)))) == z,
{
}

/// Conjugation is an involution, and `z * conj(z)` is the real number
/// `|z|^2`.
pub proof fn law_conjugate(z: (int, int))
    ensures
        conj(conj(z)) == z,
        c_mul(z, conj(z)) == (norm(z), 0int),
{
    let (a, b) = z;
    assert(a * (-b) + b * a == 0 && a * a - b * (-b) == a * a + b * b) by (nonlinear_arith);
}

/// The distance between two values is the squared magnitude of their
/// difference (`distance_to` and `magnitude_squared` of `sub`).
pub proof fn law_distance(z1: (int, int), z2: (int, int))
    ensures
        norm(c_sub(z1, z2)) == (z1.0 - z2.0) * (z1.0 - z2.0) + (z1.1 - z2.1) * (z1.1 - z2.1),
{
}

/// Dividing a scaled value exactly by the same non-zero factor gives it back:
/// both parts divide evenly and the quotients are the parts.
pub proof fn law_div_exact_of_scale(z: (int, int), k: int)
    requires
        k != 0,
    ensures
        trunc_rem(z.0 * k, k) == 0,
        trunc_rem(z.1 * k, k) == 0,
        trunc_div(z.0 * k, k) == z.0,
        trunc_div(z.1 * k, k) == z.1,
{
    lemma_exact_quotient(z.0, k);
    lemma_exact_quotient(z.1, k);
}

/// `x * k` divided by `k`, rounding toward zero, is exact.
proof fn lemma_exact_quotient(x: int, k: int)
    requires
        k != 0,
    ensures
        trunc_rem(x * k, k) == 0,
        trunc_div(x * k, k) == x,
{
    let (ax, ak) = (abs(x) as int, abs(k) as int);
    assert(abs(x * k) == ax * ak) by (nonlinear_arith)
        requires
            ax == abs(x),
            ak == abs(k),
    ;
    lemma_mod_multiples_basic(ax, ak);
    lemma_mul_is_commutative(ax, ak);
    lemma_div_multiples_vanish(ax, ak);
    assert((x * k < 0) == ((x < 0) != (k < 0)) || x == 0) by (nonlinear_arith)
        requires
            k != 0,
    ;
    if x == 0 {
        assert(x * k == 0);
    }
}

} // verus!
