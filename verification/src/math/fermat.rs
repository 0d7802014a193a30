//! Fermat's little theorem, by way of the binomial theorem: modulo a prime
//! `p`, the `p`-th power of a sum is the sum of the `p`-th powers.

use crate::math::binomial::{
    binomial, factorial, lemma_binomial_above, lemma_binomial_all, lemma_binomial_factorial,
    lemma_prime_coprime_factorial,
};
use crate::math::modular::{
    divides, inverse_mod, is_prime, lemma_inverse_exists, lemma_mul_congruent,
    lemma_prime_coprime, lemma_prime_divides_product, mul_mod, pow_mod,
};
use vstd::arithmetic::div_mod::{
    lemma_add_mod_noop, lemma_mod_bound, lemma_mod_multiples_basic, lemma_mod_twice,
    lemma_mul_mod_noop, lemma_small_mod,
};
use vstd::arithmetic::power::{lemma0_pow, lemma_pow0, lemma_pow_adds, pow};
use vstd::prelude::*;

verus! {

/// The terms of the binomial expansion of `(x + 1)^n` up to the one in
/// `x^j`, added up.
pub open spec fn binomial_sum(n: nat, j: nat, x: int) -> int
    decreases j,
{
    if j == 0 {
        binomial(n, 0) * pow(x, 0)
    } else {
        binomial_sum(n, (j - 1) as nat, x) + binomial(n, j) * pow(x, j)
    }
}

/// Pascal's rule, carried from the coefficients to the sums.
proof fn lemma_binomial_sum_pascal(n: nat, j: nat, x: int)
    requires
        j >= 1,
    ensures
        binomial_sum(n + 1, j, x) == x * binomial_sum(n, (j - 1) as nat, x) + binomial_sum(n, j, x),
    decreases j,
{
    let j1 = (j - 1) as nat;
    let ca = binomial(n, j1) as int;
    let cb = binomial(n, j) as int;
    let xj = pow(x, j);
    let xj1 = pow(x, j1);
    assert(binomial(n + 1, j) == ca + cb);
    assert(xj == x * xj1) by {
        reveal(pow);
    }
    if j == 1 {
        lemma_pow0(x);
        assert(binomial_sum(n + 1, 0, x) == 1);
        assert(binomial_sum(n, 0, x) == 1);
        assert(1 + (ca + cb) * xj == x * 1 + (1 + cb * xj)) by (nonlinear_arith)
            requires
                ca == 1,
                xj == x * xj1,
                xj1 == 1,
        ;
    } else {
        lemma_binomial_sum_pascal(n, j1, x);
        let s2 = binomial_sum(n, (j - 2) as nat, x);
        let s1 = binomial_sum(n, j1, x);
        assert(s1 == s2 + ca * xj1);
        assert((x * s2 + s1) + (ca + cb) * xj == x * (s2 + ca * xj1) + (s1 + cb * xj))
            by (nonlinear_arith)
            requires
                xj == x * xj1,
        ;
    }
}

/// The binomial theorem for `(x + 1)^n`.
pub proof fn lemma_binomial_theorem(n: nat, x: int)
    ensures
        binomial_sum(n, n, x) == pow(x + 1, n),
    decreases n,
{
    if n == 0 {
        lemma_pow0(x);
        lemma_pow0(x + 1);
    } else {
        let n1 = (n - 1) as nat;
        lemma_binomial_theorem(n1, x);
        lemma_binomial_sum_pascal(n1, n, x);
        lemma_binomial_above(n1, n);
        let s = binomial_sum(n1, n1, x);
        assert(binomial_sum(n1, n, x) == s + 0 * pow(x, n));
        assert(pow(x + 1, n) == (x + 1) * pow(x + 1, n1)) by {
            reveal(pow);
        }
        assert(x * s + s == (x + 1) * s) by (nonlinear_arith);
    }
}

/// A prime divides the binomial coefficients of its row, but for the two
/// at the ends.
pub proof fn lemma_prime_divides_binomial(p: nat, k: nat)
    requires
        is_prime(p as int),
        0 < k < p,
    ensures
        divides(p as int, binomial(p, k) as int),
{
    let l = (p - k) as nat;
    let c = binomial(p, k) as int;
    let fk = factorial(k) as int;
    let fl = factorial(l) as int;
    lemma_binomial_factorial(p, k);
    assert(factorial(p) == p * factorial((p - 1) as nat));
    lemma_mod_multiples_basic(factorial((p - 1) as nat) as int, p as int);
    assert(p * factorial((p - 1) as nat) == factorial((p - 1) as nat) * p) by (nonlinear_arith);
    assert(divides(p as int, (c * fk) * fl));
    lemma_prime_coprime_factorial(k, p as int);
    lemma_prime_coprime_factorial(l, p as int);
    lemma_prime_divides_product(p as int, c * fk, fl);
    lemma_prime_divides_product(p as int, c, fk);
}

/// Modulo a prime `p`, the expansion of `(x + 1)^p` short of its last term
/// comes to 1.
proof fn lemma_binomial_sum_mod_prime(p: nat, j: nat, x: int)
    requires
        is_prime(p as int),
        j < p,
    ensures
        binomial_sum(p, j, x) % (p as int) == 1,
    decreases j,
{
    lemma_small_mod(1, p);
    if j == 0 {
        lemma_pow0(x);
    } else {
        let j1 = (j - 1) as nat;
        lemma_binomial_sum_mod_prime(p, j1, x);
        lemma_prime_divides_binomial(p, j);
        let c = binomial(p, j) as int;
        lemma_small_mod(0, p);
        lemma_mul_congruent(c, 0, pow(x, j), pow(x, j), p as int);
        assert(0 * pow(x, j) == 0);
        lemma_add_mod_noop(binomial_sum(p, j1, x), c * pow(x, j), p as int);
    }
}

/// Modulo a prime `p`, the `p`-th power of `x + 1` is the `p`-th power of
/// `x`, plus 1.
pub proof fn lemma_power_of_successor(p: nat, x: int)
    requires
        is_prime(p as int),
    ensures
        pow(x + 1, p) % (p as int) == (pow(x, p) + 1) % (p as int),
{
    let top = (p - 1) as nat;
    lemma_binomial_theorem(p, x);
    lemma_binomial_sum_mod_prime(p, top, x);
    lemma_binomial_all(p);
    let s = binomial_sum(p, top, x);
    let t = pow(x, p);
    assert(binomial_sum(p, p, x) == s + 1 * t);
    assert(1 * t == t);
    assert(pow(x + 1, p) == s + t);
    lemma_small_mod(1, p);
    lemma_add_mod_noop(s, t, p as int);
    lemma_add_mod_noop(1, t, p as int);
    assert(t + 1 == 1 + t);
}

/// Modulo a prime `p`, the `p`-th power of a number is the number.
pub proof fn lemma_power_prime(p: nat, a: nat)
    requires
        is_prime(p as int),
    ensures
        pow(a as int, p) % (p as int) == a % p,
    decreases a,
{
    if a == 0 {
        lemma0_pow(p);
    } else {
        let a1 = (a - 1) as nat;
        lemma_power_prime(p, a1);
        lemma_power_of_successor(p, a1 as int);
        lemma_add_mod_noop(pow(a1 as int, p), 1, p as int);
        lemma_add_mod_noop(a1 as int, 1, p as int);
    }
}

/// Fermat's little theorem: modulo a prime `p`, the power `p - 1` of a
/// number that `p` does not divide is 1.
pub proof fn lemma_fermat(p: nat, a: nat)
    requires
        is_prime(p as int),
        a % p != 0,
    ensures
        pow_mod(a as int, (p - 1) as nat, p as int) == 1,
{
    let m = p as int;
    let r = a as int % m;
    let t = pow(a as int, (p - 1) as nat);
    lemma_mod_bound(a as int, m);
    lemma_prime_coprime(r, m);
    lemma_inverse_exists(r, m);
    let w = inverse_mod(r, m);
    lemma_small_mod(1, p);
    // w * a ≡ w * r ≡ 1, and a * t = a^p ≡ a
    lemma_mod_twice(a as int, m);
    lemma_mul_congruent(w, w, a as int, r, m);
    lemma_power_prime(p, a);
    assert(pow(a as int, p) == a * t) by {
        reveal(pow);
    }
    // t ≡ (w * a) * t = w * (a * t) ≡ w * a ≡ 1
    lemma_mul_congruent(w * a, 1, t, t, m);
    lemma_mul_congruent(w, w, a * t, a as int, m);
    assert((w * a) * t == w * (a * t)) by (nonlinear_arith);
    assert(1 * t == t);
}

/// Modulo a prime `p`, the powers `e` and `p - 1 - e` of a nonzero residue
/// multiply to its power `p - 1`, which is 1.
pub proof fn law_fermat(a: int, e: nat, p: int)
    requires
        is_prime(p),
        0 < a < p,
        e <= p - 1,
    ensures
        mul_mod(pow_mod(a, e, p), pow_mod(a, (p - 1 - e) as nat, p), p) == pow_mod(
            a,
            (p - 1) as nat,
            p,
        ),
        pow_mod(a, (p - 1) as nat, p) == 1,
{
    lemma_small_mod(a as nat, p as nat);
    lemma_fermat(p as nat, a as nat);
    lemma_pow_adds(a, e, (p - 1 - e) as nat);
    lemma_mul_mod_noop(pow(a, e), pow(a, (p - 1 - e) as nat), p);
}

} // verus!
