//! Factorials and binomial coefficients as mathematics.

use crate::math::modular::{
    add_mod, coprime, divides, is_prime, lemma_prime_divides_product,
};
use vstd::arithmetic::div_mod::{lemma_add_mod_noop, lemma_small_mod};
use vstd::arithmetic::mul::{lemma_mul_equality_converse, lemma_mul_strictly_positive};
use vstd::prelude::*;

verus! {

/// `n!`, the product of the numbers from 1 to `n`.
pub open spec fn factorial(n: nat) -> nat
    decreases n,
{
    if n == 0 {
        1
    } else {
        n * factorial((n - 1) as nat)
    }
}

/// The binomial coefficient: the number of ways to pick `k` things out of
/// `n`, by Pascal's rule.
pub open spec fn binomial(n: nat, k: nat) -> nat
    decreases n,
{
    if k == 0 {
        1
    } else if n == 0 {
        0
    } else {
        binomial((n - 1) as nat, (k - 1) as nat) + binomial((n - 1) as nat, k)
    }
}

/// The binomial coefficient reduced modulo `m`.
pub open spec fn binomial_mod(n: nat, k: nat, m: int) -> int {
    binomial(n, k) as int % m
}

/// A factorial is positive.
pub proof fn lemma_factorial_positive(n: nat)
    ensures
        factorial(n) > 0,
    decreases n,
{
    if n > 0 {
        lemma_factorial_positive((n - 1) as nat);
        lemma_mul_strictly_positive(n as int, factorial((n - 1) as nat) as int);
    }
}

/// There is no way to pick more than there is.
pub proof fn lemma_binomial_above(n: nat, k: nat)
    requires
        k > n,
    ensures
        binomial(n, k) == 0,
    decreases n,
{
    if n > 0 {
        lemma_binomial_above((n - 1) as nat, (k - 1) as nat);
        lemma_binomial_above((n - 1) as nat, k);
    }
}

/// There is one way to pick everything.
pub proof fn lemma_binomial_all(n: nat)
    ensures
        binomial(n, n) == 1,
    decreases n,
{
    if n > 0 {
        lemma_binomial_all((n - 1) as nat);
        lemma_binomial_above((n - 1) as nat, n);
    }
}

/// The binomial coefficient times the factorials of `k` and of `n - k` is
/// the factorial of `n`.
pub proof fn lemma_binomial_factorial(n: nat, k: nat)
    requires
        k <= n,
    ensures
        binomial(n, k) * factorial(k) * factorial((n - k) as nat) == factorial(n),
    decreases n,
{
    if k == 0 {
        assert(1 * 1 * factorial(n) == factorial(n));
    } else if k == n {
        lemma_binomial_all(n);
        assert(1 * factorial(n) * 1 == factorial(n));
    } else {
        let n1 = (n - 1) as nat;
        let k1 = (k - 1) as nat;
        let l = (n - k) as nat;
        let l1 = (n - k - 1) as nat;
        lemma_binomial_factorial(n1, k1);
        lemma_binomial_factorial(n1, k);
        let fk1 = factorial(k1) as int;
        let fl1 = factorial(l1) as int;
        let ba = binomial(n1, k1) as int;
        let bb = binomial(n1, k) as int;
        let fn1 = factorial(n1) as int;
        assert(factorial(k) == k * fk1);
        assert(factorial(l) == l * fl1);
        assert(factorial(n) == n * fn1);
        assert(ba * fk1 * (l * fl1) == fn1);
        assert(bb * (k * fk1) * fl1 == fn1);
        assert((ba + bb) * (k * fk1) * (l * fl1) == n * fn1) by (nonlinear_arith)
            requires
                ba * fk1 * (l * fl1) == fn1,
                bb * (k * fk1) * fl1 == fn1,
                n == k + l,
        ;
    }
}

/// Picking `k` out of `n` is leaving `n - k` out of `n`.
pub proof fn lemma_binomial_symmetric(n: nat, k: nat)
    requires
        k <= n,
    ensures
        binomial(n, k) == binomial(n, (n - k) as nat),
{
    let l = (n - k) as nat;
    lemma_binomial_factorial(n, k);
    lemma_binomial_factorial(n, l);
    lemma_factorial_positive(k);
    lemma_factorial_positive(l);
    let fk = factorial(k) as int;
    let fl = factorial(l) as int;
    let a = binomial(n, k) as int;
    let b = binomial(n, l) as int;
    lemma_mul_strictly_positive(fk, fl);
    assert(a * fk * fl == (fk * fl) * a) by (nonlinear_arith);
    assert(b * fl * fk == (fk * fl) * b) by (nonlinear_arith);
    lemma_mul_equality_converse(fk * fl, a, b);
}

/// A prime divides no factorial of a number below it.
pub proof fn lemma_prime_coprime_factorial(n: nat, p: int)
    requires
        is_prime(p),
        n < p,
    ensures
        !divides(p, factorial(n) as int),
        coprime(factorial(n) as int, p),
    decreases n,
{
    if n == 0 {
        lemma_small_mod(1, p as nat);
    } else {
        lemma_prime_coprime_factorial((n - 1) as nat, p);
        lemma_small_mod(n, p as nat);
        if divides(p, factorial(n) as int) {
            lemma_prime_divides_product(p, n as int, factorial((n - 1) as nat) as int);
        }
    }
    assert forall|d: int|
        #![trigger divides(d, factorial(n) as int), divides(d, p)]
        divides(d, factorial(n) as int) && divides(d, p) implies d == 1 by {
        if d > p {
            lemma_small_mod(p as nat, d as nat);
        }
    }
}

/// The reduced binomial coefficients of a row are symmetric, and under a
/// modulus above 1 the two at its ends are 1.
pub proof fn law_binomial_symmetry(n: nat, k: nat, m: int)
    requires
        k <= n,
    ensures
        binomial_mod(n, k, m) == binomial_mod(n, (n - k) as nat, m),
        m > 1 ==> binomial_mod(n, 0, m) == 1 && binomial_mod(n, n, m) == 1,
{
    lemma_binomial_symmetric(n, k);
    lemma_binomial_all(n);
    if m > 1 {
        lemma_small_mod(1, m as nat);
    }
}

/// Pascal's rule on the reduced binomial coefficients.
pub proof fn law_pascal(n: nat, k: nat, m: int)
    requires
        1 <= k <= n - 1,
        m > 0,
    ensures
        binomial_mod(n, k, m) == add_mod(
            binomial_mod((n - 1) as nat, (k - 1) as nat, m),
            binomial_mod((n - 1) as nat, k, m),
            m,
        ),
{
    lemma_add_mod_noop(
        binomial((n - 1) as nat, (k - 1) as nat) as int,
        binomial((n - 1) as nat, k) as int,
        m,
    );
}

} // verus!
