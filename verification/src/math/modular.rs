//! The arithmetic of residues as mathematics: what each operation means on
//! integers, and the facts about divisors and inverses that the executable
//! code is proved against.

use vstd::arithmetic::div_mod::*;
use vstd::arithmetic::mul::*;
use vstd::arithmetic::power::*;
use vstd::prelude::*;

verus! {

/// The sum of two integers, reduced modulo `m`.
pub open spec fn add_mod(a: int, b: int, m: int) -> int {
    (a + b) % m
}

/// The difference of two integers, reduced modulo `m` into `[0, m)`.
pub open spec fn sub_mod(a: int, b: int, m: int) -> int {
    (a - b) % m
}

/// The product of two integers, reduced modulo `m`.
pub open spec fn mul_mod(a: int, b: int, m: int) -> int {
    (a * b) % m
}

/// The residue that adds up to zero with `a`.
pub open spec fn neg_mod(a: int, m: int) -> int {
    (-a) % m
}

/// The `e`-th power of `a`, reduced modulo `m`.
pub open spec fn pow_mod(a: int, e: nat, m: int) -> int {
    pow(a, e) % m
}

/// `d` is a positive divisor of `n`.
pub open spec fn divides(d: int, n: int) -> bool {
    d > 0 && n % d == 0
}

/// `a` and `b` have no common divisor but 1.
pub open spec fn coprime(a: int, b: int) -> bool {
    forall|d: int| #![trigger divides(d, a), divides(d, b)] divides(d, a) && divides(d, b) ==> d == 1
}

/// `p` is a prime number.
pub open spec fn is_prime(p: int) -> bool {
    p > 1 && forall|d: int| 1 < d < p ==> !#[trigger] divides(d, p)
}

/// `x` is the residue modulo `m` whose product with `a` is congruent to 1.
pub open spec fn is_inverse(x: int, a: int, m: int) -> bool {
    0 <= x < m && mul_mod(x, a, m) == 1int % m
}

/// The multiplicative inverse of `a` modulo `m`, where there is one.
pub open spec fn inverse_mod(a: int, m: int) -> int {
    choose|x: int| is_inverse(x, a, m)
}

/// Two integers that leave the same remainder keep doing so when both are
/// multiplied by congruent factors.
pub proof fn lemma_mul_congruent(a: int, a2: int, b: int, b2: int, m: int)
    requires
        m > 0,
        a % m == a2 % m,
        b % m == b2 % m,
    ensures
        (a * b) % m == (a2 * b2) % m,
{
    lemma_mul_mod_noop_general(a, b, m);
    lemma_mul_mod_noop_general(a2, b2, m);
}

/// Congruent minuends and subtrahends give congruent differences.
pub proof fn lemma_sub_congruent(a: int, a2: int, b: int, b2: int, m: int)
    requires
        m > 0,
        a % m == a2 % m,
        b % m == b2 % m,
    ensures
        (a - b) % m == (a2 - b2) % m,
{
    lemma_sub_mod_noop(a, b, m);
    lemma_sub_mod_noop(a2, b2, m);
}

/// A value in `[-m, 0)` is reduced by adding `m` once; one in `[m, 2m)` by
/// subtracting it once; one in `[0, m)` is its own remainder.
pub proof fn lemma_mod_near(x: int, m: int)
    requires
        m > 0,
        -m <= x < 2 * m,
    ensures
        x % m == if x < 0 {
            x + m
        } else if x < m {
            x
        } else {
            x - m
        },
{
    if x < 0 {
        lemma_small_mod((x + m) as nat, m as nat);
        lemma_mod_add_multiples_vanish(x, m);
    } else if x < m {
        lemma_small_mod(x as nat, m as nat);
    } else {
        lemma_small_mod((x - m) as nat, m as nat);
        lemma_mod_sub_multiples_vanish(x, m);
    }
}

/// A divisor of `a` divides `b` exactly where it divides `b - a * q`.
pub proof fn lemma_divides_combination(d: int, a: int, b: int, q: int)
    requires
        divides(d, a),
    ensures
        divides(d, b) <==> divides(d, b - a * q),
{
    lemma_fundamental_div_mod(a, d);
    let k = a / d;
    assert(a == d * k);
    assert(a * q == d * (k * q)) by (nonlinear_arith)
        requires
            a == d * k,
    ;
    lemma_mod_multiples_vanish(-(k * q), b, d);
    lemma_mod_multiples_vanish(k * q, b - a * q, d);
    assert(d * -(k * q) == -(d * (k * q))) by (nonlinear_arith);
}

/// One round of the extended Euclidean algorithm keeps its coefficients in
/// step with its remainders: where `x * v` is congruent to `a` and `y * v` to
/// `b`, the coefficient `y - x * q`, computed on residues, times `v` is
/// congruent to `b - a * q`.
pub proof fn lemma_euclid_step(v: int, m: int, a: int, b: int, x: int, y: int, q: int)
    requires
        m > 0,
        mul_mod(x, v, m) == a % m,
        mul_mod(y, v, m) == b % m,
    ensures
        mul_mod(sub_mod(y, mul_mod(x, q % m, m), m), v, m) == (b - a * q) % m,
{
    let t = mul_mod(x, q % m, m);
    let y2 = sub_mod(y, t, m);
    // t ≡ x * q, so y2 ≡ y - x * q
    lemma_mod_twice(q, m);
    lemma_mul_congruent(x, x, q % m, q, m);
    lemma_mod_twice(x * (q % m), m);
    lemma_sub_congruent(y, y, t, x * q, m);
    lemma_mod_twice(y - t, m);
    // y2 * v ≡ (y - x * q) * v = y * v - q * (x * v) ≡ b - q * a
    lemma_mul_congruent(y2, y - x * q, v, v, m);
    assert((y - x * q) * v == y * v - q * (x * v)) by (nonlinear_arith);
    lemma_mul_congruent(q, q, x * v, a, m);
    lemma_sub_congruent(y * v, b, q * (x * v), q * a, m);
    assert(q * a == a * q) by (nonlinear_arith);
}

/// One round of exponentiation by squaring keeps the product of the
/// accumulator and the remaining power: the base is squared, the exponent
/// halved, and an odd exponent first hands one factor to the accumulator.
pub proof fn lemma_square_step(acc: int, base: int, e: nat, m: int)
    requires
        m > 0,
        e > 0,
    ensures
        mul_mod(
            if e % 2 == 1 {
                mul_mod(acc, base, m)
            } else {
                acc
            },
            pow(mul_mod(base, base, m), e / 2),
            m,
        ) == mul_mod(acc, pow(base, e), m),
{
    let h = e / 2;
    let sq = mul_mod(base, base, m);
    // pow(sq, h) ≡ pow(base * base, h) = pow(base, 2 * h)
    lemma_pow_mod_noop(base * base, h, m);
    lemma_square_is_pow2(base);
    lemma_pow_multiplies(base, 2, h);
    assert(pow(sq, h) % m == pow(base, 2 * h) % m);
    if e % 2 == 1 {
        assert(e == 2 * h + 1);
        assert(pow(base, e) == base * pow(base, 2 * h)) by {
            reveal(pow);
        }
        lemma_mod_twice(acc * base, m);
        lemma_mul_congruent(mul_mod(acc, base, m), acc * base, pow(sq, h), pow(base, 2 * h), m);
        assert((acc * base) * pow(base, 2 * h) == acc * (base * pow(base, 2 * h)))
            by (nonlinear_arith);
    } else {
        assert(e == 2 * h);
        lemma_mul_congruent(acc, acc, pow(sq, h), pow(base, 2 * h), m);
    }
}

/// An inverse modulo `m` is unique among the residues.
pub proof fn lemma_inverse_unique(x: int, y: int, a: int, m: int)
    requires
        is_inverse(x, a, m),
        is_inverse(y, a, m),
    ensures
        x == y,
{
    // x = x * 1 ≡ x * (a * y) = (x * a) * y ≡ 1 * y = y
    lemma_mul_congruent(x, x, 1, y * a, m);
    lemma_mul_congruent(x * a, 1, y, y, m);
    assert(x * (y * a) == (x * a) * y) by (nonlinear_arith);
    lemma_small_mod(x as nat, m as nat);
    lemma_small_mod(y as nat, m as nat);
}

/// Reducing one of two numbers by the other keeps their common divisors.
pub proof fn lemma_divides_remainder(d: int, a: int, m: int)
    requires
        m > 0,
        divides(d, m),
    ensures
        divides(d, a) <==> divides(d, a % m),
{
    lemma_fundamental_div_mod(a, m);
    lemma_divides_combination(d, m, a, a / m);
}

/// Reducing one of two numbers by the other keeps them coprime.
pub proof fn lemma_coprime_remainder(a: int, m: int)
    requires
        m > 0,
    ensures
        coprime(a, m) <==> coprime(a % m, m),
{
    assert forall|d: int| divides(d, m) implies (divides(d, a) <==> #[trigger] divides(d, a % m)) by {
        lemma_divides_remainder(d, a, m);
    }
    if coprime(a, m) {
        assert forall|d: int|
            #![trigger divides(d, a % m), divides(d, m)]
            divides(d, a % m) && divides(d, m) implies d == 1 by {
            assert(divides(d, a) && divides(d, m));
        }
    }
    if coprime(a % m, m) {
        assert forall|d: int|
            #![trigger divides(d, a), divides(d, m)]
            divides(d, a) && divides(d, m) implies d == 1 by {
            assert(divides(d, a % m) && divides(d, m));
        }
    }
}

/// Bézout's identity: some common divisor `g` of `a` and `b` is a
/// combination `x * a + y * b` of them. The result is `(g, x, y)`.
pub proof fn lemma_bezout(a: nat, b: nat) -> (r: (int, int, int))
    requires
        a > 0 || b > 0,
    ensures
        divides(r.0, a as int),
        divides(r.0, b as int),
        r.1 * a + r.2 * b == r.0,
    decreases a,
{
    if a == 0 {
        lemma_small_mod(0, b);
        lemma_mod_self_0(b as int);
        (b as int, 0, 1)
    } else {
        lemma_mod_bound(b as int, a as int);
        lemma_fundamental_div_mod(b as int, a as int);
        let (g, x1, y1) = lemma_bezout((b % a) as nat, a);
        let q = b as int / a as int;
        lemma_divides_combination(g, a as int, b as int, q);
        assert((y1 - x1 * q) * a + x1 * b == x1 * (b - a * q) + y1 * a) by (nonlinear_arith);
        (g, y1 - x1 * q, x1)
    }
}

/// A number that is coprime to the modulus has an inverse, and
/// `inverse_mod` is that inverse.
pub proof fn lemma_inverse_exists(a: int, m: int)
    requires
        m > 0,
        a >= 0,
        coprime(a, m),
    ensures
        is_inverse(inverse_mod(a, m), a, m),
{
    let (g, x, y) = lemma_bezout(a as nat, m as nat);
    assert(divides(g, a) && divides(g, m));
    assert(x * a + y * m == 1);
    lemma_mod_multiples_vanish(y, x * a, m);
    assert(m * y + x * a == x * a + y * m) by (nonlinear_arith);
    lemma_mul_mod_noop_left(x, a, m);
    lemma_mod_bound(x, m);
    assert(is_inverse(x % m, a, m));
}

/// A prime is coprime to every positive number below it.
pub proof fn lemma_prime_coprime(a: int, p: int)
    requires
        is_prime(p),
        0 < a < p,
    ensures
        coprime(a, p),
{
    assert forall|d: int|
        #![trigger divides(d, a), divides(d, p)]
        divides(d, a) && divides(d, p) implies d == 1 by {
        if d > p {
            lemma_small_mod(p as nat, d as nat);
        } else if d == p {
            lemma_small_mod(a as nat, p as nat);
        }
    }
}

/// Euclid's lemma: a prime that divides a product divides one of the
/// factors.
pub proof fn lemma_prime_divides_product(p: int, a: int, b: int)
    requires
        is_prime(p),
        divides(p, a * b),
    ensures
        divides(p, a) || divides(p, b),
{
    if !divides(p, a) {
        let r = a % p;
        lemma_mod_bound(a, p);
        lemma_prime_coprime(r, p);
        lemma_inverse_exists(r, p);
        let w = inverse_mod(r, p);
        lemma_small_mod(1, p as nat);
        // w * a ≡ w * r ≡ 1, so b ≡ (w * a) * b = w * (a * b) ≡ 0
        lemma_mod_twice(a, p);
        lemma_mul_congruent(w, w, a, r, p);
        lemma_mul_congruent(w * a, 1, b, b, p);
        lemma_small_mod(0, p as nat);
        lemma_mul_congruent(w, w, a * b, 0, p);
        assert((w * a) * b == w * (a * b)) by (nonlinear_arith);
        assert(w * 0 == 0);
        assert(1 * b == b);
    }
}

/// Modulo a prime, every nonzero residue has an inverse: it is coprime to
/// the prime, and its product with `inverse_mod` of it is congruent to 1.
pub proof fn law_inverse_of_prime_residue(a: int, p: int)
    requires
        is_prime(p),
        0 < a < p,
    ensures
        coprime(a, p),
        is_inverse(inverse_mod(a, p), a, p),
        mul_mod(inverse_mod(a, p), a, p) == 1,
{
    lemma_prime_coprime(a, p);
    lemma_inverse_exists(a, p);
    lemma_small_mod(1, p as nat);
}

/// Adding and then subtracting the same residue gives the first back.
pub proof fn law_add_sub_round_trip(a: int, b: int, m: int)
    requires
        0 <= a < m,
        0 <= b < m,
    ensures
        sub_mod(add_mod(a, b, m), b, m) == a,
        (add_mod(a, b, m) - b) % m == a,
{
    lemma_mod_near(a + b, m);
    lemma_mod_near(add_mod(a, b, m) - b, m);
}

/// Negating twice gives the residue back, and a residue and its negation
/// add up to zero.
pub proof fn law_neg_involution(a: int, m: int)
    requires
        0 <= a < m,
    ensures
        neg_mod(neg_mod(a, m), m) == a,
        add_mod(a, neg_mod(a, m), m) == 0,
{
    lemma_mod_near(-a, m);
    lemma_mod_near(-neg_mod(a, m), m);
    lemma_mod_near(a + neg_mod(a, m), m);
}

} // verus!
