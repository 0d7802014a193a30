//! A table of factorials and inverse factorials modulo a number, from
//! which binomial coefficients come in a few multiplications.

use crate::math::binomial::{binomial, binomial_mod, factorial, lemma_binomial_factorial};
use crate::math::modular::{
    coprime, divides, inverse_mod, is_inverse, lemma_coprime_remainder,
    lemma_divides_combination, lemma_euclid_step, lemma_inverse_unique, lemma_mod_near,
    lemma_mul_congruent, mul_mod, sub_mod,
};
use core::mem::swap;
use vstd::arithmetic::div_mod::{
    lemma_fundamental_div_mod, lemma_mod_bound, lemma_mod_self_0, lemma_mod_twice,
    lemma_small_mod,
};
use vstd::arithmetic::mul::lemma_mul_upper_bound;
use vstd::prelude::*;

verus! {

/// Calculates combinations mod p.
pub struct Combination {
    fac: Vec<u64>,
    facinv: Vec<u64>,
    modulus: u64,
}

/// The product of two numbers modulo `modulus`, formed in twice the width.
fn product(a: u64, b: u64, modulus: u64) -> (r: u64)
    requires
        modulus > 0,
    ensures
        r == mul_mod(a as int, b as int, modulus as int),
        r < modulus,
{
    proof {
        lemma_mul_upper_bound(a as int, u64::MAX as int, b as int, u64::MAX as int);
        lemma_mod_bound(a as int * b as int, modulus as int);
    }
    let wide: u128 = (a as u128) * (b as u128);
    (wide % (modulus as u128)) as u64
}

/// The difference of two residues modulo `modulus`.
fn difference(a: u64, b: u64, modulus: u64) -> (r: u64)
    requires
        a < modulus,
        b < modulus,
    ensures
        r == sub_mod(a as int, b as int, modulus as int),
        r < modulus,
{
    proof {
        lemma_mod_near(a as int - b as int, modulus as int);
    }
    if a < b {
        (modulus - b) + a
    } else {
        a - b
    }
}

impl Combination {
    /// The tables run over the same indices; `fac[i]` is `i!` reduced, and
    /// `facinv[i]` its inverse.
    #[verifier::type_invariant]
    spec fn well_formed(self) -> bool {
        &&& self.modulus > 0
        &&& self.fac.len() > 0
        &&& self.fac.len() == self.facinv.len()
        &&& forall|i: int|
            0 <= i < self.fac.len() ==> #[trigger] self.fac[i] as int == factorial(i as nat)
                % self.modulus as nat
        &&& forall|i: int|
            0 <= i < self.facinv.len() ==> is_inverse(
                #[trigger] self.facinv[i] as int,
                factorial(i as nat) as int,
                self.modulus as int,
            )
    }

    /// The largest `n` that the table holds.
    pub closed spec fn maximum(&self) -> nat {
        (self.fac.len() - 1) as nat
    }

    /// The modulus of the table.
    pub closed spec fn modulus(&self) -> nat {
        self.modulus as nat
    }

    /// Construction.
    /// Consumes O(maximum + log(modulus)) time and O(maximum) space.
    ///
    /// `maximum!` has to be coprime to the modulus, as it is for every
    /// `maximum` below a prime modulus.
    pub fn new(maximum: u64, modulus: u64) -> (r: Self)
        requires
            maximum < modulus,
            maximum < usize::MAX,
            coprime(factorial(maximum as nat) as int, modulus as int),
        ensures
            r.maximum() == maximum,
            r.modulus() == modulus,
    {
        let n: usize = maximum as usize;
        let ghost m = modulus as int;

        let mut fac: Vec<u64> = Vec::new();
        fac.push(1 % modulus);
        let mut i: u64 = 1;
        while i <= maximum
            invariant
                1 <= i <= maximum + 1,
                maximum < modulus,
                m == modulus,
                fac.len() == i,
                forall|j: int| 0 <= j < i ==> #[trigger] fac[j] as int == factorial(j as nat) % m as nat,
            decreases maximum + 1 - i,
        {
            let prev: u64 = fac[(i - 1) as usize];
            let next: u64 = product(prev, i, modulus);
            proof {
                lemma_small_mod(i as nat, modulus as nat);
                lemma_mod_twice(factorial((i - 1) as nat) as int, m);
                lemma_mul_congruent(prev as int, factorial((i - 1) as nat) as int, i as int, i as int, m);
                assert(factorial((i - 1) as nat) * i == factorial(i as nat)) by (nonlinear_arith)
                    requires
                        factorial(i as nat) == i * factorial((i - 1) as nat),
                ;
            }
            fac.push(next);
            i += 1;
        }

        proof {
            lemma_coprime_remainder(factorial(maximum as nat) as int, m);
        }
        let fac_maximum_inv: u64 = Self::inv(fac[n], modulus);
        proof {
            lemma_mod_twice(factorial(maximum as nat) as int, m);
            lemma_mul_congruent(
                fac_maximum_inv as int,
                fac_maximum_inv as int,
                fac[n as int] as int,
                factorial(maximum as nat) as int,
                m,
            );
        }

        let mut facinv: Vec<u64> = vec![0; n + 1];
        facinv[n] = fac_maximum_inv;
        let mut k: u64 = maximum;
        while k > 0
            invariant
                k <= maximum,
                n == maximum,
                maximum < modulus,
                m == modulus,
                facinv.len() == n + 1,
                forall|j: int|
                    k <= j <= n ==> is_inverse(#[trigger] facinv[j] as int, factorial(j as nat) as int, m),
            decreases k,
        {
            let above: u64 = facinv[k as usize];
            let below: u64 = product(above, k, modulus);
            proof {
                // below * (k - 1)! ≡ above * k * (k - 1)! = above * k! ≡ 1
                let f1 = factorial((k - 1) as nat) as int;
                lemma_mod_twice(above as int * k as int, m);
                lemma_mul_congruent(below as int, above as int * k as int, f1, f1, m);
                assert((above as int * k as int) * f1 == above as int * (k as int * f1))
                    by (nonlinear_arith);
                assert(factorial(k as nat) == k * factorial((k - 1) as nat));
            }
            facinv[(k - 1) as usize] = below;
            k -= 1;
        }

        Self { fac, facinv, modulus }
    }

    /// Returns nCm.
    pub fn com(&self, n: u64, m: u64) -> (r: u64)
        requires
            m <= n <= self.maximum(),
        ensures
            r == binomial_mod(n as nat, m as nat, self.modulus() as int),
    {
        proof {
            use_type_invariant(self);
        }
        let a: u64 = self.fac(n);
        let b: u64 = self.facinv(m);
        let c: u64 = self.facinv(n - m);
        let ab: u64 = product(a, b, self.modulus);
        let r: u64 = product(ab, c, self.modulus);
        proof {
            let p = self.modulus as int;
            let fm = factorial(m as nat) as int;
            let fl = factorial((n - m) as nat) as int;
            let bin = binomial(n as nat, m as nat) as int;
            lemma_binomial_factorial(n as nat, m as nat);
            // r ≡ n! * b * c = bin * (b * m!) * (c * (n - m)!) ≡ bin
            lemma_mod_twice(factorial(n as nat) as int, p);
            lemma_mul_congruent(a as int, factorial(n as nat) as int, b as int, b as int, p);
            lemma_mod_twice(a as int * b as int, p);
            lemma_mul_congruent(ab as int, factorial(n as nat) as int * b as int, c as int, c as int, p);
            assert((bin * fm * fl) * b as int * c as int == (bin * (b as int * fm)) * (c as int * fl))
                by (nonlinear_arith);
            lemma_mul_congruent(bin, bin, b as int * fm, 1, p);
            lemma_mul_congruent(bin * (b as int * fm), bin * 1, c as int * fl, 1, p);
            assert(bin * 1 * 1 == bin);
        }
        r
    }

    /// Returns n!.
    pub fn fac(&self, n: u64) -> (r: u64)
        requires
            n <= self.maximum(),
        ensures
            r == factorial(n as nat) % self.modulus(),
            r < self.modulus(),
    {
        proof {
            use_type_invariant(self);
            lemma_mod_bound(factorial(n as nat) as int, self.modulus as int);
        }
        let n: usize = n as usize;
        self.fac[n]
    }

    /// Returns the inverse of n!.
    pub fn facinv(&self, n: u64) -> (r: u64)
        requires
            n <= self.maximum(),
        ensures
            is_inverse(r as int, factorial(n as nat) as int, self.modulus() as int),
            r == inverse_mod(factorial(n as nat) as int, self.modulus() as int),
    {
        proof {
            use_type_invariant(self);
        }
        let n: usize = n as usize;
        proof {
            lemma_inverse_unique(
                self.facinv[n as int] as int,
                inverse_mod(factorial(n as nat) as int, self.modulus as int),
                factorial(n as nat) as int,
                self.modulus as int,
            );
        }
        self.facinv[n]
    }

    /// The inverse of the residue `a` modulo `p`, by the extended Euclidean
    /// algorithm.
    fn inv(a: u64, p: u64) -> (r: u64)
        requires
            a < p,
            coprime(a as int, p as int),
        ensures
            is_inverse(r as int, a as int, p as int),
    {
        let ghost v = a as int;
        let ghost m = p as int;
        let mut a: u64 = a;
        let mut b: u64 = p;
        let mut x: u64 = 1 % p;
        let mut y: u64 = 0;
        proof {
            lemma_mod_twice(1, m);
            lemma_mul_congruent(x as int, 1, v, v, m);
            assert(1 * v == v);
            lemma_mod_self_0(m);
            lemma_small_mod(0, p as nat);
            assert(0 * v == 0);
        }

        while a != 0
            invariant
                0 < p == m,
                b > 0,
                x < p,
                y < p,
                mul_mod(x as int, v, m) == a as int % m,
                mul_mod(y as int, v, m) == b as int % m,
                forall|d: int|
                    #![trigger divides(d, a as int), divides(d, b as int)]
                    divides(d, a as int) && divides(d, b as int) ==> divides(d, v) && divides(d, m),
            decreases a,
        {
            let q: u64 = b / a;
            let ghost a0 = a as int;
            let ghost b0 = b as int;
            let ghost y0 = y as int;
            proof {
                lemma_fundamental_div_mod(b0, a0);
                lemma_mod_bound(b0, a0);
            }
            assert(a * q == a0 * (b0 / a0));
            b -= a * q;
            y = difference(y, product(x, q % p, p), p);
            proof {
                lemma_euclid_step(v, m, a0, b0, x as int, y0, q as int);
                assert forall|d: int|
                    #![trigger divides(d, b as int), divides(d, a as int)]
                    divides(d, b as int) && divides(d, a as int) implies divides(d, v) && divides(
                    d,
                    m,
                ) by {
                    lemma_divides_combination(d, a0, b0, q as int);
                    assert(divides(d, a0) && divides(d, b0));
                }
            }
            swap(&mut a, &mut b);
            swap(&mut x, &mut y);
        }

        proof {
            lemma_small_mod(0, b as nat);
            lemma_mod_self_0(b as int);
            assert(divides(b as int, a as int) && divides(b as int, b as int));
            assert(b == 1);
        }
        y
    }
}

} // verus!
