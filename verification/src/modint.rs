//! Integers modulo a modulus that is fixed by the type.

use crate::math::modular::{
    add_mod, coprime, divides, inverse_mod, is_inverse, lemma_divides_combination,
    lemma_euclid_step, lemma_inverse_unique, lemma_mod_near, lemma_square_step, mul_mod,
    neg_mod, pow_mod, sub_mod,
};
use core::marker::PhantomData;
use core::mem::swap;
use core::ops::{Add, AddAssign, Div, DivAssign, Mul, MulAssign, Neg, Sub, SubAssign};
use vstd::arithmetic::div_mod::{
    lemma_fundamental_div_mod, lemma_mod_bound, lemma_mod_self_0, lemma_mul_mod_noop_left,
    lemma_small_mod,
};
use vstd::arithmetic::mul::lemma_mul_upper_bound;
use vstd::arithmetic::power::{lemma_pow0, pow};
use vstd::prelude::*;
use vstd::std_specs::ops::{AddSpecImpl, DivSpecImpl, MulSpecImpl, NegSpecImpl, SubSpecImpl};

verus! {

/// Type to hold a value in ModInt.
pub type ModValue = u64;

/// Used to pass a modulus to ModInt.
///
/// An implementation names one positive modulus: `modulus` returns
/// `spec_modulus` at every call.
pub trait ModTrait: core::fmt::Debug + Copy + Clone {
    /// The modulus, as contracts see it. An implementation that is to be
    /// verified states it; left as it is, it stands for an unknown number.
    open spec fn spec_modulus() -> ModValue {
        arbitrary()
    }

    /// The modulus.
    fn modulus() -> (m: ModValue)
        ensures
            m == Self::spec_modulus(),
            m > 0,
    ;
}

/// The static F_p integer type: a residue in `[0, modulus)`.
///
/// Its view is the residue as an integer.
#[derive(Debug)]
pub struct ModInt<Mod: ModTrait> {
    value: ModValue,
    _marker: PhantomData<Mod>,
}

impl<Mod: ModTrait> Clone for ModInt<Mod> {
    fn clone(&self) -> (r: Self)
        ensures
            r == *self,
    {
        *self
    }
}

impl<Mod: ModTrait> Copy for ModInt<Mod> {

}

impl<Mod: ModTrait> View for ModInt<Mod> {
    type V = int;

    closed spec fn view(&self) -> int {
        self.value as int
    }
}

impl<Mod: ModTrait> ModInt<Mod> {
    /// Every value is reduced.
    #[verifier::type_invariant]
    spec fn reduced(self) -> bool {
        self.value < Mod::spec_modulus()
    }

    /// The modulus of this type, as an integer.
    pub open spec fn modulus() -> int {
        Mod::spec_modulus() as int
    }

    /// The value of this type whose view is `v` reduced modulo the modulus.
    pub closed spec fn residue(v: int) -> Self {
        ModInt { value: (v % Self::modulus()) as ModValue, _marker: PhantomData }
    }

    fn new_unchecked(value: ModValue) -> (r: Self)
        requires
            value < Self::modulus(),
        ensures
            r@ == value,
            r == Self::residue(value as int),
    {
        proof {
            lemma_small_mod(value as nat, Self::modulus() as nat);
        }
        Self { value, _marker: PhantomData }
    }

    /// Constructs a new ModInt: `value` reduced modulo the modulus.
    pub fn new(value: ModValue) -> (r: Self)
        ensures
            r@ == value as int % Self::modulus(),
    {
        let m = Mod::modulus();
        proof {
            lemma_mod_bound(value as int, m as int);
            if value < m {
                lemma_small_mod(value as nat, m as nat);
            }
        }
        Self::new_unchecked(
            if value < m {
                value
            } else {
                value % m
            },
        )
    }

    /// Returns the raw value, which is below the modulus.
    pub fn value(self) -> (v: ModValue)
        ensures
            v == self@,
            v < Self::modulus(),
    {
        proof {
            use_type_invariant(&self);
        }
        self.value
    }

    /// Takes the inverse of self, using the extended Euclidean algorithm.
    /// The greatest common divisor of `self.value()`
    /// and the modulus is required to be 1.
    pub fn inv(self) -> (r: Self)
        requires
            self@ != 0,
            coprime(self@, Self::modulus()),
        ensures
            is_inverse(r@, self@, Self::modulus()),
            r@ == inverse_mod(self@, Self::modulus()),
    {
        let m = Mod::modulus();
        let ghost v = self@;
        let mut a = self.value();
        let mut b = m;
        let mut x = Self::new_unchecked(1);
        let mut y = Self::new_unchecked(0);
        proof {
            lemma_mod_near(v, m as int);
            lemma_mod_near(m as int, m as int);
        }

        while a != 0
            invariant
                0 < m == Self::modulus(),
                v == self@,
                b > 0,
                mul_mod(x@, v, m as int) == a as int % m as int,
                mul_mod(y@, v, m as int) == b as int % m as int,
                forall|d: int|
                    #![trigger divides(d, a as int), divides(d, b as int)]
                    divides(d, a as int) && divides(d, b as int) ==> divides(d, v) && divides(
                        d,
                        m as int,
                    ),
            decreases a,
        {
            let q = b / a;
            let ghost a0 = a as int;
            let ghost b0 = b as int;
            let ghost y0 = y@;
            proof {
                lemma_fundamental_div_mod(b0, a0);
                lemma_mod_bound(b0, a0);
            }
            assert(a * q == a0 * (b0 / a0));
            b -= a * q;
            let t = Self::new(q);
            y = y - x * t;
            proof {
                lemma_euclid_step(v, m as int, a0, b0, x@, y0, q as int);
                assert forall|d: int|
                    #![trigger divides(d, b as int), divides(d, a as int)]
                    divides(d, b as int) && divides(d, a as int) implies divides(d, v) && divides(
                    d,
                    m as int,
                ) by {
                    lemma_divides_combination(d, a0, b0, q as int);
                    assert(divides(d, a0) && divides(d, b0));
                }
            }
            swap(&mut a, &mut b);
            swap(&mut x, &mut y);
        }

        proof {
            use_type_invariant(&y);
            lemma_small_mod(0, b as nat);
            lemma_mod_self_0(b as int);
            assert(divides(b as int, a as int) && divides(b as int, b as int));
            assert(b == 1);
            assert(is_inverse(y@, v, m as int));
            lemma_inverse_unique(y@, inverse_mod(v, m as int), v, m as int);
        }
        y
    }

    /// Raises self to the power of exp, using exponentiation by squaring.
    pub fn pow(self, exp: u64) -> (r: Self)
        ensures
            r@ == pow_mod(self@, exp as nat, Self::modulus()),
    {
        let ghost m = Self::modulus();
        let ghost e_all = exp as nat;
        let mut exp = exp;
        let mut base = self;
        let mut acc = Self::new(1);
        proof {
            use_type_invariant(&self);
            lemma_mul_mod_noop_left(1, pow(self@, exp as nat), m);
        }

        while exp > 0
            invariant
                0 < m == Self::modulus(),
                mul_mod(acc@, pow(base@, exp as nat), m) == pow_mod(self@, e_all, m),
            decreases exp,
        {
            let ghost e0 = exp;
            let ghost acc0 = acc@;
            let ghost base0 = base@;
            assert(exp & 1 == exp % 2 && exp >> 1 == exp / 2) by (bit_vector);
            if (exp & 1) == 1 {
                acc = acc * base;
            }
            exp >>= 1;
            base = base * base;
            proof {
                lemma_square_step(acc0, base0, e0 as nat, m);
            }
        }

        proof {
            use_type_invariant(&acc);
            lemma_pow0(base@);
            lemma_small_mod(acc@ as nat, m as nat);
        }
        acc
    }
}

//
// Ops
//
impl<Mod: ModTrait> Add for ModInt<Mod> {
    type Output = Self;

    /// The sum, by one conditional subtraction.
    fn add(self, rhs: Self) -> (r: Self)
        ensures
            r@ == add_mod(self@, rhs@, Self::modulus()),
    {
        proof {
            use_type_invariant(&self);
            use_type_invariant(&rhs);
            lemma_mod_near(self@ + rhs@, Self::modulus());
        }
        let gap = Mod::modulus() - rhs.value;
        Self::new_unchecked(
            if self.value < gap {
                self.value + rhs.value
            } else {
                self.value - gap
            },
        )
    }
}

impl<Mod: ModTrait> AddSpecImpl for ModInt<Mod> {
    open spec fn obeys_add_spec() -> bool {
        true
    }

    open spec fn add_req(self, rhs: Self) -> bool {
        true
    }

    open spec fn add_spec(self, rhs: Self) -> Self {
        Self::residue(self@ + rhs@)
    }
}

impl<Mod: ModTrait> Div for ModInt<Mod> {
    type Output = Self;

    /// The quotient: the product with the inverse of `rhs`.
    fn div(self, rhs: Self) -> (r: Self)
        ensures
            r@ == mul_mod(self@, inverse_mod(rhs@, Self::modulus()), Self::modulus()),
    {
        self * rhs.inv()
    }
}

impl<Mod: ModTrait> DivSpecImpl for ModInt<Mod> {
    open spec fn obeys_div_spec() -> bool {
        true
    }

    open spec fn div_req(self, rhs: Self) -> bool {
        rhs@ != 0 && coprime(rhs@, Self::modulus())
    }

    open spec fn div_spec(self, rhs: Self) -> Self {
        Self::residue(self@ * inverse_mod(rhs@, Self::modulus()))
    }
}

impl<Mod: ModTrait> Mul for ModInt<Mod> {
    type Output = Self;

    /// The product, formed in twice the width so that it cannot wrap.
    fn mul(self, rhs: Self) -> (r: Self)
        ensures
            r@ == mul_mod(self@, rhs@, Self::modulus()),
    {
        let m = Mod::modulus();
        proof {
            lemma_mul_upper_bound(self@, u64::MAX as int, rhs@, u64::MAX as int);
            lemma_mod_bound(self@ * rhs@, m as int);
        }
        let wide = (self.value as u128) * (rhs.value as u128);
        Self::new_unchecked((wide % (m as u128)) as ModValue)
    }
}

impl<Mod: ModTrait> MulSpecImpl for ModInt<Mod> {
    open spec fn obeys_mul_spec() -> bool {
        true
    }

    open spec fn mul_req(self, rhs: Self) -> bool {
        true
    }

    open spec fn mul_spec(self, rhs: Self) -> Self {
        Self::residue(self@ * rhs@)
    }
}

impl<Mod: ModTrait> Neg for ModInt<Mod> {
    type Output = Self;

    /// The complementary residue.
    fn neg(self) -> (r: Self)
        ensures
            r@ == neg_mod(self@, Self::modulus()),
    {
        proof {
            use_type_invariant(&self);
            lemma_mod_near(-self@, Self::modulus());
        }
        Self::new_unchecked(
            if self.value == 0 {
                0
            } else {
                Mod::modulus() - self.value
            },
        )
    }
}

impl<Mod: ModTrait> NegSpecImpl for ModInt<Mod> {
    open spec fn obeys_neg_spec() -> bool {
        true
    }

    open spec fn neg_req(self) -> bool {
        true
    }

    open spec fn neg_spec(self) -> Self {
        Self::residue(-self@)
    }
}

impl<Mod: ModTrait> Sub for ModInt<Mod> {
    type Output = Self;

    /// The difference, with the modulus added first where it would be
    /// negative.
    fn sub(self, rhs: Self) -> (r: Self)
        ensures
            r@ == sub_mod(self@, rhs@, Self::modulus()),
    {
        proof {
            use_type_invariant(&self);
            use_type_invariant(&rhs);
            lemma_mod_near(self@ - rhs@, Self::modulus());
        }
        Self::new_unchecked(
            if self.value < rhs.value {
                (Mod::modulus() - rhs.value) + self.value
            } else {
                self.value - rhs.value
            },
        )
    }
}

impl<Mod: ModTrait> SubSpecImpl for ModInt<Mod> {
    open spec fn obeys_sub_spec() -> bool {
        true
    }

    open spec fn sub_req(self, rhs: Self) -> bool {
        true
    }

    open spec fn sub_spec(self, rhs: Self) -> Self {
        Self::residue(self@ - rhs@)
    }
}

impl<Mod: ModTrait> AddAssign for ModInt<Mod> {
    fn add_assign(&mut self, rhs: Self)
        ensures
            final(self)@ == add_mod(old(self)@, rhs@, Self::modulus()),
    {
        *self = *self + rhs;
    }
}

impl<Mod: ModTrait> DivAssign for ModInt<Mod> {
    fn div_assign(&mut self, rhs: Self)
        requires
            rhs@ != 0,
            coprime(rhs@, Self::modulus()),
        ensures
            final(self)@ == mul_mod(
                old(self)@,
                inverse_mod(rhs@, Self::modulus()),
                Self::modulus(),
            ),
    {
        *self = *self / rhs;
    }
}

impl<Mod: ModTrait> MulAssign for ModInt<Mod> {
    fn mul_assign(&mut self, rhs: Self)
        ensures
            final(self)@ == mul_mod(old(self)@, rhs@, Self::modulus()),
    {
        *self = *self * rhs;
    }
}

impl<Mod: ModTrait> SubAssign for ModInt<Mod> {
    fn sub_assign(&mut self, rhs: Self)
        ensures
            final(self)@ == sub_mod(old(self)@, rhs@, Self::modulus()),
    {
        *self = *self - rhs;
    }
}

//
// comparison
//
impl<Mod: ModTrait> PartialEq for ModInt<Mod> {
    fn eq(&self, other: &Self) -> (r: bool) {
        self.value == other.value
    }
}

impl<Mod: ModTrait> Eq for ModInt<Mod> {

}

impl<Mod: ModTrait> vstd::std_specs::cmp::PartialEqSpecImpl for ModInt<Mod> {
    open spec fn obeys_eq_spec() -> bool {
        true
    }

    open spec fn eq_spec(&self, other: &Self) -> bool {
        self@ == other@
    }
}

//
//  Frequently used modulus
//
/// The modulus 1 000 000 007.
#[derive(Debug, Copy, Clone)]
pub struct Mod1000000007 {}

impl ModTrait for Mod1000000007 {
    open spec fn spec_modulus() -> ModValue {
        1_000_000_007
    }

    fn modulus() -> ModValue {
        1_000_000_007
    }
}

/// The modulus 998 244 353.
#[derive(Debug, Copy, Clone)]
pub struct Mod998244353 {}

impl ModTrait for Mod998244353 {
    open spec fn spec_modulus() -> ModValue {
        998_244_353
    }

    fn modulus() -> ModValue {
        998_244_353
    }
}

pub type ModInt1000000007 = ModInt<Mod1000000007>;

pub type ModInt998244353 = ModInt<Mod998244353>;

} // verus!
