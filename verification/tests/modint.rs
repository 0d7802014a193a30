use tklib::modint::{ModInt, ModInt1000000007, ModInt998244353, ModTrait, ModValue};

#[test]
fn add() {
    type Mint = ModInt998244353;
    assert_eq!(Mint::new(2), Mint::new(1) + Mint::new(1));

    let mut n = Mint::new(2);
    n += Mint::new(998244352);
    assert_eq!(n, Mint::new(1));
}

#[test]
fn div() {
    type Mint = ModInt998244353;
    assert_eq!(Mint::new(3), Mint::new(6) / Mint::new(2));

    let mut n = Mint::new(3);
    n /= Mint::new(499122177);
    assert_eq!(n, Mint::new(6));
}

#[test]
fn mul() {
    type Mint = ModInt998244353;
    assert_eq!(Mint::new(6), Mint::new(2) * Mint::new(3));

    let mut n = Mint::new(998244352);
    n *= Mint::new(998244352);
    assert_eq!(n, Mint::new(1));
}

#[test]
fn neg() {
    type Mint = ModInt998244353;
    assert_eq!(Mint::new(1), -Mint::new(998244352));
    assert_eq!(Mint::new(998244352), -Mint::new(1));
}

#[test]
fn sub() {
    type Mint = ModInt998244353;
    assert_eq!(Mint::new(1), Mint::new(2) - Mint::new(1));

    let mut n = Mint::new(1);
    n -= Mint::new(2);
    assert_eq!(n, Mint::new(998244352));
}

#[test]
fn pow() {
    type Mint = ModInt998244353;
    assert_eq!(Mint::new(4), Mint::new(2).pow(2));
    assert_eq!(
        Mint::new(926495343),
        Mint::new(3).pow(5_000_000_000_000_000)
    );
}

#[derive(Debug, Copy, Clone)]
struct Mod13 {}

impl ModTrait for Mod13 {
    fn modulus() -> ModValue {
        13
    }
}

#[test]
fn custom_modulus() {
    type ModInt13 = ModInt<Mod13>;
    assert_eq!(ModInt13::new(5), ModInt13::new(2) - ModInt13::new(10));
    assert_eq!(3, ModInt998244353::new(3).value());
    assert_eq!(ModInt1000000007::new(500000004), ModInt1000000007::new(2).inv());
}

#[derive(Debug, Copy, Clone)]
struct ModWide {}

impl ModTrait for ModWide {
    fn modulus() -> ModValue {
        // the largest prime below 2^64
        18_446_744_073_709_551_557
    }
}

#[derive(Debug, Copy, Clone)]
struct Mod1 {}

impl ModTrait for Mod1 {
    fn modulus() -> ModValue {
        1
    }
}

#[test]
fn new_reduces() {
    type Mint = ModInt998244353;
    assert_eq!(0, Mint::new(0).value());
    assert_eq!(998244352, Mint::new(998244352).value());
    assert_eq!(0, Mint::new(998244353).value());
    assert_eq!(1, Mint::new(998244354).value());
    assert_eq!(u64::MAX % 998244353, Mint::new(u64::MAX).value());
    assert_eq!(Mint::new(2), Mint::new(998244354) + Mint::new(1));
}

#[test]
fn inverse_times_value_is_one() {
    type ModInt13 = ModInt<Mod13>;
    for a in 1..13u64 {
        let x = ModInt13::new(a);
        assert_eq!(ModInt13::new(1), x.inv() * x);
        assert_eq!(x, x.inv().inv());
    }
    type Mint = ModInt1000000007;
    for a in [1u64, 2, 3, 1_000_000, 500_000_003, 1_000_000_006] {
        let x = Mint::new(a);
        assert_eq!(1, (x.inv() * x).value());
    }
    assert_eq!(Mint::new(4), Mint::new(250_000_002).inv());
}

#[test]
fn inverse_modulo_a_composite() {
    #[derive(Debug, Copy, Clone)]
    struct Mod35 {}
    impl ModTrait for Mod35 {
        fn modulus() -> ModValue {
            35
        }
    }
    type Mint = ModInt<Mod35>;
    // 24 * 19 = 456 = 13 * 35 + 1
    assert_eq!(Mint::new(19), Mint::new(24).inv());
    assert_eq!(Mint::new(18), Mint::new(2).inv());
}

#[test]
fn add_and_sub_round_trip() {
    type ModInt13 = ModInt<Mod13>;
    for a in 0..13u64 {
        for b in 0..13u64 {
            let (x, y) = (ModInt13::new(a), ModInt13::new(b));
            assert_eq!(x, (x + y) - y);
            assert_eq!((a + b) % 13, (x + y).value());
            assert_eq!((13 + a - b) % 13, (x - y).value());
            assert_eq!((a * b) % 13, (x * y).value());
        }
    }
}

#[test]
fn neg_twice_and_sum_with_neg() {
    type ModInt13 = ModInt<Mod13>;
    for a in 0..13u64 {
        let x = ModInt13::new(a);
        assert_eq!(x, -(-x));
        assert_eq!(ModInt13::new(0), x + (-x));
    }
    assert_eq!(0, (-ModInt998244353::new(0)).value());
}

#[test]
fn fermat_little_theorem() {
    type ModInt13 = ModInt<Mod13>;
    for a in 1..13u64 {
        let x = ModInt13::new(a);
        assert_eq!(1, x.pow(12).value());
        for e in 0..12u64 {
            assert_eq!(x.pow(12), x.pow(e) * x.pow(12 - e));
        }
    }
    type Mint = ModInt998244353;
    assert_eq!(1, Mint::new(3).pow(998244352).value());
    assert_eq!(Mint::new(3).inv(), Mint::new(3).pow(998244351));
}

#[test]
fn pow_edges() {
    type Mint = ModInt998244353;
    assert_eq!(1, Mint::new(0).pow(0).value());
    assert_eq!(0, Mint::new(0).pow(5).value());
    assert_eq!(1, Mint::new(7).pow(0).value());
    assert_eq!(7, Mint::new(7).pow(1).value());
    assert_eq!(1024, Mint::new(2).pow(10).value());
    // 2^64 = 18446744073709551616 = 18479187002 * 998244353 + 932051910
    assert_eq!(932051910, Mint::new(2).pow(64).value());
}

#[test]
fn wide_residues_do_not_wrap() {
    type Mint = ModInt<ModWide>;
    let m: u128 = 18_446_744_073_709_551_557;
    let a: u64 = 18_446_744_073_709_551_556;
    let b: u64 = 12_345_678_901_234_567_890;
    let (x, y) = (Mint::new(a), Mint::new(b));
    assert_eq!(((a as u128 + b as u128) % m) as u64, (x + y).value());
    assert_eq!(((a as u128 * b as u128) % m) as u64, (x * y).value());
    assert_eq!(((m + b as u128 - a as u128) % m) as u64, (y - x).value());
    assert_eq!(1, (-x).value());
    assert_eq!(1, (x * x).value());
    assert_eq!(1, (y.inv() * y).value());
    assert_eq!(y / x, -y);
}

#[test]
fn modulus_one_has_one_residue() {
    type Mint = ModInt<Mod1>;
    let z = Mint::new(5);
    assert_eq!(0, z.value());
    assert_eq!(0, (z + z).value());
    assert_eq!(0, (z * z).value());
    assert_eq!(0, (z - z).value());
    assert_eq!(0, (-z).value());
    assert_eq!(0, z.pow(0).value());
}

#[test]
fn scenarios() {
    type Mint = ModInt998244353;
    assert_eq!(Mint::new(1), Mint::new(998244352) + Mint::new(2));
    assert_eq!(Mint::new(6), Mint::new(2) * Mint::new(3));
    assert_eq!(Mint::new(926495343), Mint::new(3).pow(5_000_000_000_000_000));
    let copy = Mint::new(9).clone();
    assert_eq!(Mint::new(9), copy);
    assert!(Mint::new(9) != Mint::new(10));
}
