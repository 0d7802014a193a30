use tklib::math::combination::Combination;

#[test]
fn it_works() {
    let comb = Combination::new(5_000_000, 1_000_000_007);

    assert_eq!(1, comb.com(2, 0));
    assert_eq!(1, comb.com(3, 3));
    assert_eq!(6, comb.com(4, 2));
    assert_eq!(828_782_236, comb.com(5_000_000, 2_500_000));
}

#[test]
fn factorials_and_their_inverses() {
    let comb = Combination::new(10, 1_000_000_007);

    assert_eq!(1, comb.fac(0));
    assert_eq!(120, comb.fac(5));
    assert_eq!(3_628_800, comb.fac(10));
    assert_eq!(1, comb.facinv(0));
    assert_eq!(808_333_339, comb.facinv(5));
    for n in 0..=10u64 {
        let product = (comb.fac(n) as u128 * comb.facinv(n) as u128) % 1_000_000_007;
        assert_eq!(1, product);
    }
}

#[test]
fn factorial_is_reduced() {
    let comb = Combination::new(6, 7);
    // 6! = 720 = 102 * 7 + 6
    assert_eq!(6, comb.fac(6));
    assert_eq!(6, comb.facinv(6));
    assert_eq!(1, comb.com(6, 6));
    // C(6, 3) = 20 = 2 * 7 + 6
    assert_eq!(6, comb.com(6, 3));
}

#[test]
fn rows_are_symmetric() {
    let comb = Combination::new(40, 998_244_353);
    for n in 0..=40u64 {
        assert_eq!(1, comb.com(n, 0));
        assert_eq!(1, comb.com(n, n));
        for k in 0..=n {
            assert_eq!(comb.com(n, k), comb.com(n, n - k));
        }
    }
}

#[test]
fn pascal_rule_holds() {
    let modulus = 998_244_353u64;
    let comb = Combination::new(40, modulus);
    for n in 2..=40u64 {
        for k in 1..n {
            let sum = (comb.com(n - 1, k - 1) + comb.com(n - 1, k)) % modulus;
            assert_eq!(comb.com(n, k), sum);
        }
    }
}

#[test]
fn composite_modulus_with_invertible_factorial() {
    // 4! = 24 is coprime to 35 = 5 * 7
    let comb = Combination::new(4, 35);
    assert_eq!(24, comb.fac(4));
    // 24 * 19 = 456 = 13 * 35 + 1
    assert_eq!(19, comb.facinv(4));
    assert_eq!(6, comb.com(4, 2));
    assert_eq!(4, comb.com(4, 1));
}

#[test]
fn wide_table_does_not_wrap() {
    // the largest prime below 2^64
    let modulus = 18_446_744_073_709_551_557u64;
    let comb = Combination::new(30, modulus);
    // 21! = 51_090_942_171_709_440_000, beyond 64 bits
    let expected = (51_090_942_171_709_440_000u128 % modulus as u128) as u64;
    assert_eq!(expected, comb.fac(21));
    assert_eq!(155_117_520, comb.com(30, 15));
}

#[test]
fn smallest_tables() {
    let one = Combination::new(0, 1);
    assert_eq!(0, one.fac(0));
    assert_eq!(0, one.com(0, 0));
    let two = Combination::new(1, 2);
    assert_eq!(1, two.fac(1));
    assert_eq!(1, two.com(1, 0));
    assert_eq!(1, two.com(1, 1));
}
