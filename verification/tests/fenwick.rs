use tklib::data_structures::fenwick::Fenwick;

fn naive_sum(a: &[i64], i: usize) -> i64 {
    a[..i].iter().sum()
}

#[test]
fn from_slice() {
    // a sequence from a linear congruential generator, against plain sums
    let mut state: u64 = 0x2545_f491_4f6c_dd1d;
    let mut a: Vec<i64> = Vec::new();
    for _ in 0..300 {
        state = state
            .wrapping_mul(6364136223846793005)
            .wrapping_add(1442695040888963407);
        a.push(((state >> 33) as i64) - (1 << 30));
    }
    for n in [0usize, 1, 2, 3, 7, 8, 9, 64, 100, 255, 256, 300] {
        let fw = Fenwick::from_slice(&a[..n]);
        for i in 0..=n {
            assert_eq!(naive_sum(&a, i), fw.sum(i));
        }
    }
}

#[test]
fn sums_of_a_slice() {
    let a = [1, 2, 3, 4, 5];
    let mut fw = Fenwick::from_slice(&a);

    assert_eq!(15, fw.sum(5));
    assert_eq!(5, fw.sum(3) - fw.sum(1));

    fw.add(3, 10);
    assert_eq!(16, fw.sum(3));
    assert_eq!(13, fw.sum(3) - fw.sum(2));
}

#[test]
fn push_then_sum() {
    let mut fw = Fenwick::new();
    assert_eq!(0, fw.sum(0));
    fw.push(1);
    fw.push(2);
    assert_eq!(1, fw.sum(1));
    assert_eq!(3, fw.sum(2));
}

#[test]
fn add_then_sum() {
    let mut fw = Fenwick::new();
    fw.push(1);
    fw.push(2);
    assert_eq!(3, fw.sum(2));

    fw.add(2, 3);
    assert_eq!(6, fw.sum(2));
    assert_eq!(1, fw.sum(1));
}

#[test]
fn add_beyond_the_end_changes_nothing() {
    let mut fw = Fenwick::from_slice(&[4, -1, 7]);
    fw.add(4, 100);
    fw.add(1000, 100);
    assert_eq!(4, fw.sum(1));
    assert_eq!(3, fw.sum(2));
    assert_eq!(10, fw.sum(3));
}

#[test]
fn push_agrees_with_from_slice() {
    let a: Vec<i64> = (1..=50).map(|v| v * v - 100).collect();
    let built = Fenwick::from_slice(&a);
    let mut pushed = Fenwick::new();
    for &v in &a {
        pushed.push(v);
    }
    for i in 0..=a.len() {
        assert_eq!(built.sum(i), pushed.sum(i));
        assert_eq!(naive_sum(&a, i), pushed.sum(i));
    }
}

#[test]
fn add_at_every_position() {
    let mut a: Vec<i64> = vec![0; 37];
    let mut fw = Fenwick::from_slice(&a);
    for i in 1..=37usize {
        let x = (i as i64) * 3 - 50;
        fw.add(i, x);
        a[i - 1] += x;
        for j in 0..=37 {
            assert_eq!(naive_sum(&a, j), fw.sum(j));
        }
    }
}

#[test]
fn sums_reach_the_ends_of_the_range() {
    // every sum of neighbours fits, though the magnitudes add up to more
    let a = [i64::MAX, -i64::MAX, i64::MAX, -i64::MAX];
    let mut fw = Fenwick::from_slice(&a);
    assert_eq!(i64::MAX, fw.sum(1));
    assert_eq!(0, fw.sum(2));
    assert_eq!(i64::MAX, fw.sum(3));
    assert_eq!(0, fw.sum(4));
    fw.push(i64::MAX);
    assert_eq!(i64::MAX, fw.sum(5));
    fw.add(1, -i64::MAX);
    assert_eq!(0, fw.sum(1));
    assert_eq!(-i64::MAX, fw.sum(2));
    assert_eq!(0, fw.sum(5));

    let b = [i64::MIN, i64::MAX, -i64::MAX];
    let low = Fenwick::from_slice(&b);
    assert_eq!(i64::MIN, low.sum(1));
    assert_eq!(-1, low.sum(2));
    assert_eq!(i64::MIN, low.sum(3));
}
