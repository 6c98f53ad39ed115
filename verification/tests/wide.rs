use rasterizer::wide::Wide;

fn value(w: Wide) -> (u128, u128) {
    (w.hi, w.lo)
}

#[test]
fn squares_of_wide_numbers() {
    assert_eq!(value(Wide::square(0)), (0, 0));
    assert_eq!(value(Wide::square(3)), (0, 9));
    assert_eq!(value(Wide::square(1 << 32)), (1, 0));
    assert_eq!(value(Wide::square((1 << 32) + 1)), (1, (1 << 33) + 1));
    assert_eq!(value(Wide::square(u64::MAX as u128)), (u64::MAX as u128 - 1, 1));
    assert_eq!(value(Wide::square(1 << 65)), (1 << 66, 0));
    assert_eq!(value(Wide::square((1 << 65) - 1)), ((1 << 66) - 4, 1));
}

#[test]
fn sums_of_wide_numbers() {
    let a = Wide { hi: 1, lo: u64::MAX as u128 };
    let b = Wide { hi: 2, lo: 1 };
    assert_eq!(value(a.plus(b)), (4, 0));
    assert_eq!(value(b.plus(b)), (4, 2));
}

#[test]
fn multiples_of_wide_numbers() {
    let a = Wide { hi: 1, lo: u64::MAX as u128 };
    assert_eq!(value(a.times(0)), (0, 0));
    assert_eq!(value(a.times(1)), (1, u64::MAX as u128));
    assert_eq!(value(a.times(2)), (3, u64::MAX as u128 - 1));
    assert_eq!(value(a.times(65536)), (131071, u64::MAX as u128 - 65535));
}

#[test]
fn order_of_wide_numbers() {
    let a = Wide { hi: 1, lo: 5 };
    let b = Wide { hi: 1, lo: 6 };
    let c = Wide { hi: 2, lo: 0 };
    assert!(a.at_most(a));
    assert!(a.at_most(b));
    assert!(!b.at_most(a));
    assert!(b.at_most(c));
    assert!(!c.at_most(b));
}
