use rustic_factors::uint::U512;

const MAX: u64 = u64::MAX;

#[test]
fn digits_are_little_endian() {
    let x = U512::from_digits([7, 1, 0, 0, 0, 0, 0, 0]);
    assert_eq!(x.to_u128(), Some((1u128 << 64) + 7));
    assert_eq!(x.digits(), [7, 1, 0, 0, 0, 0, 0, 0]);
}

#[test]
fn conversions_round_trip() {
    for x in [0u128, 1, 2, u64::MAX as u128, (u64::MAX as u128) + 1, u128::MAX] {
        assert_eq!(U512::from_u128(x).to_u128(), Some(x));
    }
    assert_eq!(U512::from_u64(MAX).to_u128(), Some(MAX as u128));
    assert_eq!(U512::from_digits([0, 0, 1, 0, 0, 0, 0, 0]).to_u128(), None);
    assert_eq!(U512::from_digits([0, 0, 0, 0, 0, 0, 0, 1]).to_u128(), None);
}

#[test]
fn small_constants() {
    assert_eq!(U512::zero().to_u128(), Some(0));
    assert_eq!(U512::one().to_u128(), Some(1));
    assert_eq!(U512::two().to_u128(), Some(2));
    assert_eq!(U512::three().to_u128(), Some(3));
}

#[test]
fn predicates() {
    assert!(U512::zero().is_zero());
    assert!(!U512::one().is_zero());
    assert!(U512::one().is_one());
    assert!(!U512::from_digits([1, 1, 0, 0, 0, 0, 0, 0]).is_one());
    assert!(U512::from_u128(10).is_even());
    assert!(U512::from_u128(11).is_odd());
    assert!(!U512::from_u128(11).is_even());
    assert!(U512::from_digits([0, 1, 0, 0, 0, 0, 0, 0]).is_even());
    assert!(U512::from_u128(5).equals(&U512::from_u64(5)));
    assert!(!U512::from_u128(5).equals(&U512::from_digits([5, 0, 0, 0, 0, 0, 0, 1])));
}

#[test]
fn ordering() {
    let small = U512::from_u128(u128::MAX);
    let large = U512::from_digits([0, 0, 1, 0, 0, 0, 0, 0]);
    assert!(small.le(&large));
    assert!(!large.le(&small));
    assert!(small.le(&small));
    // the most significant digit decides
    assert!(U512::from_digits([MAX, 0, 0, 0, 0, 0, 0, 0])
        .le(&U512::from_digits([0, 0, 0, 0, 0, 0, 0, 1])));
}

#[test]
fn add_mod_wraps_at_the_modulus() {
    let m = U512::from_u128(7);
    assert_eq!(U512::from_u128(5).add_mod(&U512::from_u128(6), &m).to_u128(), Some(4));
    assert_eq!(U512::from_u128(1).add_mod(&U512::from_u128(2), &m).to_u128(), Some(3));
    assert_eq!(U512::from_u128(3).add_mod(&U512::from_u128(4), &m).to_u128(), Some(0));
}

#[test]
fn add_mod_near_the_top_of_the_range() {
    // modulus 2^512 - 1: (m - 1) + (m - 1) = m - 2 (mod m)
    let m = U512::from_digits([MAX; 8]);
    let a = U512::from_digits([MAX - 1, MAX, MAX, MAX, MAX, MAX, MAX, MAX]);
    let sum = a.add_mod(&a, &m);
    assert_eq!(sum.digits(), [MAX - 2, MAX, MAX, MAX, MAX, MAX, MAX, MAX]);
}

#[test]
fn mul_mod_small() {
    let m = U512::from_u128(1000);
    assert_eq!(U512::from_u128(123).mul_mod(&U512::from_u128(456), &m).to_u128(), Some(88));
    assert_eq!(U512::from_u128(0).mul_mod(&U512::from_u128(456), &m).to_u128(), Some(0));
    assert_eq!(
        U512::from_u128(123).mul_mod_by_doubling(&U512::from_u128(456), &m).to_u128(),
        Some(88)
    );
}

#[test]
fn mul_mod_where_the_product_does_not_fit() {
    // modulus 2^512 - 1, a = 2^511, b = 2: a * b = 2^512 = 1 (mod m)
    let m = U512::from_digits([MAX; 8]);
    let a = U512::from_digits([0, 0, 0, 0, 0, 0, 0, 1 << 63]);
    assert_eq!(a.mul_mod(&U512::two(), &m).to_u128(), Some(1));
    // (m - 1)^2 = 1 (mod m)
    let minus_one = U512::from_digits([MAX - 1, MAX, MAX, MAX, MAX, MAX, MAX, MAX]);
    assert_eq!(minus_one.mul_mod(&minus_one, &m).to_u128(), Some(1));
    assert_eq!(minus_one.mul_mod_by_doubling(&minus_one, &m).to_u128(), Some(1));
}

#[test]
fn mul_mod_agrees_with_doubling() {
    let m = U512::from_u128(u128::MAX - 158);
    let a = U512::from_u128(u128::MAX / 3);
    let b = U512::from_u128(u128::MAX / 7);
    assert_eq!(a.mul_mod(&b, &m), a.mul_mod_by_doubling(&b, &m));
}
