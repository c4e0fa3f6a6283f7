use bignum::Int;

#[test]
fn wrapping_addition() {
    assert_eq!(Int::new(2).add(&Int::new(3)), Int::new(5));
    assert_eq!(Int::new(i64::MAX).add(&Int::new(1)), Int::new(i64::MIN));
}

#[test]
fn wrapping_subtraction() {
    assert_eq!(Int::new(3).sub(&Int::new(5)), Int::new(-2));
    assert_eq!(Int::new(i64::MIN).sub(&Int::new(1)), Int::new(i64::MAX));
}

#[test]
fn wrapping_multiplication() {
    assert_eq!(Int::new(7).mul(&Int::new(-6)), Int::new(-42));
    assert_eq!(Int::new(i64::MAX).mul(&Int::new(2)), Int::new(-2));
}

#[test]
fn truncating_division_and_remainder() {
    assert_eq!(Int::new(7).div(&Int::new(2)), Int::new(3));
    assert_eq!(Int::new(-7).div(&Int::new(2)), Int::new(-3));
    assert_eq!(Int::new(7).rem(&Int::new(2)), Int::new(1));
    assert_eq!(Int::new(-7).rem(&Int::new(2)), Int::new(-1));
    assert_eq!(Int::new(7).rem(&Int::new(-2)), Int::new(1));
}

#[test]
fn negation() {
    assert_eq!(Int::new(5).neg(), Int::new(-5));
    assert_eq!(Int::new(-5).neg(), Int::new(5));
}

#[test]
fn bitwise_operators() {
    assert_eq!(Int::new(0b1100).bitand(&Int::new(0b1010)), Int::new(0b1000));
    assert_eq!(Int::new(0b1100).bitor(&Int::new(0b1010)), Int::new(0b1110));
    assert_eq!(Int::new(0b1100).bitxor(&Int::new(0b1010)), Int::new(0b0110));
}

#[test]
fn shifts() {
    assert_eq!(Int::new(3).shl(&Int::new(4)), Int::new(48));
    assert_eq!(Int::new(-16).shr(&Int::new(2)), Int::new(-4));
}

#[test]
fn total_ordering() {
    assert!(Int::new(-3).lt(&Int::new(2)));
    assert!(Int::new(2).le(&Int::new(2)));
    assert!(Int::new(5).gt(&Int::new(-7)));
    assert!(Int::new(5).ge(&Int::new(5)));
    assert_eq!(Int::new(4).get(), 4);
}
