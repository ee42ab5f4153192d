use matrix::{Element, Number};

#[test]
fn zero_is_the_additive_identity() {
    assert_eq!(<i64 as Element>::zero(), 0);
    assert_eq!(<bool as Element>::zero(), false);
    assert!(0u8.is_zero());
    assert!(!(-1i16).is_zero());
    assert!(false.is_zero());
    assert!(!true.is_zero());
}

#[test]
fn arithmetic_wraps_around() {
    assert_eq!(7i32.plus(5), 12);
    assert_eq!(7i32.times(5), 35);
    assert_eq!(250u8.plus(10), 4);
    assert_eq!(i64::MAX.plus(1), i64::MIN);
    assert_eq!(16u8.times(16), 0);
}
