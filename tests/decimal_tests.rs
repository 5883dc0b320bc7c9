use seximal::decimal::{convert_to_seximal, digits_from_num};
use seximal::Digit::{Five, Four, One, Three, Two, Zero};

#[test]
fn decimal_zero() {
    assert_eq!(convert_to_seximal(digits_from_num(0)), &[Zero]);
}

#[test]
fn some_numbers() {
    assert_eq!(convert_to_seximal(Vec::new()), &[]);
    assert_eq!(convert_to_seximal(digits_from_num(1)), &[One]);
    assert_eq!(convert_to_seximal(digits_from_num(5)), &[Five]);
    assert_eq!(convert_to_seximal(digits_from_num(6)), &[One, Zero]);
    assert_eq!(convert_to_seximal(digits_from_num(9)), &[One, Three]);
    assert_eq!(convert_to_seximal(digits_from_num(10)), &[One, Four]);
    assert_eq!(convert_to_seximal(digits_from_num(36)), &[One, Zero, Zero]);
    assert_eq!(convert_to_seximal(digits_from_num(120)), &[Three, Two, Zero]);
    assert_eq!(convert_to_seximal(digits_from_num(124)), &[Three, Two, Four]);
}
