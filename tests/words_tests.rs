use seximal::decimal::{self, convert_to_seximal, digits_from_num, digits_from_str};
use seximal::decimal::Digit as Dec;
use seximal::{to_seximal_words, Digit};

fn words(number: &str) -> String {
    to_seximal_words(number).unwrap()
}

fn seximal_value(digits: &[Digit]) -> u128 {
    let mut v: u128 = 0;
    for d in digits {
        let x = match d {
            Digit::Zero => 0,
            Digit::One => 1,
            Digit::Two => 2,
            Digit::Three => 3,
            Digit::Four => 4,
            Digit::Five => 5,
        };
        v = v * 6 + x;
    }
    v
}

#[test]
fn words_keep_trailing_space() {
    assert_eq!(words("0"), "zero ");
    assert_eq!(words("20"), "twelve ");
    assert_eq!(words("-21"), "negative dozen one ");
}

#[test]
fn plus_sign_is_ignored() {
    assert_eq!(words("+5"), "five ");
    assert_eq!(words("+100"), "nif ");
}

#[test]
fn malformed_inputs_fail() {
    assert!(to_seximal_words("").is_err());
    assert!(to_seximal_words("-").is_err());
    assert!(to_seximal_words("+").is_err());
    assert!(to_seximal_words("6").is_err());
    assert!(to_seximal_words("12a").is_err());
    assert!(to_seximal_words("-+5").is_err());
    assert!(to_seximal_words("1 2").is_err());
}

#[test]
fn odd_length_is_padded() {
    assert_eq!(words("123"), "nif dozen three ");
    assert_eq!(words("0123"), "nif dozen three ");
    assert_eq!(words("523"), "five nif dozen three ");
}

#[test]
fn leading_one_kept_before_exian_and_lower_nif() {
    assert_eq!(words("10100"), "one unexian one nif ");
    assert_eq!(words("20000"), "two unexian ");
    assert_eq!(words("1010000"), "nif one unexian ");
}

#[test]
fn pending_nif_carries_scale_word() {
    assert_eq!(words("1000000"), "nif unexian ");
    assert_eq!(words("10000000000"), "nif biexian ");
    assert_eq!(words("1000100"), "nif unexian one nif ");
}

#[test]
fn scale_prefixes() {
    let with_zeros = |pairs: usize| format!("1{}", "00".repeat(pairs));
    assert_eq!(words(&with_zeros(8)), "one quadexian ");
    assert_eq!(words(&with_zeros(10)), "one pentexian ");
    assert_eq!(words(&with_zeros(12)), "one unnilexian ");
    assert_eq!(words(&with_zeros(14)), "one ununexian ");
    assert_eq!(words(&with_zeros(16)), "one umbiexian ");
    assert_eq!(words(&with_zeros(20)), "one unquadexian ");
    assert_eq!(words(&with_zeros(22)), "one umpentexian ");
    assert_eq!(words(&with_zeros(32)), "one biquadexian ");
    assert_eq!(words(&with_zeros(52)), "one quadabiexian ");
    assert_eq!(words(&with_zeros(60)), "one pentnilexian ");
    assert_eq!(words(&with_zeros(64)), "one pentabiexian ");
}

#[test]
fn naming_twice_gives_same_words() {
    for text in ["0", "-0", "12345", "-5432101", "100000000"] {
        assert_eq!(to_seximal_words(text), to_seximal_words(text));
    }
}

#[test]
fn leading_zero_pairs_do_not_change_words() {
    assert_eq!(words("0015"), words("15"));
    assert_eq!(words("00100"), words("100"));
    assert_eq!(words("-000"), "negative zero ");
}

#[test]
fn digit_names() {
    assert_eq!(Digit::Three.name(), "three");
    assert_eq!(Digit::Zero.to_string(), "zero");
    assert_eq!(Digit::from_char('4'), Some(Digit::Four));
    assert_eq!(Digit::from_char('6'), None);
}

#[test]
fn decimal_digit_parsing() {
    assert_eq!(Dec::from_char('7'), Some(Dec::Seven));
    assert_eq!(Dec::from_char('a'), None);
    assert_eq!(Dec::from_byte_char(b'9'), Some(Dec::Nine));
    assert_eq!(Dec::from_byte_char(b'/'), None);
    assert_eq!(Dec::from_byte_char(b':'), None);
}

#[test]
fn decimal_digit_arithmetic() {
    assert_eq!(Dec::Four.checked_add(5), Some(Dec::Nine));
    assert_eq!(Dec::Five.checked_add(5), None);
    assert_eq!(Dec::Four.checked_sub(4), Some(Dec::Zero));
    assert_eq!(Dec::Three.checked_sub(4), None);
    assert_eq!(Dec::Eight.to_u8(), 8);
}

#[test]
fn digits_from_text() {
    assert_eq!(digits_from_str("0124"), Some(vec![Dec::Zero, Dec::One, Dec::Two, Dec::Four]));
    assert_eq!(digits_from_str(""), Some(vec![]));
    assert_eq!(digits_from_str("12x"), None);
    assert_eq!(digits_from_str("-12"), None);
    assert_eq!(digits_from_str("١٢"), None);
}

#[test]
fn digits_of_numbers() {
    assert_eq!(digits_from_num(0), vec![Dec::Zero]);
    assert_eq!(digits_from_num(2048), vec![Dec::Two, Dec::Zero, Dec::Four, Dec::Eight]);
    assert_eq!(digits_from_num(u128::MAX).len(), 39);
    assert_eq!(
        digits_from_num(12345),
        vec![Dec::One, Dec::Two, Dec::Three, Dec::Four, Dec::Five]
    );
}

#[test]
fn conversion_keeps_value() {
    for v in [0u128, 1, 5, 6, 35, 36, 215, 216, 1000, 46655, 46656, 123456789] {
        let sex = convert_to_seximal(digits_from_num(v));
        assert_eq!(seximal_value(&sex), v);
        if v > 0 {
            assert_ne!(sex[0], Digit::Zero);
        }
    }
    let big = convert_to_seximal(digits_from_num(u128::MAX));
    assert_eq!(seximal_value(&big), u128::MAX);
}

#[test]
fn leading_decimal_zeros_become_leading_seximal_zeros() {
    let with_zero = convert_to_seximal(digits_from_str("012").unwrap());
    let without = convert_to_seximal(digits_from_str("12").unwrap());
    assert_eq!(without, vec![Digit::Two, Digit::Zero]);
    assert_eq!(with_zero, vec![Digit::Zero, Digit::Two, Digit::Zero]);
    assert_eq!(seximal_value(&with_zero), seximal_value(&without));
    assert_eq!(
        convert_to_seximal(digits_from_str("000").unwrap()),
        vec![Digit::Zero, Digit::Zero, Digit::Zero]
    );
}

#[test]
fn long_decimal_input() {
    // 6^30 written in decimal.
    let digits = digits_from_str("221073919720733357899776").unwrap();
    let sex = convert_to_seximal(digits);
    assert_eq!(sex.len(), 31);
    assert_eq!(sex[0], Digit::One);
    assert!(sex[1..].iter().all(|d| *d == Digit::Zero));
}
