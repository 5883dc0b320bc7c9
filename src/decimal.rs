//! Decimal digits and their conversion into base six.

use vstd::prelude::*;

use crate::Digit as SeximalDigit;
use crate::seximal_digits_of;
use crate::seximal_value;
use crate::chars_of;

verus! {

/// A decimal digit.
#[derive(Debug, Copy, Clone, PartialEq, Eq, Structural, PartialOrd, Ord)]
pub enum Digit {
    Zero,
    One,
    Two,
    Three,
    Four,
    Five,
    Six,
    Seven,
    Eight,
    Nine,
}

/// A sequence of decimal digits, most significant first.
pub type Digits = Vec<Digit>;

impl Digit {
    /// The numeric value of the digit.
    pub open spec fn value(self) -> nat {
        match self {
            Digit::Zero => 0,
            Digit::One => 1,
            Digit::Two => 2,
            Digit::Three => 3,
            Digit::Four => 4,
            Digit::Five => 5,
            Digit::Six => 6,
            Digit::Seven => 7,
            Digit::Eight => 8,
            Digit::Nine => 9,
        }
    }

    /// The digit whose value is `n % 10`.
    pub open spec fn of_nat(n: nat) -> Digit {
        let m = n % 10;
        if m == 0 {
            Digit::Zero
        } else if m == 1 {
            Digit::One
        } else if m == 2 {
            Digit::Two
        } else if m == 3 {
            Digit::Three
        } else if m == 4 {
            Digit::Four
        } else if m == 5 {
            Digit::Five
        } else if m == 6 {
            Digit::Six
        } else if m == 7 {
            Digit::Seven
        } else if m == 8 {
            Digit::Eight
        } else {
            Digit::Nine
        }
    }

    /// Reads one of the characters `'0'` to `'9'`; any other character gives `None`.
    pub fn from_char(c: char) -> (r: Option<Self>)
        ensures
            r is Some <==> is_decimal_char(c),
            r is Some ==> r->0 == char_decimal(c),
    {
        Some(
            match c {
                '0' => Digit::Zero,
                '1' => Digit::One,
                '2' => Digit::Two,
                '3' => Digit::Three,
                '4' => Digit::Four,
                '5' => Digit::Five,
                '6' => Digit::Six,
                '7' => Digit::Seven,
                '8' => Digit::Eight,
                '9' => Digit::Nine,
                _ => return None,
            },
        )
    }

    /// Reads one of the ASCII bytes `b'0'` to `b'9'`; any other byte gives `None`.
    pub fn from_byte_char(b: u8) -> (r: Option<Self>)
        ensures
            r is Some <==> 48 <= b <= 57,
            r is Some ==> r->0.value() == b - 48,
    {
        Some(
            // The ASCII codes of '0' to '9'.
            match b {
                48 => Digit::Zero,
                49 => Digit::One,
                50 => Digit::Two,
                51 => Digit::Three,
                52 => Digit::Four,
                53 => Digit::Five,
                54 => Digit::Six,
                55 => Digit::Seven,
                56 => Digit::Eight,
                57 => Digit::Nine,
                _ => return None,
            },
        )
    }

    /// The numeric value of the digit.
    pub fn to_u8(self) -> (r: u8)
        ensures
            r == self.value(),
    {
        match self {
            Digit::Zero => 0,
            Digit::One => 1,
            Digit::Two => 2,
            Digit::Three => 3,
            Digit::Four => 4,
            Digit::Five => 5,
            Digit::Six => 6,
            Digit::Seven => 7,
            Digit::Eight => 8,
            Digit::Nine => 9,
        }
    }

    /// The digit of value `n`.
    fn from_u8(n: u8) -> (r: Self)
        requires
            n < 10,
        ensures
            r.value() == n,
            r == Digit::of_nat(n as nat),
    {
        match n {
            0 => Digit::Zero,
            1 => Digit::One,
            2 => Digit::Two,
            3 => Digit::Three,
            4 => Digit::Four,
            5 => Digit::Five,
            6 => Digit::Six,
            7 => Digit::Seven,
            8 => Digit::Eight,
            _ => Digit::Nine,
        }
    }

    /// The digit of value `self + rhs`, or `None` when that is not a digit.
    pub fn checked_add(self, rhs: u8) -> (r: Option<Self>)
        ensures
            r is Some <==> self.value() + rhs <= 9,
            r is Some ==> r->0.value() == self.value() + rhs,
    {
        let v = self.to_u8();
        if rhs <= 9 - v {
            Some(Digit::from_u8(v + rhs))
        } else {
            None
        }
    }

    /// The digit of value `self - rhs`, or `None` when that is negative.
    pub fn checked_sub(self, rhs: u8) -> (r: Option<Self>)
        ensures
            r is Some <==> rhs <= self.value(),
            r is Some ==> r->0.value() == self.value() - rhs,
    {
        let v = self.to_u8();
        if rhs <= v {
            Some(Digit::from_u8(v - rhs))
        } else {
            None
        }
    }
}

/// Whether `c` is one of the decimal digit characters `'0'` to `'9'`.
pub open spec fn is_decimal_char(c: char) -> bool {
    '0' <= c && c <= '9'
}

/// The digit that the character `c` stands for, when `is_decimal_char(c)`.
pub open spec fn char_decimal(c: char) -> Digit {
    Digit::of_nat((c as nat - '0' as nat) as nat)
}

/// Whether every character of `t` is a decimal digit.
pub open spec fn all_decimal(t: Seq<char>) -> bool {
    forall|k: int| 0 <= k < t.len() ==> is_decimal_char(#[trigger] t[k])
}

/// The decimal digits that the characters of `t` stand for.
pub open spec fn text_digits(t: Seq<char>) -> Seq<Digit> {
    Seq::new(t.len(), |k: int| char_decimal(t[k]))
}

/// The decimal digits of `n`, most significant first, with no leading zero
/// (a single zero for zero).
pub open spec fn decimal_digits_of(n: nat) -> Seq<Digit>
    decreases n,
{
    if n < 10 {
        seq![Digit::of_nat(n)]
    } else {
        decimal_digits_of(n / 10).push(Digit::of_nat(n))
    }
}

/// The value of a decimal digit sequence, most significant digit first.
pub open spec fn decimal_value(s: Seq<Digit>) -> nat
    decreases s.len(),
{
    if s.len() == 0 {
        0
    } else {
        decimal_value(s.drop_last()) * 10 + s.last().value()
    }
}

/// The number of zero digits at the front of `s`.
pub open spec fn leading_zeros(s: Seq<Digit>) -> nat
    decreases s.len(),
{
    if s.len() > 0 && s[0] == Digit::Zero {
        1 + leading_zeros(s.drop_first())
    } else {
        0
    }
}

/// `k` zero base-six digits.
pub open spec fn seximal_zeros(k: nat) -> Seq<SeximalDigit> {
    Seq::new(k, |i: int| SeximalDigit::Zero)
}

/// The base-six digits for the decimal digits `s`: one zero for each leading zero
/// of `s`, then the digits of its value without leading zeros.
pub open spec fn seximal_conversion(s: Seq<Digit>) -> Seq<SeximalDigit> {
    seximal_zeros(leading_zeros(s)) + seximal_digits_of(decimal_value(s))
}

/// Divides the two-digit number `10 * h + l` (below 60) by six: the quotient digit
/// and the remainder.
fn digit_div_rem_lt60_6(digits: (Digit, Digit)) -> (r: (Digit, Digit))
    requires
        digits.0.value() < 6,
    ensures
        r.0.value() == (10 * digits.0.value() + digits.1.value()) / 6,
        r.1.value() == (10 * digits.0.value() + digits.1.value()) % 6,
{
    let (d1, d2) = digits;
    let low = d2.to_u8();
    match d1 {
        // 0, 6
        Digit::Zero => if low < 6 {
            (Digit::Zero, d2)
        } else {
            (Digit::One, d2.checked_sub(6).unwrap())
        },
        // 6, 12, 18
        Digit::One => if low < 2 {
            (Digit::One, d2.checked_add(4).unwrap())
        } else if low < 8 {
            (Digit::Two, d2.checked_sub(2).unwrap())
        } else {
            (Digit::Three, d2.checked_sub(8).unwrap())
        },
        // 18, 24
        Digit::Two => if low < 4 {
            (Digit::Three, d2.checked_add(2).unwrap())
        } else {
            (Digit::Four, d2.checked_sub(4).unwrap())
        },
        // 30, 36
        Digit::Three => if low < 6 {
            (Digit::Five, d2)
        } else {
            (Digit::Six, d2.checked_sub(6).unwrap())
        },
        // 36, 42, 48
        Digit::Four => if low < 2 {
            (Digit::Six, d2.checked_add(4).unwrap())
        } else if low < 8 {
            (Digit::Seven, d2.checked_sub(2).unwrap())
        } else {
            (Digit::Eight, d2.checked_sub(8).unwrap())
        },
        // 48, 54
        _ => if low < 4 {
            (Digit::Eight, d2.checked_add(2).unwrap())
        } else {
            (Digit::Nine, d2.checked_sub(4).unwrap())
        },
    }
}

proof fn lemma_decimal_value_push(s: Seq<Digit>, d: Digit)
    ensures
        decimal_value(s.push(d)) == decimal_value(s) * 10 + d.value(),
{
    assert(s.push(d).drop_last() =~= s);
}

/// One pass of long division by six: the quotient, with as many digits as the
/// dividend, and the remainder.
fn divide_by_six(dividend: &Vec<Digit>) -> (r: (Vec<Digit>, u8))
    ensures
        decimal_value(r.0@) == decimal_value(dividend@) / 6,
        r.1 as nat == decimal_value(dividend@) % 6,
        r.0@.len() == dividend@.len(),
{
    let mut quotient: Vec<Digit> = Vec::new();
    let mut rem: u8 = 0;
    let mut i: usize = 0;
    while i < dividend.len()
        invariant
            i <= dividend@.len(),
            quotient@.len() == i,
            rem < 6,
            decimal_value(dividend@.subrange(0, i as int)) == decimal_value(quotient@) * 6
                + rem,
        decreases dividend@.len() - i,
    {
        let d = dividend[i];
        let (q, r) = digit_div_rem_lt60_6((Digit::from_u8(rem), d));
        proof {
            let qv = decimal_value(quotient@);
            let x = 10 * rem + d.value();
            assert(dividend@.subrange(0, i + 1) =~= dividend@.subrange(0, i as int).push(d));
            lemma_decimal_value_push(dividend@.subrange(0, i as int), d);
            lemma_decimal_value_push(quotient@, q);
            assert(x == 6 * q.value() + r.value());
            assert((qv * 6 + rem) * 10 + d.value() == (qv * 10 + q.value()) * 6 + r.value())
                by (nonlinear_arith)
                requires
                    x == 10 * rem + d.value(),
                    x == 6 * q.value() + r.value(),
            ;
        }
        quotient.push(q);
        rem = r.to_u8();
        i = i + 1;
    }
    assert(dividend@.subrange(0, i as int) =~= dividend@);
    proof {
        let qv = decimal_value(quotient@);
        let v = decimal_value(dividend@);
        assert(v / 6 == qv && v % 6 == rem) by (nonlinear_arith)
            requires
                v == qv * 6 + rem,
                rem < 6,
        ;
    }
    (quotient, rem)
}

/// Whether the digits `s` are all zero, that is, whether their value is zero.
fn is_zero(s: &Vec<Digit>) -> (r: bool)
    ensures
        r == (decimal_value(s@) == 0),
{
    let mut i: usize = 0;
    while i < s.len()
        invariant
            i <= s@.len(),
            decimal_value(s@.subrange(0, i as int)) == 0,
        decreases s@.len() - i,
    {
        proof {
            assert(s@.subrange(0, i + 1) =~= s@.subrange(0, i as int).push(s@[i as int]));
            lemma_decimal_value_push(s@.subrange(0, i as int), s@[i as int]);
        }
        if s[i] != Digit::Zero {
            proof {
                lemma_value_of_nonzero_prefix(s@, (i + 1) as nat);
            }
            return false;
        }
        i = i + 1;
    }
    assert(s@.subrange(0, i as int) =~= s@);
    true
}

/// A prefix of non-zero value gives the whole sequence a non-zero value.
proof fn lemma_value_of_nonzero_prefix(s: Seq<Digit>, k: nat)
    requires
        k <= s.len(),
        decimal_value(s.subrange(0, k as int)) > 0,
    ensures
        decimal_value(s) > 0,
    decreases s.len() - k,
{
    if k < s.len() {
        assert(s.subrange(0, k + 1 as int) =~= s.subrange(0, k as int).push(s[k as int]));
        lemma_decimal_value_push(s.subrange(0, k as int), s[k as int]);
        lemma_value_of_nonzero_prefix(s, k + 1);
    } else {
        assert(s.subrange(0, k as int) =~= s);
    }
}

/// The number of zero digits at the front of `s`.
fn count_leading_zeros(s: &Vec<Digit>) -> (r: usize)
    ensures
        r == leading_zeros(s@),
{
    let mut i: usize = 0;
    assert(s@.subrange(0, s@.len() as int) =~= s@);
    while i < s.len() && s[i] == Digit::Zero
        invariant
            i <= s@.len(),
            leading_zeros(s@) == i + leading_zeros(s@.subrange(i as int, s@.len() as int)),
        decreases s@.len() - i,
    {
        assert(s@.subrange(i as int, s@.len() as int).drop_first() =~= s@.subrange(
            i + 1,
            s@.len() as int,
        ));
        i = i + 1;
    }
    i
}

/// Converts decimal digits into base-six digits by repeated long division by six.
/// Each leading zero of the input gives a leading zero of the output; an empty
/// input gives an empty output.
pub fn convert_to_seximal(digits: Digits) -> (r: Vec<SeximalDigit>)
    ensures
        r@ == seximal_conversion(digits@),
{
    let leading = count_leading_zeros(&digits);
    let ghost total = decimal_value(digits@);
    let mut dividend = digits;
    // The base-six digits found so far, most significant first.
    let mut found: Vec<SeximalDigit> = Vec::new();
    while !is_zero(&dividend)
        invariant
            seximal_digits_of(total) == seximal_digits_of(decimal_value(dividend@)) + found@,
        decreases decimal_value(dividend@),
    {
        let (quotient, rem) = divide_by_six(&dividend);
        let d = SeximalDigit::from_usize(rem as usize);
        proof {
            let v = decimal_value(dividend@);
            assert(seximal_digits_of(v) == seximal_digits_of(v / 6).push(d));
            assert(seximal_digits_of(v / 6) + found@.insert(0, d) =~= seximal_digits_of(
                v / 6,
            ).push(d) + found@);
        }
        found.insert(0, d);
        dividend = quotient;
    }
    let mut r: Vec<SeximalDigit> = Vec::new();
    let mut i: usize = 0;
    while i < leading
        invariant
            i <= leading,
            r@ == seximal_zeros(i as nat),
        decreases leading - i,
    {
        r.push(SeximalDigit::Zero);
        i = i + 1;
        assert(r@ =~= seximal_zeros(i as nat));
    }
    let mut j: usize = 0;
    while j < found.len()
        invariant
            j <= found@.len(),
            r@ == seximal_zeros(leading as nat) + found@.subrange(0, j as int),
        decreases found@.len() - j,
    {
        r.push(found[j]);
        j = j + 1;
        assert(r@ =~= seximal_zeros(leading as nat) + found@.subrange(0, j as int));
    }
    assert(found@.subrange(0, j as int) =~= found@);
    assert(seximal_digits_of(0) =~= Seq::<SeximalDigit>::empty());
    assert(found@ =~= seximal_digits_of(total));
    r
}

/// The decimal digits of the text `s`, or `None` if a character of it is not one
/// of `'0'` to `'9'`.
pub fn digits_from_str(s: &str) -> (r: Option<Digits>)
    ensures
        r is Some <==> all_decimal(s@),
        r is Some ==> r->0@ == text_digits(s@),
{
    let cs = chars_of(s);
    let mut i: usize = 0;
    while i < cs.len()
        invariant
            cs@ == s@,
            i <= cs@.len(),
            forall|k: int| 0 <= k < i ==> is_decimal_char(#[trigger] cs@[k]),
        decreases cs@.len() - i,
    {
        if !('0' <= cs[i] && cs[i] <= '9') {
            return None;
        }
        i = i + 1;
    }
    Some(digits_from_str_unchecked(s))
}

/// The decimal digits of the text `s`, all of whose characters are `'0'` to `'9'`.
pub fn digits_from_str_unchecked(s: &str) -> (r: Digits)
    requires
        all_decimal(s@),
    ensures
        r@ == text_digits(s@),
{
    let cs = chars_of(s);
    let mut digits: Digits = Vec::new();
    let mut i: usize = 0;
    while i < cs.len()
        invariant
            cs@ == s@,
            all_decimal(s@),
            i <= cs@.len(),
            digits@ =~= text_digits(s@).subrange(0, i as int),
        decreases cs@.len() - i,
    {
        assert(is_decimal_char(cs@[i as int]));
        let d = Digit::from_char(cs[i]).unwrap();
        digits.push(d);
        i = i + 1;
        assert(digits@ =~= text_digits(s@).subrange(0, i as int));
    }
    digits
}

/// The decimal digits of `n`, most significant first, with no leading zero.
pub fn digits_from_num(n: u128) -> (r: Digits)
    ensures
        r@ == decimal_digits_of(n as nat),
{
    let mut digits: Digits = Vec::new();
    let mut m: u128 = n;
    while m >= 10
        invariant
            decimal_digits_of(n as nat) == decimal_digits_of(m as nat) + digits@,
        decreases m,
    {
        let d = Digit::from_u8((m % 10) as u8);
        proof {
            assert(decimal_digits_of(m as nat) == decimal_digits_of((m / 10) as nat).push(d));
            assert(decimal_digits_of((m / 10) as nat) + digits@.insert(0, d) =~= decimal_digits_of(
                (m / 10) as nat,
            ).push(d) + digits@);
        }
        digits.insert(0, d);
        m = m / 10;
    }
    let d = Digit::from_u8(m as u8);
    assert(decimal_digits_of(m as nat) + digits@ =~= digits@.insert(0, d));
    digits.insert(0, d);
    digits
}

/// `k` zero decimal digits.
pub open spec fn decimal_zeros(k: nat) -> Seq<Digit> {
    Seq::new(k, |i: int| Digit::Zero)
}

proof fn lemma_seximal_value_push(s: Seq<SeximalDigit>, d: SeximalDigit)
    ensures
        seximal_value(s.push(d)) == seximal_value(s) * 6 + d.value(),
{
    assert(s.push(d).drop_last() =~= s);
}

/// The base-six digits of `n` have the value `n`.
pub proof fn lemma_seximal_digits_value(n: nat)
    ensures
        seximal_value(seximal_digits_of(n)) == n,
    decreases n,
{
    if n > 0 {
        lemma_seximal_digits_value(n / 6);
        lemma_seximal_value_push(seximal_digits_of(n / 6), SeximalDigit::of_nat(n));
    }
}

/// Zeros in front of base-six digits do not change their value.
proof fn lemma_seximal_zeros_prefix(k: nat, t: Seq<SeximalDigit>)
    ensures
        seximal_value(seximal_zeros(k) + t) == seximal_value(t),
    decreases t.len() + k,
{
    if t.len() > 0 {
        lemma_seximal_zeros_prefix(k, t.drop_last());
        assert((seximal_zeros(k) + t).drop_last() =~= seximal_zeros(k) + t.drop_last());
    } else if k > 0 {
        lemma_seximal_zeros_prefix((k - 1) as nat, t);
        assert((seximal_zeros(k) + t).drop_last() =~= seximal_zeros((k - 1) as nat) + t);
    } else {
        assert(seximal_zeros(k) + t =~= t);
    }
}

/// Zeros in front of decimal digits change neither their value nor anything but
/// their count of leading zeros.
proof fn lemma_decimal_zeros_prefix(k: nat, s: Seq<Digit>)
    ensures
        decimal_value(decimal_zeros(k) + s) == decimal_value(s),
        leading_zeros(decimal_zeros(k) + s) == k + leading_zeros(s),
    decreases s.len() + k,
{
    if k > 0 {
        lemma_decimal_zeros_prefix((k - 1) as nat, s);
        assert((decimal_zeros(k) + s).drop_first() =~= decimal_zeros((k - 1) as nat) + s);
    } else {
        assert(decimal_zeros(k) + s =~= s);
    }
    if s.len() > 0 {
        lemma_decimal_zeros_prefix(k, s.drop_last());
        assert((decimal_zeros(k) + s).drop_last() =~= decimal_zeros(k) + s.drop_last());
    } else if k > 0 {
        assert((decimal_zeros(k) + s).drop_last() =~= decimal_zeros((k - 1) as nat) + s);
    }
}

/// Converting to base six keeps the value.
pub proof fn lemma_conversion_keeps_value(s: Seq<Digit>)
    ensures
        seximal_value(seximal_conversion(s)) == decimal_value(s),
{
    lemma_seximal_zeros_prefix(leading_zeros(s), seximal_digits_of(decimal_value(s)));
    lemma_seximal_digits_value(decimal_value(s));
}

/// Zeros in front of the decimal digits come out as as many zeros in front of the
/// base-six digits, and leave the rest of the result as it is.
pub proof fn lemma_conversion_of_leading_zeros(k: nat, s: Seq<Digit>)
    ensures
        seximal_conversion(decimal_zeros(k) + s) == seximal_zeros(k) + seximal_conversion(s),
{
    lemma_decimal_zeros_prefix(k, s);
    assert(seximal_zeros(k + leading_zeros(s)) =~= seximal_zeros(k) + seximal_zeros(
        leading_zeros(s),
    ));
    assert(seximal_zeros(k) + seximal_conversion(s) =~= seximal_zeros(k) + seximal_zeros(
        leading_zeros(s),
    ) + seximal_digits_of(decimal_value(s)));
}

/// Zeros in front of the decimal digits never change the value of the base-six
/// result.
pub proof fn lemma_leading_zeros_keep_magnitude(k: nat, s: Seq<Digit>)
    ensures
        seximal_value(seximal_conversion(decimal_zeros(k) + s)) == seximal_value(
            seximal_conversion(s),
        ),
{
    lemma_conversion_keeps_value(decimal_zeros(k) + s);
    lemma_conversion_keeps_value(s);
    lemma_decimal_zeros_prefix(k, s);
}

proof fn lemma_decimal_digits_of(n: nat)
    ensures
        decimal_value(decimal_digits_of(n)) == n,
        decimal_digits_of(n).len() > 0,
        n > 0 ==> decimal_digits_of(n)[0] != Digit::Zero,
    decreases n,
{
    assert(Digit::of_nat(n).value() == n % 10);
    if n >= 10 {
        lemma_decimal_digits_of(n / 10);
        lemma_decimal_value_push(decimal_digits_of(n / 10), Digit::of_nat(n));
        assert((n / 10) * 10 + n % 10 == n);
    } else {
        assert(decimal_digits_of(n).drop_last() =~= Seq::<Digit>::empty());
        assert(decimal_value(Seq::<Digit>::empty()) == 0);
        assert(decimal_value(decimal_digits_of(n)) == Digit::of_nat(n).value());
    }
}

/// The decimal digits of any number `v` convert to the base-six digits of `v`: a
/// single zero for zero, and no leading zero otherwise. The result has the value
/// `v`.
pub proof fn lemma_convert_number(v: nat)
    ensures
        seximal_conversion(decimal_digits_of(v)) == (if v == 0 {
            seq![SeximalDigit::Zero]
        } else {
            seximal_digits_of(v)
        }),
        seximal_value(seximal_conversion(decimal_digits_of(v))) == v,
{
    let s = decimal_digits_of(v);
    lemma_decimal_digits_of(v);
    lemma_conversion_keeps_value(s);
    if v == 0 {
        assert(s =~= seq![Digit::Zero]);
        assert(s.drop_first() =~= Seq::<Digit>::empty());
        assert(leading_zeros(s.drop_first()) == 0);
        assert(leading_zeros(s) == 1);
        assert(seximal_digits_of(0) =~= Seq::<SeximalDigit>::empty());
        assert(seximal_conversion(s) =~= seq![SeximalDigit::Zero]);
    } else {
        assert(seximal_conversion(s) =~= seximal_digits_of(v));
    }
}

} // verus!
