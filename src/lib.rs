//! Spoken names for numbers written in base six, and conversion of
//! arbitrary-length decimal digit strings into base-six digits.

use vstd::prelude::*;
use vstd::std_specs::iter::IteratorSpec;

pub mod decimal;

verus! {

/// A base-six digit.
#[derive(Debug, Copy, Clone, PartialEq, Eq, Structural)]
pub enum Digit {
    Zero,
    One,
    Two,
    Three,
    Four,
    Five,
}

impl Digit {
    /// The numeric value of the digit.
    pub open spec fn value(self) -> nat {
        match self {
            Digit::Zero => 0,
            Digit::One => 1,
            Digit::Two => 2,
            Digit::Three => 3,
            Digit::Four => 4,
            Digit::Five => 5,
        }
    }

    /// The digit whose value is `n % 6`.
    pub open spec fn of_nat(n: nat) -> Digit {
        let m = n % 6;
        if m == 0 {
            Digit::Zero
        } else if m == 1 {
            Digit::One
        } else if m == 2 {
            Digit::Two
        } else if m == 3 {
            Digit::Three
        } else if m == 4 {
            Digit::Four
        } else {
            Digit::Five
        }
    }

    /// Reads one of the characters `'0'` to `'5'`; any other character gives `None`.
    pub fn from_char(c: char) -> (r: Option<Self>)
        ensures
            r is Some <==> is_seximal_char(c),
            r is Some ==> r->0 == char_digit(c),
    {
        Some(
            match c {
                '0' => Digit::Zero,
                '1' => Digit::One,
                '2' => Digit::Two,
                '3' => Digit::Three,
                '4' => Digit::Four,
                '5' => Digit::Five,
                _ => return None,
            },
        )
    }

    /// The digit of value `n`.
    pub(crate) fn from_usize(n: usize) -> (r: Self)
        requires
            n < 6,
        ensures
            r.value() == n,
            r == Digit::of_nat(n as nat),
    {
        match n {
            0 => Digit::Zero,
            1 => Digit::One,
            2 => Digit::Two,
            3 => Digit::Three,
            4 => Digit::Four,
            _ => Digit::Five,
        }
    }
}

/// Whether `c` is one of the base-six digit characters `'0'` to `'5'`.
pub open spec fn is_seximal_char(c: char) -> bool {
    '0' <= c && c <= '5'
}

/// The digit that the character `c` stands for, when `is_seximal_char(c)`.
pub open spec fn char_digit(c: char) -> Digit {
    Digit::of_nat((c as nat - '0' as nat) as nat)
}

/// The spoken word for a single digit.
pub open spec fn digit_word(d: Digit) -> Seq<char> {
    match d {
        Digit::Zero => "zero"@,
        Digit::One => "one"@,
        Digit::Two => "two"@,
        Digit::Three => "three"@,
        Digit::Four => "four"@,
        Digit::Five => "five"@,
    }
}

/// The low digit of a pair after a tens-like word: nothing for zero.
pub open spec fn trailing_word(l: Digit) -> Seq<char> {
    if l == Digit::Zero {
        Seq::empty()
    } else {
        digit_word(l) + " "@
    }
}

/// The words for the two-digit group `(h, l)`, each word followed by a space.
pub open spec fn pair_words(h: Digit, l: Digit) -> Seq<char> {
    match h {
        Digit::Zero => digit_word(l) + " "@,
        Digit::One => match l {
            Digit::Zero => "six "@,
            Digit::One => "seven "@,
            Digit::Two => "eight "@,
            Digit::Three => "nine "@,
            Digit::Four => "ten "@,
            Digit::Five => "eleven "@,
        },
        Digit::Two => if l == Digit::Zero {
            "twelve "@
        } else {
            "dozen "@ + digit_word(l) + " "@
        },
        Digit::Three => "thirsy "@ + trailing_word(l),
        Digit::Four => "foursy "@ + trailing_word(l),
        Digit::Five => "fifsy "@ + trailing_word(l),
    }
}

impl Digit {
    /// The spoken word for this digit.
    pub fn name(&self) -> (r: &'static str)
        ensures
            r@ == digit_word(*self),
    {
        match self {
            Digit::Zero => "zero",
            Digit::One => "one",
            Digit::Two => "two",
            Digit::Three => "three",
            Digit::Four => "four",
            Digit::Five => "five",
        }
    }

    /// The spoken word for this digit, as an owned string.
    pub fn to_string(&self) -> (r: String)
        ensures
            r@ == digit_word(*self),
    {
        String::from_str(self.name())
    }
}

/// Appends the words for the digit `l` after a tens-like word: nothing for zero.
fn push_trailing(buf: &mut String, l: Digit)
    ensures
        final(buf)@ == old(buf)@ + trailing_word(l),
{
    if l != Digit::Zero {
        buf.append(l.name());
        buf.append(" ");
    }
}

/// Appends the words for the two-digit group `(d1, d2)`.
fn convert_pair(buf: &mut String, d1: Digit, d2: Digit)
    ensures
        final(buf)@ == old(buf)@ + pair_words(d1, d2),
{
    match d1 {
        Digit::Zero => {
            buf.append(d2.name());
            buf.append(" ");
        },
        Digit::One => match d2 {
            Digit::Zero => buf.append("six "),
            Digit::One => buf.append("seven "),
            Digit::Two => buf.append("eight "),
            Digit::Three => buf.append("nine "),
            Digit::Four => buf.append("ten "),
            Digit::Five => buf.append("eleven "),
        },
        Digit::Two => if d2 == Digit::Zero {
            buf.append("twelve ");
        } else {
            buf.append("dozen ");
            buf.append(d2.name());
            buf.append(" ");
        },
        Digit::Three => {
            buf.append("thirsy ");
            push_trailing(buf, d2);
        },
        Digit::Four => {
            buf.append("foursy ");
            push_trailing(buf, d2);
        },
        Digit::Five => {
            buf.append("fifsy ");
            push_trailing(buf, d2);
        },
    }
}

/// std's `fmt::Error`, the error that `to_seximal_words` reports for malformed
/// text; it carries nothing.
#[verifier::external_type_specification]
#[verifier::external_body]
pub struct ExFmtError(std::fmt::Error);

/// Relies on `<fmt::Error as Default>::default` to build the error value; nothing
/// is assumed of it.
pub assume_specification[ <std::fmt::Error as core::default::Default>::default ]() -> std::fmt::Error;

/// The base-six digits of `n`, most significant first, with no leading zero
/// (none at all for zero).
pub open spec fn seximal_digits_of(n: nat) -> Seq<Digit>
    decreases n,
{
    if n == 0 {
        Seq::empty()
    } else {
        seximal_digits_of(n / 6).push(Digit::of_nat(n))
    }
}

/// The value of a base-six digit sequence, most significant digit first.
pub open spec fn seximal_value(s: Seq<Digit>) -> nat
    decreases s.len(),
{
    if s.len() == 0 {
        0
    } else {
        seximal_value(s.drop_last()) * 6 + s.last().value()
    }
}

/// The syllable for the scale digit `d`, given the digit that follows it.
pub open spec fn scale_syllable(d: Digit, next: Option<Digit>) -> Seq<char> {
    match d {
        Digit::Zero => "nil"@,
        Digit::One => if next == Some(Digit::Two) || next == Some(Digit::Five) {
            "um"@
        } else {
            "un"@
        },
        Digit::Two => "bi"@,
        Digit::Three => "tri"@,
        Digit::Four => if next is Some && next->0.value() >= 2 {
            "quada"@
        } else {
            "quad"@
        },
        Digit::Five => if next is Some && next->0.value() >= 2 {
            "penta"@
        } else {
            "pent"@
        },
    }
}

/// The syllables for a sequence of scale digits, each chosen by the digit after it.
pub open spec fn scale_syllables(ds: Seq<Digit>) -> Seq<char>
    decreases ds.len(),
{
    if ds.len() == 0 {
        Seq::empty()
    } else {
        let next = if ds.len() > 1 {
            Some(ds[1])
        } else {
            None
        };
        scale_syllable(ds[0], next) + scale_syllables(ds.drop_first())
    }
}

/// The base-six digits of `n` as written out: those of `seximal_digits_of`, and a
/// single zero for zero.
pub open spec fn prefix_digits(n: nat) -> Seq<Digit> {
    if n == 0 {
        seq![Digit::Zero]
    } else {
        seximal_digits_of(n)
    }
}

/// The scale word for the `n`-th even group: the multiplier prefix built from the
/// base-six digits of `n`, then "exian".
pub open spec fn scale_word(n: nat) -> Seq<char> {
    scale_syllables(prefix_digits(n)) + "exian "@
}

/// The base-six digits of a number, handed out most significant first.
struct SeximalDigits {
    digits: Vec<Digit>,
    pos: usize,
}

impl SeximalDigits {
    /// The digits not yet handed out.
    spec fn rest(&self) -> Seq<Digit> {
        self.digits@.subrange(self.pos as int, self.digits@.len() as int)
    }

    spec fn wf(&self) -> bool {
        self.pos <= self.digits@.len()
    }

    fn new(n: usize) -> (r: Self)
        ensures
            r.wf(),
            r.rest() == prefix_digits(n as nat),
    {
        let mut digits: Vec<Digit> = Vec::new();
        let mut m: usize = n;
        while m > 0
            invariant
                seximal_digits_of(n as nat) == seximal_digits_of(m as nat) + digits@,
            decreases m,
        {
            let d = Digit::from_usize(m % 6);
            proof {
                assert(seximal_digits_of(m as nat) == seximal_digits_of((m / 6) as nat).push(d));
                assert(seximal_digits_of((m / 6) as nat) + digits@.insert(0, d)
                    =~= seximal_digits_of((m / 6) as nat).push(d) + digits@);
            }
            digits.insert(0, d);
            m = m / 6;
        }
        if n == 0 {
            digits.push(Digit::Zero);
        }
        assert(digits@.subrange(0, digits@.len() as int) =~= digits@);
        assert(digits@ =~= prefix_digits(n as nat));
        SeximalDigits { digits, pos: 0 }
    }

    /// The next digit to be handed out, if any, without handing it out.
    fn peek(&self) -> (r: Option<Digit>)
        requires
            self.wf(),
        ensures
            r == (if self.rest().len() > 0 {
                Some(self.rest()[0])
            } else {
                None
            }),
    {
        if self.pos < self.digits.len() {
            Some(self.digits[self.pos])
        } else {
            None
        }
    }

    /// Hands out the next digit, if any.
    fn next(&mut self) -> (r: Option<Digit>)
        requires
            old(self).wf(),
        ensures
            final(self).wf(),
            old(self).rest().len() == 0 ==> r is None && final(self).rest() == old(self).rest(),
            old(self).rest().len() > 0 ==> r == Some(old(self).rest()[0]) && final(self).rest()
                == old(self).rest().drop_first(),
    {
        if self.pos < self.digits.len() {
            let d = self.digits[self.pos];
            self.pos = self.pos + 1;
            assert(self.rest() =~= old(self).rest().drop_first());
            Some(d)
        } else {
            None
        }
    }
}

/// Appends the scale word for the `n`-th even group.
fn push_scale_word(buf: &mut String, n: usize)
    ensures
        final(buf)@ == old(buf)@ + scale_word(n as nat),
{
    let ghost start = buf@;
    let mut prefix = SeximalDigits::new(n);
    loop
        invariant
            prefix.wf(),
            start + scale_syllables(prefix_digits(n as nat)) == buf@ + scale_syllables(
                prefix.rest(),
            ),
        ensures
            start + scale_syllables(prefix_digits(n as nat)) == buf@,
        decreases prefix.rest().len(),
    {
        let ghost rest = prefix.rest();
        match prefix.next() {
            None => break,
            Some(d) => {
                let word = match d {
                    Digit::Zero => "nil",
                    Digit::One => match prefix.peek() {
                        Some(Digit::Two) | Some(Digit::Five) => "um",
                        _ => "un",
                    },
                    Digit::Two => "bi",
                    Digit::Three => "tri",
                    Digit::Four => match prefix.peek() {
                        Some(Digit::Two) | Some(Digit::Three) | Some(Digit::Four) | Some(
                            Digit::Five,
                        ) => "quada",
                        _ => "quad",
                    },
                    Digit::Five => match prefix.peek() {
                        Some(Digit::Two) | Some(Digit::Three) | Some(Digit::Four) | Some(
                            Digit::Five,
                        ) => "penta",
                        _ => "pent",
                    },
                };
                proof {
                    let next = if rest.len() > 1 {
                        Some(rest[1])
                    } else {
                        None
                    };
                    assert(word@ == scale_syllable(d, next));
                    assert(scale_syllables(rest) == scale_syllable(d, next) + scale_syllables(
                        prefix.rest(),
                    ));
                    assert(buf@ + scale_syllables(rest) =~= (buf@ + word@) + scale_syllables(
                        prefix.rest(),
                    ));
                }
                buf.append(word);
            },
        }
    }
    buf.append("exian ");
    assert(start + scale_word(n as nat) =~= buf@);
}

/// The characters of `s`, in order.
pub(crate) fn chars_of(s: &str) -> (r: Vec<char>)
    ensures
        r@ == s@,
{
    broadcast use vstd::string::group_string_axioms;

    let mut it = s.chars();
    let mut out: Vec<char> = Vec::new();
    loop
        invariant
            out@ + it.remaining() == s@,
            it.decrease() is Some,
        ensures
            out@ == s@,
        decreases it.decrease()->0,
    {
        let ghost before = it.remaining();
        match it.next() {
            None => {
                assert(out@ =~= s@);
                break;
            },
            Some(c) => {
                out.push(c);
                assert(out@ + it.remaining() =~= s@) by {
                    assert(before =~= seq![c] + it.remaining());
                }
            },
        }
    }
    out
}

/// Whether every character of `b` is a base-six digit.
pub open spec fn all_seximal(b: Seq<char>) -> bool {
    forall|k: int| 0 <= k < b.len() ==> is_seximal_char(#[trigger] b[k])
}

/// The digit characters with a `'0'` put in front when their count is odd.
pub open spec fn padded_to_pairs(b: Seq<char>) -> Seq<char> {
    if b.len() % 2 == 1 {
        seq!['0'] + b
    } else {
        b
    }
}

/// The digit characters of `b` grouped into pairs from the least significant end.
pub open spec fn raw_pairs(b: Seq<char>) -> Seq<(Digit, Digit)> {
    let p = padded_to_pairs(b);
    Seq::new(p.len() / 2, |k: int| (char_digit(p[2 * k]), char_digit(p[2 * k + 1])))
}

/// `p` without its leading zero pairs, keeping at least one pair.
pub open spec fn strip_zero_pairs(p: Seq<(Digit, Digit)>) -> Seq<(Digit, Digit)>
    decreases p.len(),
{
    if p.len() > 1 && p[0] == (Digit::Zero, Digit::Zero) {
        strip_zero_pairs(p.drop_first())
    } else {
        p
    }
}

/// The digit pairs of the base-six text `b`, most significant first and without
/// leading zero pairs; `None` if a character is not a base-six digit.
pub open spec fn digit_pairs(b: Seq<char>) -> Option<Seq<(Digit, Digit)>> {
    if all_seximal(b) {
        Some(strip_zero_pairs(raw_pairs(b)))
    } else {
        None
    }
}

/// The words for the pair at position `i` (counted in pairs from the least
/// significant one) of a number whose most significant pair stands at position
/// `top`, given whether the last odd position held a non-zero pair. The second
/// component is that flag after this pair.
pub open spec fn group_words(pair: (Digit, Digit), i: nat, top: nat, pending: bool) -> (
    Seq<char>,
    bool,
) {
    let zero = pair == (Digit::Zero, Digit::Zero);
    if i == 0 {
        (
            if !zero || top == 0 {
                pair_words(pair.0, pair.1)
            } else {
                Seq::empty()
            },
            pending,
        )
    } else if i % 2 == 1 {
        if zero {
            (Seq::empty(), false)
        } else {
            (
                (if i == top && pair == (Digit::Zero, Digit::One) {
                    Seq::empty()
                } else {
                    pair_words(pair.0, pair.1)
                }) + "nif "@,
                true,
            )
        }
    } else {
        if zero && !pending {
            (Seq::empty(), pending)
        } else {
            (
                (if zero {
                    Seq::empty()
                } else {
                    pair_words(pair.0, pair.1)
                }) + scale_word(i / 2),
                pending,
            )
        }
    }
}

/// The words for the first `k` pairs of `p`, most significant first, and the flag
/// carried after them.
pub open spec fn render_prefix(p: Seq<(Digit, Digit)>, k: nat) -> (Seq<char>, bool)
    decreases k,
{
    if k == 0 || k > p.len() {
        (Seq::empty(), false)
    } else {
        let before = render_prefix(p, (k - 1) as nat);
        let g = group_words(p[k - 1], (p.len() - k) as nat, (p.len() - 1) as nat, before.1);
        (before.0 + g.0, g.1)
    }
}

/// The words for the digit pairs `p`, most significant first.
pub open spec fn render_pairs(p: Seq<(Digit, Digit)>) -> Seq<char> {
    render_prefix(p, p.len()).0
}

/// The sign words of the text `s` and the digits after its sign character.
pub open spec fn sign_split(s: Seq<char>) -> (Seq<char>, Seq<char>) {
    if s.len() > 0 && s[0] == '-' {
        ("negative "@, s.drop_first())
    } else if s.len() > 0 && s[0] == '+' {
        (Seq::empty(), s.drop_first())
    } else {
        (Seq::empty(), s)
    }
}

/// The spoken form of the base-six text `s`, each word followed by a space;
/// `None` when `s` is malformed.
pub open spec fn seximal_words(s: Seq<char>) -> Option<Seq<char>> {
    let (sign, body) = sign_split(s);
    match digit_pairs(body) {
        Some(p) => if p.len() > 0 {
            Some(sign + render_pairs(p))
        } else {
            None
        },
        None => None,
    }
}

/// The digit pairs of the base-six text `s`.
fn number_from_str(s: &str) -> (r: Option<Vec<(Digit, Digit)>>)
    ensures
        r is Some <==> digit_pairs(s@) is Some,
        r is Some ==> r->0@ == digit_pairs(s@)->0,
{
    let cs = chars_of(s);
    let n = cs.len();
    let ghost raw = raw_pairs(cs@);
    let ghost padded = padded_to_pairs(cs@);
    let odd: usize = n % 2;
    let mut number: Vec<(Digit, Digit)> = Vec::new();
    if odd == 1 {
        let d = match Digit::from_char(cs[0]) {
            Some(d) => d,
            None => return None,
        };
        number.push((Digit::Zero, d));
        assert(padded[0] == '0' && padded[1] == cs@[0]);
    }
    let mut k: usize = odd;
    while k < n
        invariant
            n == cs@.len(),
            n == s@.len(),
            cs@ == s@,
            odd == n % 2,
            k + odd == 2 * number@.len(),
            odd <= k <= n,
            raw == raw_pairs(cs@),
            padded == padded_to_pairs(cs@),
            forall|j: int| 0 <= j < k ==> is_seximal_char(#[trigger] cs@[j]),
            number@ == raw.subrange(0, number@.len() as int),
        decreases n - k,
    {
        let d1 = match Digit::from_char(cs[k]) {
            Some(d) => d,
            None => return None,
        };
        let d2 = match Digit::from_char(cs[k + 1]) {
            Some(d) => d,
            None => return None,
        };
        let ghost m = number@.len() as int;
        assert(padded[2 * m] == cs@[k as int] && padded[2 * m + 1] == cs@[k + 1]);
        number.push((d1, d2));
        assert(number@ =~= raw.subrange(0, number@.len() as int));
        k = k + 2;
    }
    assert(number@ =~= raw);
    assert(all_seximal(cs@));
    while number.len() > 1 && number[0].0 == Digit::Zero && number[0].1 == Digit::Zero
        invariant
            strip_zero_pairs(number@) == strip_zero_pairs(raw),
        decreases number.len(),
    {
        assert(number@.remove(0) =~= number@.drop_first());
        number.remove(0);
    }
    Some(number)
}

/// Appends the words for the pair `(d1, d2)` at position `i` of a number whose most
/// significant pair stands at position `top`, and returns the carried flag.
fn convert_group(
    buf: &mut String,
    d1: Digit,
    d2: Digit,
    i: usize,
    top: usize,
    pending: bool,
) -> (r: bool)
    requires
        i <= top,
    ensures
        final(buf)@ == old(buf)@ + group_words((d1, d2), i as nat, top as nat, pending).0,
        r == group_words((d1, d2), i as nat, top as nat, pending).1,
{
    let zero = d1 == Digit::Zero && d2 == Digit::Zero;
    if i == 0 {
        if !zero || top == 0 {
            convert_pair(buf, d1, d2);
        } else {
            assert(buf@ =~= buf@ + Seq::<char>::empty());
        }
        pending
    } else if i % 2 == 1 {
        if zero {
            assert(buf@ =~= buf@ + Seq::<char>::empty());
            return false;
        }
        let ghost start = buf@;
        // A leading "one" is not spoken before "nif".
        if !(i == top && d1 == Digit::Zero && d2 == Digit::One) {
            convert_pair(buf, d1, d2);
        }
        buf.append("nif ");
        assert(buf@ =~= start + group_words((d1, d2), i as nat, top as nat, pending).0);
        true
    } else {
        if zero && !pending {
            assert(buf@ =~= buf@ + Seq::<char>::empty());
            return pending;
        }
        let ghost start = buf@;
        if !zero {
            convert_pair(buf, d1, d2);
        }
        push_scale_word(buf, i / 2);
        assert(buf@ =~= start + group_words((d1, d2), i as nat, top as nat, pending).0);
        pending
    }
}

/// The spoken form of a number written in base six: an optional sign (`-` for
/// negative, `+` ignored) followed by one or more of the digits `0` to `5`. Each
/// word is followed by a space. Any other text is malformed and gives an error.
pub fn to_seximal_words(s: &str) -> (r: Result<String, std::fmt::Error>)
    ensures
        r is Ok <==> seximal_words(s@) is Some,
        r is Ok ==> r->Ok_0@ == seximal_words(s@)->0,
{
    let len = s.unicode_len();
    let first = if len > 0 {
        Some(s.get_char(0))
    } else {
        None
    };
    let (sign, body) = match first {
        Some('-') => ("negative ", s.substring_char(1, len)),
        Some('+') => ("", s.substring_char(1, len)),
        _ => ("", s),
    };
    proof {
        reveal_strlit("");
        assert(s@.len() > 0 ==> s@.subrange(1, s@.len() as int) =~= s@.drop_first());
    }
    assert(sign@ == sign_split(s@).0 && body@ == sign_split(s@).1);
    let number = match number_from_str(body) {
        Some(number) => number,
        None => return Err(std::fmt::Error::default()),
    };
    if number.len() == 0 {
        return Err(std::fmt::Error::default());
    }
    let mut number_string = String::new();
    number_string.append(sign);
    let top = number.len() - 1;
    let mut pending = false;
    let mut k: usize = 0;
    while k < number.len()
        invariant
            top + 1 == number@.len(),
            k <= number@.len(),
            number_string@ == sign@ + render_prefix(number@, k as nat).0,
            pending == render_prefix(number@, k as nat).1,
        decreases number@.len() - k,
    {
        let (d1, d2) = number[k];
        let ghost before = number_string@;
        pending = convert_group(&mut number_string, d1, d2, top - k, top, pending);
        assert(number_string@ =~= sign@ + render_prefix(number@, (k + 1) as nat).0);
        k = k + 1;
    }
    Ok(number_string)
}

/// Text has a spoken form exactly when, after its optional sign, it holds one or
/// more characters and all of them are base-six digits; empty text, text with
/// any other character, and a sign with no digits after it are malformed.
pub proof fn lemma_words_defined_iff_well_formed(s: Seq<char>)
    ensures
        seximal_words(s) is Some <==> sign_split(s).1.len() > 0 && all_seximal(sign_split(s).1),
{
    let body = sign_split(s).1;
    if body.len() > 0 && all_seximal(body) {
        assert(raw_pairs(body).len() > 0);
        lemma_strip_keeps_a_pair(raw_pairs(body));
    }
    if body.len() == 0 {
        assert(raw_pairs(body) =~= Seq::<(Digit, Digit)>::empty());
    }
}

proof fn lemma_strip_keeps_a_pair(p: Seq<(Digit, Digit)>)
    ensures
        p.len() > 0 ==> strip_zero_pairs(p).len() > 0,
    decreases p.len(),
{
    if p.len() > 1 && p[0] == (Digit::Zero, Digit::Zero) {
        lemma_strip_keeps_a_pair(p.drop_first());
    }
}

/// The spoken form depends on nothing but the sign and the digit pairs: two texts
/// that agree on both are spoken alike, so speaking the same text twice gives
/// the same words.
pub proof fn lemma_words_determined_by_sign_and_pairs(s: Seq<char>, t: Seq<char>)
    requires
        sign_split(s).0 == sign_split(t).0,
        digit_pairs(sign_split(s).1) == digit_pairs(sign_split(t).1),
    ensures
        seximal_words(s) == seximal_words(t),
{
}

/// A zero put in front of the digits leaves the digit pairs, and so the spoken
/// form, as they were.
pub proof fn lemma_leading_zero_digit(b: Seq<char>)
    requires
        b.len() > 0,
    ensures
        digit_pairs(seq!['0'] + b) == digit_pairs(b),
{
    let z = seq!['0'] + b;
    assert(all_seximal(z) <==> all_seximal(b)) by {
        if all_seximal(b) {
            assert forall|k: int| 0 <= k < z.len() implies is_seximal_char(#[trigger] z[k]) by {
                if k > 0 {
                    assert(z[k] == b[k - 1]);
                }
            }
        }
        if all_seximal(z) {
            assert forall|k: int| 0 <= k < b.len() implies is_seximal_char(#[trigger] b[k]) by {
                assert(z[k + 1] == b[k]);
            }
        }
    }
    if b.len() % 2 == 1 {
        assert(padded_to_pairs(z) =~= padded_to_pairs(b));
        assert(raw_pairs(z) =~= raw_pairs(b));
    } else {
        let zero_pair = (Digit::Zero, Digit::Zero);
        assert(char_digit('0') == Digit::Zero);
        assert(raw_pairs(z) =~= seq![zero_pair] + raw_pairs(b));
        assert(raw_pairs(z).drop_first() =~= raw_pairs(b));
    }
}

} // verus!
