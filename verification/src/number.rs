//! Unsigned integers as text: numerals in base ten and sixteen, and their values.

use vstd::prelude::*;
use vstd::string::*;
use crate::text::chars_of;

verus! {

/// Why a text is not the numeral of an integer of the wanted size.
#[derive(Clone, Copy, Debug, PartialEq, Eq, Structural)]
pub enum IntError {
    /// There is nothing to read.
    Empty,
    /// A character is not a digit.
    InvalidDigit,
    /// The value is too large.
    PosOverflow,
}

impl IntError {
    /// The sentence that describes the error.
    pub open spec fn description(self) -> Seq<char> {
        match self {
            IntError::Empty => "cannot parse integer from empty string"@,
            IntError::InvalidDigit => "invalid digit found in string"@,
            IntError::PosOverflow => "number too large to fit in target type"@,
        }
    }

    /// Returns the sentence that describes the error.
    pub fn text(&self) -> (text: &'static str)
        ensures
            text@ == self.description(),
    {
        match self {
            IntError::Empty => "cannot parse integer from empty string",
            IntError::InvalidDigit => "invalid digit found in string",
            IntError::PosOverflow => "number too large to fit in target type",
        }
    }
}

/// The base of a numeral.
#[derive(Clone, Copy, Debug, PartialEq, Eq, Structural)]
pub enum Radix {
    Ten,
    Sixteen,
}

impl Radix {
    /// The base as a number.
    pub open spec fn base(self) -> nat {
        match self {
            Radix::Ten => 10,
            Radix::Sixteen => 16,
        }
    }
}

/// The value of the digit `c`, or nothing if it is no digit in base `radix`.
pub open spec fn digit_value(c: char, radix: Radix) -> Option<nat> {
    if '0' <= c <= '9' {
        Some((c as int - '0' as int) as nat)
    } else if radix is Sixteen && 'a' <= c <= 'f' {
        Some((c as int - 'a' as int + 10) as nat)
    } else if radix is Sixteen && 'A' <= c <= 'F' {
        Some((c as int - 'A' as int + 10) as nat)
    } else {
        None
    }
}

/// The value of a sequence of digits, up to `max`; of several errors the leftmost counts.
pub open spec fn digits_value(digits: Seq<char>, radix: Radix, max: nat) -> Result<nat, IntError>
    decreases digits.len(),
{
    if digits.len() == 0 {
        Ok(0)
    } else {
        match digits_value(digits.drop_last(), radix, max) {
            Err(e) => Err(e),
            Ok(high) => match digit_value(digits.last(), radix) {
                None => Err(IntError::InvalidDigit),
                Some(low) => {
                    if high * radix.base() + low > max {
                        Err(IntError::PosOverflow)
                    } else {
                        Ok(high * radix.base() + low)
                    }
                },
            },
        }
    }
}

/// The value of a numeral: digits, with a plus sign before them or none.
pub open spec fn numeral_value(text: Seq<char>, radix: Radix, max: nat) -> Result<nat, IntError> {
    if text.len() == 0 {
        Err(IntError::Empty)
    } else if text == seq!['+'] {
        Err(IntError::InvalidDigit)
    } else if text[0] == '+' {
        digits_value(text.skip(1), radix, max)
    } else {
        digits_value(text, radix, max)
    }
}

/// The character for the digit of value `d`.
pub open spec fn digit_char(d: nat) -> char {
    if d < 10 {
        ('0' as int + d) as char
    } else {
        ('a' as int + d - 10) as char
    }
}

/// The shortest numeral for `n` in base ten.
pub open spec fn decimal(n: nat) -> Seq<char>
    decreases n,
{
    if n < 10 {
        seq![digit_char(n)]
    } else {
        decimal(n / 10).push(digit_char(n % 10))
    }
}

/// The shortest numeral for `n` in base sixteen, with lower-case letters.
pub open spec fn hexadecimal(n: nat) -> Seq<char>
    decreases n,
{
    if n < 16 {
        seq![digit_char(n)]
    } else {
        hexadecimal(n / 16).push(digit_char(n % 16))
    }
}

/// The numeral for `n` in base sixteen, filled up with zeros to eight digits.
pub open spec fn hexadecimal_8(n: nat) -> Seq<char> {
    Seq::new((8 - hexadecimal(n).len()) as nat, |i: int| '0') + hexadecimal(n)
}

/// The value of the digit `c`.
fn read_digit(c: char, radix: Radix) -> (value: Option<u64>)
    ensures
        match value {
            Some(v) => digit_value(c, radix) == Some(v as nat) && v < radix.base(),
            None => digit_value(c, radix) is None,
        },
{
    let hex = match radix {
        Radix::Ten => false,
        Radix::Sixteen => true,
    };
    if '0' <= c && c <= '9' {
        Some(c as u64 - '0' as u64)
    } else if hex && 'a' <= c && c <= 'f' {
        Some(c as u64 - 'a' as u64 + 10)
    } else if hex && 'A' <= c && c <= 'F' {
        Some(c as u64 - 'A' as u64 + 10)
    } else {
        None
    }
}

/// An error in a prefix of a sequence of digits is the error of the whole.
pub proof fn lemma_prefix_error(digits: Seq<char>, n: int, radix: Radix, max: nat)
    requires
        0 <= n <= digits.len(),
        digits_value(digits.take(n), radix, max) is Err,
    ensures
        digits_value(digits, radix, max) == digits_value(digits.take(n), radix, max),
    decreases digits.len(),
{
    if n == digits.len() {
        assert(digits.take(n) == digits);
    } else {
        assert(digits.drop_last().take(n) == digits.take(n));
        lemma_prefix_error(digits.drop_last(), n, radix, max);
    }
}

/// Reads a numeral whose value is at most `max`.
pub fn parse_number(text: &str, radix: Radix, max: u64) -> (value: Result<u64, IntError>)
    ensures
        match value {
            Ok(v) => numeral_value(text@, radix, max as nat) == Ok::<nat, IntError>(v as nat)
                && v <= max,
            Err(e) => numeral_value(text@, radix, max as nat) == Err::<nat, IntError>(e),
        },
{
    let chars = chars_of(text);
    if chars.len() == 0 {
        return Err(IntError::Empty);
    }
    let mut start: usize = 0;
    if chars[0] == '+' {
        if chars.len() == 1 {
            assert(text@ == seq!['+']);
            return Err(IntError::InvalidDigit);
        }
        start = 1;
    }
    let ghost digits = text@.skip(start as int);
    assert(start == 0 ==> digits == text@);
    assert(numeral_value(text@, radix, max as nat) == digits_value(digits, radix, max as nat));
    let base: u128 = match radix {
        Radix::Ten => 10,
        Radix::Sixteen => 16,
    };
    let mut value: u64 = 0;
    let mut i: usize = start;
    while i < chars.len()
        invariant
            chars@ == text@,
            start <= i <= text@.len(),
            digits == text@.skip(start as int),
            base == radix.base(),
            value <= max,
            numeral_value(text@, radix, max as nat) == digits_value(digits, radix, max as nat),
            digits_value(digits.take(i - start), radix, max as nat) == Ok::<nat, IntError>(
                value as nat,
            ),
        decreases text@.len() - i,
    {
        proof {
            let next = digits.take(i - start + 1);
            assert(next.drop_last() == digits.take(i - start));
            assert(next.last() == text@[i as int]);
        }
        match read_digit(chars[i], radix) {
            None => {
                proof {
                    lemma_prefix_error(digits, i - start + 1, radix, max as nat);
                }
                return Err(IntError::InvalidDigit);
            },
            Some(low) => {
                assert(value as u128 * base <= u64::MAX * 16) by (nonlinear_arith)
                    requires
                        value <= u64::MAX,
                        base <= 16,
                ;
                let wide: u128 = value as u128 * base + low as u128;
                if wide > max as u128 {
                    proof {
                        lemma_prefix_error(digits, i - start + 1, radix, max as nat);
                    }
                    return Err(IntError::PosOverflow);
                }
                value = wide as u64;
            },
        }
        i += 1;
    }
    assert(digits.take(i - start) == digits);
    Ok(value)
}

/// The digit of value `d`, as a text of one character.
fn digit_text(d: u64) -> (text: &'static str)
    requires
        d < 16,
    ensures
        text@ == seq![digit_char(d as nat)],
{
    let all = "0123456789abcdef";
    proof {
        reveal_strlit("0123456789abcdef");
    }
    let text = all.substring_char(d as usize, d as usize + 1);
    assert(text@ =~= seq![digit_char(d as nat)]);
    text
}

/// Writes `n` in base ten.
pub fn decimal_text(n: u64) -> (text: String)
    ensures
        text@ == decimal(n as nat),
    decreases n,
{
    if n < 10 {
        digit_text(n).to_owned()
    } else {
        let mut text = decimal_text(n / 10);
        text.append(digit_text(n % 10));
        assert(text@ =~= decimal(n as nat));
        text
    }
}

/// Writes `n` in base sixteen.
pub fn hexadecimal_text(n: u64) -> (text: String)
    ensures
        text@ == hexadecimal(n as nat),
    decreases n,
{
    if n < 16 {
        digit_text(n).to_owned()
    } else {
        let mut text = hexadecimal_text(n / 16);
        text.append(digit_text(n % 16));
        assert(text@ =~= hexadecimal(n as nat));
        text
    }
}

/// A number below `2^32` has at most eight digits in base sixteen.
proof fn lemma_hexadecimal_width(n: nat)
    requires
        n <= u32::MAX,
    ensures
        0 < hexadecimal(n).len() <= 8,
{
    reveal_with_fuel(hexadecimal, 9);
}

/// Writes `n` in base sixteen, filled up with zeros to eight digits.
pub fn hexadecimal_8_text(n: u32) -> (text: String)
    ensures
        text@ == hexadecimal_8(n as nat),
{
    let digits = hexadecimal_text(n as u64);
    let width: usize = digits.as_str().unicode_len();
    proof {
        lemma_hexadecimal_width(n as nat);
        reveal_strlit("00000000");
    }
    let mut text = "00000000".substring_char(0, 8 - width).to_owned();
    text.append(digits.as_str());
    assert(text@ =~= hexadecimal_8(n as nat));
    text
}

/// Reading a digit gives back the value that it was written for.
proof fn lemma_digit_round_trip(d: nat, radix: Radix)
    requires
        d < radix.base(),
    ensures
        digit_value(digit_char(d), radix) == Some(d),
        digit_char(d) != '+',
{
}

/// Reading the decimal numeral of a number gives the number back.
pub proof fn decimal_round_trip(n: nat, max: nat)
    requires
        n <= max,
    ensures
        numeral_value(decimal(n), Radix::Ten, max) == Ok::<nat, IntError>(n),
{
    lemma_decimal_digits(n, max);
}

/// What `decimal` writes, `digits_value` reads.
proof fn lemma_decimal_digits(n: nat, max: nat)
    requires
        n <= max,
    ensures
        decimal(n).len() > 0,
        decimal(n)[0] != '+',
        digits_value(decimal(n), Radix::Ten, max) == Ok::<nat, IntError>(n),
    decreases n,
{
    let text = decimal(n);
    if n < 10 {
        lemma_digit_round_trip(n, Radix::Ten);
        assert(text.drop_last() == Seq::<char>::empty());
        assert(digits_value(text.drop_last(), Radix::Ten, max) == Ok::<nat, IntError>(0));
    } else {
        lemma_digit_round_trip(n % 10, Radix::Ten);
        lemma_decimal_digits(n / 10, max);
        assert(text.drop_last() == decimal(n / 10));
        assert((n / 10) * Radix::Ten.base() == (n / 10) * 10);
    }
}

/// Reading the hexadecimal numeral of a number gives the number back.
pub proof fn hexadecimal_round_trip(n: nat, max: nat)
    requires
        n <= max,
    ensures
        numeral_value(hexadecimal(n), Radix::Sixteen, max) == Ok::<nat, IntError>(n),
{
    lemma_hexadecimal_digits(n, max);
}

/// What `hexadecimal` writes, `digits_value` reads.
proof fn lemma_hexadecimal_digits(n: nat, max: nat)
    requires
        n <= max,
    ensures
        hexadecimal(n).len() > 0,
        hexadecimal(n)[0] != '+',
        digits_value(hexadecimal(n), Radix::Sixteen, max) == Ok::<nat, IntError>(n),
    decreases n,
{
    let text = hexadecimal(n);
    if n < 16 {
        lemma_digit_round_trip(n, Radix::Sixteen);
        assert(text.drop_last() == Seq::<char>::empty());
        assert(digits_value(text.drop_last(), Radix::Sixteen, max) == Ok::<nat, IntError>(0));
    } else {
        lemma_digit_round_trip(n % 16, Radix::Sixteen);
        lemma_hexadecimal_digits(n / 16, max);
        assert(text.drop_last() == hexadecimal(n / 16));
        assert((n / 16) * Radix::Sixteen.base() == (n / 16) * 16);
    }
}

/// Decimal numerals of different numbers differ.
pub proof fn lemma_decimal_injective(a: nat, b: nat)
    requires
        decimal(a) == decimal(b),
    ensures
        a == b,
{
    let max = if a < b {
        b
    } else {
        a
    };
    decimal_round_trip(a, max);
    decimal_round_trip(b, max);
}

/// A decimal numeral is made of decimal digits.
pub proof fn lemma_decimal_chars(n: nat)
    ensures
        decimal(n).len() > 0,
        forall|i: int| 0 <= i < decimal(n).len() ==> '0' <= #[trigger] decimal(n)[i] <= '9',
    decreases n,
{
    if n >= 10 {
        lemma_decimal_chars(n / 10);
    }
}

/// A hexadecimal numeral is made of hexadecimal digits.
pub proof fn lemma_hexadecimal_chars(n: nat)
    ensures
        hexadecimal(n).len() > 0,
        forall|i: int|
            0 <= i < hexadecimal(n).len() ==> ('0' <= #[trigger] hexadecimal(n)[i] <= '9' || 'a'
                <= hexadecimal(n)[i] <= 'f'),
    decreases n,
{
    if n >= 16 {
        lemma_hexadecimal_chars(n / 16);
    }
}

} // verus!
