//! Netfilter marks as the user writes them.

use vstd::prelude::*;
use vstd::string::*;
use crate::number::{
    decimal, decimal_round_trip, digit_value, digits_value, hexadecimal, hexadecimal_8,
    hexadecimal_round_trip, lemma_decimal_chars, lemma_hexadecimal_chars, numeral_value,
    parse_number, IntError, Radix,
};
use crate::text::{begins_with, is_white_space, starts_with, trim, trimmed};

verus! {

/// The mark that `text` stands for: after trimming, a numeral in base sixteen behind `0x` or
/// `0X`, else a numeral in base ten, of at most 32 bits.
pub open spec fn fwmark_value(text: Seq<char>) -> Result<nat, IntError> {
    let mark = trimmed(text);
    if begins_with(mark, "0x"@) || begins_with(mark, "0X"@) {
        numeral_value(mark.skip(2), Radix::Sixteen, u32::MAX as nat)
    } else {
        numeral_value(mark, Radix::Ten, u32::MAX as nat)
    }
}

/// What is said of a text that is no mark.
pub open spec fn fwmark_message(mark: Seq<char>, error: IntError) -> Seq<char> {
    "invalid fwmark \""@ + mark
        + "\": must be a valid 32-bit unsigned integer (decimal or 0x-prefixed hex): "@
        + error.description()
}

/// What a text is read as: the mark, or what is said of it if it is none.
pub open spec fn mark_reading(text: Seq<char>) -> Result<nat, Seq<char>> {
    match fwmark_value(text) {
        Ok(mark) => Ok(mark),
        Err(error) => Err(fwmark_message(trimmed(text), error)),
    }
}

/// Parses a netfilter fwmark string in either decimal or hex (with `0x` or `0X` prefix).
pub fn parse_fwmark(s: &str) -> (mark: Result<u32, String>)
    ensures
        match mark {
            Ok(value) => fwmark_value(s@) == Ok::<nat, IntError>(value as nat),
            Err(message) => fwmark_value(s@) is Err && message@ == fwmark_message(
                trimmed(s@),
                fwmark_value(s@)->Err_0,
            ),
        },
        match mark {
            Ok(value) => mark_reading(s@) == Ok::<nat, Seq<char>>(value as nat),
            Err(message) => mark_reading(s@) == Err::<nat, Seq<char>>(message@),
        },
{
    let s = trim(s);
    let value = if starts_with(s, "0x") || starts_with(s, "0X") {
        proof {
            reveal_strlit("0x");
            reveal_strlit("0X");
        }
        let hex = s.substring_char(2, s.unicode_len());
        assert(hex@ == s@.skip(2));
        parse_number(hex, Radix::Sixteen, u32::MAX as u64)
    } else {
        parse_number(s, Radix::Ten, u32::MAX as u64)
    };
    match value {
        Ok(value) => Ok(value as u32),
        Err(error) => {
            let mut message = "invalid fwmark \"".to_owned();
            message.append(s);
            message.append(
                "\": must be a valid 32-bit unsigned integer (decimal or 0x-prefixed hex): ",
            );
            message.append(error.text());
            Err(message)
        },
    }
}

/// A text that neither begins nor ends with white space is its own trimming.
proof fn lemma_trimmed_solid(text: Seq<char>)
    requires
        text.len() > 0,
        !is_white_space(text[0]),
        !is_white_space(text.last()),
    ensures
        trimmed(text) == text,
{
    assert(text.skip(0) == text);
    assert(text.take(text.len() as int) == text);
}

/// Zeros before the digits do not change the value.
proof fn lemma_leading_zeros(zeros: Seq<char>, digits: Seq<char>, radix: Radix, max: nat)
    requires
        forall|i: int| 0 <= i < zeros.len() ==> zeros[i] == '0',
    ensures
        digits_value(zeros + digits, radix, max) == digits_value(digits, radix, max),
    decreases digits.len(), zeros.len(),
{
    let all = zeros + digits;
    if digits.len() > 0 {
        assert(all.drop_last() == zeros + digits.drop_last());
        lemma_leading_zeros(zeros, digits.drop_last(), radix, max);
    } else if zeros.len() > 0 {
        assert(all.drop_last() == zeros.drop_last() + digits);
        assert(digit_value('0', radix) == Some(0nat));
        lemma_leading_zeros(zeros.drop_last(), digits, radix, max);
        assert(0 * radix.base() == 0);
    } else {
        assert(all == digits);
    }
}

/// A mark written in decimal is read back.
pub proof fn decimal_mark_round_trip(mark: u32)
    ensures
        fwmark_value(decimal(mark as nat)) == Ok::<nat, IntError>(mark as nat),
{
    let text = decimal(mark as nat);
    lemma_decimal_chars(mark as nat);
    lemma_trimmed_solid(text);
    reveal_strlit("0x");
    reveal_strlit("0X");
    if begins_with(text, "0x"@) {
        assert(text[1] == text.subrange(0, 2)[1]);
    }
    if begins_with(text, "0X"@) {
        assert(text[1] == text.subrange(0, 2)[1]);
    }
    decimal_round_trip(mark as nat, u32::MAX as nat);
}

/// A mark written in hexadecimal with the prefix `0x`, as rules are written, is read back.
pub proof fn hexadecimal_mark_round_trip(mark: u32)
    ensures
        fwmark_value("0x"@ + hexadecimal(mark as nat)) == Ok::<nat, IntError>(mark as nat),
{
    let digits = hexadecimal(mark as nat);
    let text = "0x"@ + digits;
    lemma_hexadecimal_chars(mark as nat);
    reveal_strlit("0x");
    assert(text.last() == digits.last());
    lemma_trimmed_solid(text);
    assert(text.subrange(0, 2) == "0x"@);
    assert(text.skip(2) == digits);
    hexadecimal_round_trip(mark as nat, u32::MAX as nat);
}

/// A mark written in hexadecimal with eight digits, as `nft` lists it, is read back.
pub proof fn listed_mark_round_trip(mark: u32)
    ensures
        fwmark_value("0x"@ + hexadecimal_8(mark as nat)) == Ok::<nat, IntError>(mark as nat),
{
    let digits = hexadecimal_8(mark as nat);
    let short = hexadecimal(mark as nat);
    let zeros = Seq::new((8 - short.len()) as nat, |i: int| '0');
    let text = "0x"@ + digits;
    lemma_hexadecimal_chars(mark as nat);
    hexadecimal_round_trip(mark as nat, u32::MAX as nat);
    reveal_strlit("0x");
    assert(text.last() == short.last());
    lemma_trimmed_solid(text);
    assert(text.subrange(0, 2) == "0x"@);
    assert(text.skip(2) == digits);
    lemma_leading_zeros(zeros, short, Radix::Sixteen, u32::MAX as nat);
    assert(short[0] != '+');
    assert(digits[0] != '+');
    assert(digits != seq!['+']);
}

} // verus!
