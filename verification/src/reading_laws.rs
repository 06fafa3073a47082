//! How texts, numbers and marks are read, and how reading undoes writing.

use vstd::prelude::*;
use crate::fwmark::{fwmark_message, fwmark_value, mark_reading};
use crate::number::{
    decimal, digits_value, hexadecimal, hexadecimal_8, numeral_value, IntError, Radix,
};
use crate::text::{
    begins_with, contains, first_close, has_phrase, is_close, is_white_space, last_occurrence,
    leading, lemma_first_close, lemma_last_occurrence, lemma_leading, lemma_leading_unique,
    lemma_trailing_unique, lines_of, occurs_at, other_than, phrase_at, solid, token_length,
    tokens_of, trailing, trimmed, trimmed_start, white, words_of,
};

verus! {

// ---- white space ----

/// White space is what Unicode says it is; of ASCII that is the space and the controls from the
/// tabulator to the carriage return.
pub proof fn white_space_is_known(c: char)
    ensures
        c as int <= 0x7f ==> (is_white_space(c) <==> c == ' ' || 9 <= c as int <= 13),
        c as int > 0x7f ==> (is_white_space(c) <==> {
            ||| c as int == 0x85 || c as int == 0xa0 || c as int == 0x1680
            ||| 0x2000 <= c as int <= 0x200a
            ||| c as int == 0x2028 || c as int == 0x2029 || c as int == 0x202f
            ||| c as int == 0x205f || c as int == 0x3000
        }),
{
}

/// All characters of the text are white space.
pub open spec fn is_blank(text: Seq<char>) -> bool {
    forall|i: int| 0 <= i < text.len() ==> is_white_space(#[trigger] text[i])
}

/// The text begins and ends with a character that is no white space.
pub open spec fn is_tight(text: Seq<char>) -> bool {
    text.len() > 0 && !is_white_space(text[0]) && !is_white_space(text.last())
}

/// Trimming takes off white space at both ends and nothing else.
pub proof fn trimming_takes_off_white_space(before: Seq<char>, text: Seq<char>, after: Seq<char>)
    requires
        is_blank(before),
        is_blank(after),
    ensures
        is_tight(text) ==> trimmed(before + text + after) == text,
        trimmed(before).len() == 0,
{
    lemma_blank_trims(before);
    if is_tight(text) {
        let all = before + text + after;
        let n = before.len();
        assert forall|i: int| 0 <= i < n implies white()(#[trigger] all[i]) by {
            assert(all[i] == before[i]);
        }
        assert(all[n as int] == text[0]);
        lemma_leading_unique(all, white(), n);
        let start = text + after;
        assert(trimmed_start(all) =~= start);
        assert forall|i: int| start.len() - after.len() <= i < start.len() implies white()(
            #[trigger] start[i],
        ) by {
            assert(start[i] == after[i - text.len()]);
        }
        assert(start[start.len() - after.len() - 1] == text.last());
        lemma_trailing_unique(start, white(), after.len());
        assert(trimmed(all) =~= text);
    }
}

/// Of white space, trimming leaves nothing.
proof fn lemma_blank_trims(text: Seq<char>)
    requires
        is_blank(text),
    ensures
        trimmed(text).len() == 0,
{
    assert forall|i: int| 0 <= i < text.len() implies white()(#[trigger] text[i]) by {}
    lemma_leading_unique(text, white(), text.len());
    assert(trimmed_start(text).len() == 0);
}

/// What trimming leaves is part of the text; it is empty, or begins and ends with a character that
/// is no white space, and all around it is white space.
pub proof fn trimming_leaves_the_middle(text: Seq<char>) -> (range: (int, int))
    ensures
        0 <= range.0 <= range.1 <= text.len(),
        trimmed(text) == text.subrange(range.0, range.1),
        is_blank(text.subrange(0, range.0)),
        is_blank(text.subrange(range.1, text.len() as int)),
        trimmed(text).len() == 0 || is_tight(trimmed(text)),
{
    let n = leading(text, white());
    lemma_leading(text, white());
    let start = trimmed_start(text);
    let m = lemma_trailing(start);
    let to = text.len() - m;
    assert(trimmed(text) =~= text.subrange(n as int, to));
    assert forall|i: int| 0 <= i < n implies is_white_space(
        #[trigger] text.subrange(0, n as int)[i],
    ) by {
        assert(white()(text[i]));
    }
    assert forall|i: int| 0 <= i < m implies is_white_space(
        #[trigger] text.subrange(to, text.len() as int)[i],
    ) by {
        assert(white()(start[start.len() - m + i]));
        assert(start[start.len() - m + i] == text[to + i]);
    }
    if trimmed(text).len() > 0 {
        assert(!white()(text[n as int]));
        assert(trimmed(text)[0] == text[n as int]);
        assert(!white()(start[start.len() - m - 1]));
        assert(trimmed(text).last() == start[start.len() - m - 1]);
    }
    (n as int, to)
}

/// What `trailing` measures, for white space.
proof fn lemma_trailing(text: Seq<char>) -> (m: nat)
    ensures
        m == trailing(text, white()),
        m <= text.len(),
        forall|i: int| text.len() - m <= i < text.len() ==> white()(#[trigger] text[i]),
        m < text.len() ==> !white()(text[text.len() - m - 1]),
    decreases text.len(),
{
    if text.len() == 0 || !white()(text.last()) {
        0
    } else {
        let m = lemma_trailing(text.drop_last());
        assert forall|i: int| text.len() - (m + 1) <= i < text.len() implies white()(
            #[trigger] text[i],
        ) by {
            if i < text.len() - 1 {
                assert(text.drop_last()[i] == text[i]);
            }
        }
        m + 1
    }
}

// ---- parts of texts ----

/// A text begins with its prefixes, contains what stands in it, and the last place of a part is
/// one behind which it does not stand again.
pub proof fn parts_are_found(before: Seq<char>, part: Seq<char>, after: Seq<char>)
    ensures
        begins_with(part + after, part),
        contains(before + part + after, part),
        begins_with(after, part) <==> part.is_prefix_of(after),
        match last_occurrence(before, part) {
            Some(at) => {
                &&& 0 <= at <= before.len() - part.len()
                &&& before.subrange(at, at + part.len()) == part
                &&& forall|later: int|
                    at < later <= before.len() - part.len() ==> #[trigger] before.subrange(
                        later,
                        later + part.len(),
                    ) != part
            },
            None => forall|at: int|
                0 <= at <= before.len() - part.len() ==> #[trigger] before.subrange(
                    at,
                    at + part.len(),
                ) != part,
        },
{
    let all = before + part + after;
    let n = before.len() as int;
    assert((part + after).subrange(0, part.len() as int) =~= part);
    assert(all.subrange(n, n + part.len()) =~= part);
    assert(occurs_at(all, part, n));
    lemma_last_occurrence(before, part);
    match last_occurrence(before, part) {
        Some(at) => {
            assert forall|later: int|
                at < later <= before.len() - part.len() implies #[trigger] before.subrange(
                later,
                later + part.len(),
            ) != part by {
                assert(!occurs_at(before, part, later));
            }
        },
        None => {
            assert forall|at: int|
                0 <= at <= before.len() - part.len() implies #[trigger] before.subrange(
                at,
                at + part.len(),
            ) != part by {
                assert(!occurs_at(before, part, at));
            }
        },
    }
}

/// The text holds no line feed.
pub open spec fn is_one_line(text: Seq<char>) -> bool {
    forall|i: int| 0 <= i < text.len() ==> #[trigger] text[i] != '\n'
}

/// Lines are read one after the other: each ends with a line feed, and a carriage return before it
/// is left out; what stands behind the last line feed is a line too, unless it is empty.
pub proof fn lines_come_one_by_one(line: Seq<char>, rest: Seq<char>)
    requires
        is_one_line(line),
    ensures
        lines_of(line + seq!['\n'] + rest) == seq![
            if line.len() > 0 && line.last() == '\r' {
                line.drop_last()
            } else {
                line
            },
        ] + lines_of(rest),
        line.len() > 0 ==> lines_of(line) == seq![line],
        line.len() == 0 ==> lines_of(line).len() == 0,
{
    let all = line + seq!['\n'] + rest;
    let n = line.len();
    let keep = other_than('\n');
    assert forall|i: int| 0 <= i < n implies keep(#[trigger] all[i]) by {
        assert(all[i] == line[i]);
    }
    assert(all[n as int] == '\n');
    lemma_leading_unique(all, keep, n);
    assert(all.take(n as int) =~= line);
    assert(all.skip(n as int + 1) =~= rest);
    assert forall|i: int| 0 <= i < n implies keep(#[trigger] line[i]) by {}
    lemma_leading_unique(line, keep, n);
}

/// No character of the text is white space, and there is one.
pub open spec fn is_word(text: Seq<char>) -> bool {
    text.len() > 0 && forall|i: int| 0 <= i < text.len() ==> !is_white_space(#[trigger] text[i])
}

/// White space before a text changes neither its words nor its tokens.
proof fn lemma_behind_blank(before: Seq<char>, text: Seq<char>)
    requires
        is_blank(before),
    ensures
        trimmed_start(before + text) == trimmed_start(text),
        words_of(before + text) == words_of(text),
        tokens_of(before + text) == tokens_of(text),
{
    let all = before + text;
    let n = leading(text, white());
    lemma_leading(text, white());
    assert forall|i: int| 0 <= i < before.len() + n implies white()(#[trigger] all[i]) by {
        if i < before.len() {
            assert(all[i] == before[i]);
        } else {
            assert(all[i] == text[i - before.len()]);
        }
    }
    if n < text.len() {
        assert(all[(before.len() + n) as int] == text[n as int]);
    }
    lemma_leading_unique(all, white(), before.len() + n);
    assert(trimmed_start(all) =~= trimmed_start(text));
}

/// Words are read one after the other: white space before a word does not count, and the word ends
/// where white space follows it, or with the text.
pub proof fn words_come_one_by_one(before: Seq<char>, word: Seq<char>, rest: Seq<char>)
    requires
        is_blank(before),
        is_word(word),
        rest.len() > 0 ==> is_white_space(rest[0]),
    ensures
        words_of(before + word + rest) == seq![word] + words_of(rest),
        words_of(before).len() == 0,
{
    let text = word + rest;
    assert(before + word + rest =~= before + text);
    lemma_behind_blank(before, text);
    lemma_behind_blank(before, Seq::empty());
    assert(before + Seq::<char>::empty() =~= before);
    assert(text[0] == word[0]);
    lemma_leading_unique(text, white(), 0);
    assert(trimmed_start(text) =~= text);
    assert forall|i: int| 0 <= i < word.len() implies solid()(#[trigger] text[i]) by {
        assert(text[i] == word[i]);
    }
    if rest.len() > 0 {
        assert(text[word.len() as int] == rest[0]);
    }
    lemma_leading_unique(text, solid(), word.len());
    assert(text.take(word.len() as int) =~= word);
    assert(text.skip(word.len() as int) =~= rest);
}

/// A quotation mark opens the text, another ends it, and none between them has white space behind
/// it.
pub open spec fn is_quotation(text: Seq<char>) -> bool {
    &&& text.len() >= 2
    &&& text[0] == '"' && text.last() == '"'
    &&& forall|i: int|
        1 <= i < text.len() - 1 && #[trigger] text[i] == '"' ==> !is_white_space(text[i + 1])
}

/// Tokens are read one after the other, as words are, but that a quotation is one token whatever
/// white space it holds.
pub proof fn tokens_come_one_by_one(before: Seq<char>, token: Seq<char>, rest: Seq<char>)
    requires
        is_blank(before),
        is_quotation(token) || (is_word(token) && token[0] != '"'),
        rest.len() > 0 ==> is_white_space(rest[0]),
    ensures
        tokens_of(before + token + rest) == seq![token] + tokens_of(rest),
        tokens_of(before).len() == 0,
{
    let text = token + rest;
    assert(before + token + rest =~= before + text);
    lemma_behind_blank(before, text);
    lemma_behind_blank(before, Seq::empty());
    assert(before + Seq::<char>::empty() =~= before);
    assert(text[0] == token[0]);
    lemma_leading_unique(text, white(), 0);
    assert(trimmed_start(text) =~= text);
    lemma_first_close(text, 1);
    let last = token.len() - 1;
    if token[0] == '"' {
        assert(is_close(text, last)) by {
            assert(text[last] == token[last]);
            if rest.len() > 0 {
                assert(text[last + 1] == rest[0]);
            }
        }
        let at = first_close(text, 1)->0;
        if at < last {
            assert(token[at] == text[at] && token[at + 1] == text[at + 1]);
        }
        assert(at == last);
    } else {
        assert forall|i: int| 0 <= i < token.len() implies solid()(#[trigger] text[i]) by {
            assert(text[i] == token[i]);
        }
        if rest.len() > 0 {
            assert(text[token.len() as int] == rest[0]);
        }
        lemma_leading_unique(text, solid(), token.len());
    }
    assert(token_length(text) == token.len());
    assert(text.take(token.len() as int) =~= token);
    assert(text.skip(token.len() as int) =~= rest);
}

/// A phrase is found exactly where its words follow one another.
pub proof fn phrases_are_runs_of_words(words: Seq<Seq<char>>, phrase: Seq<Seq<char>>)
    ensures
        has_phrase(words, phrase) <==> exists|at: int|
            0 <= at <= words.len() - phrase.len() && #[trigger] words.subrange(
                at,
                at + phrase.len(),
            ) == phrase,
{
    if has_phrase(words, phrase) {
        let at = choose|at: int| phrase_at(words, phrase, at);
        assert(words.subrange(at, at + phrase.len()) =~= phrase);
    }
    if exists|at: int|
        0 <= at <= words.len() - phrase.len() && #[trigger] words.subrange(at, at + phrase.len())
            == phrase {
        let at = choose|at: int|
            0 <= at <= words.len() - phrase.len() && #[trigger] words.subrange(
                at,
                at + phrase.len(),
            ) == phrase;
        assert forall|i: int| 0 <= i < phrase.len() implies words[at + i] == #[trigger] phrase[i] by {
            assert(words.subrange(at, at + phrase.len())[i] == words[at + i]);
        }
        assert(phrase_at(words, phrase, at));
    }
}

// ---- numbers ----

/// The value that a character has as a digit, if it is one: of the base ten, and with letters of
/// either case of the base sixteen.
pub open spec fn worth(c: char, radix: Radix) -> Option<int> {
    if 48 <= c as int <= 57 {
        Some(c as int - 48)
    } else if radix is Sixteen && 97 <= c as int <= 102 {
        Some(c as int - 87)
    } else if radix is Sixteen && 65 <= c as int <= 70 {
        Some(c as int - 55)
    } else {
        None
    }
}

/// What one more digit does to a number: it counts, and what stands before it counts ten times or
/// sixteen times as much. The first character that is no digit, or the first digit with which the
/// number gets too large, decides the error.
pub proof fn digits_count(digits: Seq<char>, c: char, radix: Radix, max: nat)
    ensures
        digits_value(Seq::empty(), radix, max) == Ok::<nat, IntError>(0),
        match digits_value(digits, radix, max) {
            Err(error) => digits_value(digits.push(c), radix, max) == Err::<nat, IntError>(error),
            Ok(high) => {
                let base: int = if radix is Ten {
                    10
                } else {
                    16
                };
                match worth(c, radix) {
                    None => digits_value(digits.push(c), radix, max) == Err::<nat, IntError>(
                        IntError::InvalidDigit,
                    ),
                    Some(low) => if high * base + low <= max {
                        digits_value(digits.push(c), radix, max) == Ok::<nat, IntError>(
                            (high * base + low) as nat,
                        )
                    } else {
                        digits_value(digits.push(c), radix, max) == Err::<nat, IntError>(
                            IntError::PosOverflow,
                        )
                    },
                }
            },
        },
{
    assert(digits.push(c).drop_last() =~= digits);
}

/// A plus sign before a number does not change it; alone it is no number, and neither is nothing.
pub proof fn signs_do_not_count(text: Seq<char>, radix: Radix, max: nat)
    ensures
        numeral_value(Seq::empty(), radix, max) == Err::<nat, IntError>(IntError::Empty),
        numeral_value(seq!['+'], radix, max) == Err::<nat, IntError>(IntError::InvalidDigit),
        text.len() > 0 ==> numeral_value(seq!['+'] + text, radix, max) == digits_value(
            text,
            radix,
            max,
        ),
        text.len() > 0 && text[0] != '+' ==> numeral_value(text, radix, max) == digits_value(
            text,
            radix,
            max,
        ),
{
    let signed = seq!['+'] + text;
    if text.len() > 0 {
        assert(signed.len() > 1);
        assert(signed.skip(1) =~= text);
    }
}

/// How numbers are written: the last digit counts what is over the tens or sixteens, and what
/// stands before it is how many there are of them. Eight digits are reached with zeros.
pub proof fn numbers_are_written_in_digits(n: nat)
    ensures
        decimal(n).last() as int == 48 + n % 10,
        n < 10 ==> decimal(n).len() == 1,
        n >= 10 ==> decimal(n).drop_last() == decimal(n / 10),
        hexadecimal(n).last() as int == (if n % 16 < 10 {
            48 + n % 16
        } else {
            87 + n % 16
        }),
        n < 16 ==> hexadecimal(n).len() == 1,
        n >= 16 ==> hexadecimal(n).drop_last() == hexadecimal(n / 16),
        n <= u32::MAX ==> hexadecimal_8(n).len() == 8,
        hexadecimal_8(n).skip(hexadecimal_8(n).len() - hexadecimal(n).len()) == hexadecimal(n),
        forall|i: int|
            0 <= i < hexadecimal_8(n).len() - hexadecimal(n).len() ==> #[trigger] hexadecimal_8(
                n,
            )[i] == '0',
{
    if n >= 10 {
        assert(decimal(n).drop_last() =~= decimal(n / 10));
    }
    if n >= 16 {
        assert(hexadecimal(n).drop_last() =~= hexadecimal(n / 16));
    }
    assert(hexadecimal_8(n).skip(hexadecimal_8(n).len() - hexadecimal(n).len())
        =~= hexadecimal(n));
    if n <= u32::MAX {
        reveal_with_fuel(hexadecimal, 9);
    }
}

// ---- marks ----

/// White space around a mark does not change it; behind `0x` or `0X` it is read in base sixteen,
/// else in base ten. No mark has more than 32 bits.
pub proof fn marks_are_read(before: Seq<char>, text: Seq<char>, after: Seq<char>)
    requires
        is_blank(before),
        is_blank(after),
        is_tight(text),
    ensures
        fwmark_value(before + text + after) == fwmark_value(text),
        text.len() >= 2 && text[0] == '0' && (text[1] == 'x' || text[1] == 'X') ==> fwmark_value(
            text,
        ) == numeral_value(text.skip(2), Radix::Sixteen, 0xffff_ffff),
        !(text.len() >= 2 && text[0] == '0' && (text[1] == 'x' || text[1] == 'X')) ==> fwmark_value(
            text,
        ) == numeral_value(text, Radix::Ten, 0xffff_ffff),
        fwmark_value(before) == Err::<nat, IntError>(IntError::Empty),
{
    let none = Seq::<char>::empty();
    trimming_takes_off_white_space(before, text, after);
    trimming_takes_off_white_space(none, text, none);
    assert(none + text + none =~= text);
    reveal_strlit("0x");
    reveal_strlit("0X");
    assert(begins_with(text, "0x"@) <==> text.len() >= 2 && text[0] == '0' && text[1] == 'x') by {
        if text.len() >= 2 {
            let start = text.subrange(0, 2);
            assert(start[0] == text[0] && start[1] == text[1]);
            if text[0] == '0' && text[1] == 'x' {
                assert(start =~= "0x"@);
            }
        }
    }
    assert(begins_with(text, "0X"@) <==> text.len() >= 2 && text[0] == '0' && text[1] == 'X') by {
        if text.len() >= 2 {
            let start = text.subrange(0, 2);
            assert(start[0] == text[0] && start[1] == text[1]);
            if text[0] == '0' && text[1] == 'X' {
                assert(start =~= "0X"@);
            }
        }
    }
}

/// White space around a text that is to be a mark changes neither the mark nor what is said of the
/// text if it is none, and in that the text is shown without the white space.
pub proof fn white_space_around_marks_is_not_shown(
    before: Seq<char>,
    text: Seq<char>,
    after: Seq<char>,
)
    requires
        is_blank(before),
        is_blank(after),
        is_tight(text),
    ensures
        mark_reading(before + text + after) == mark_reading(text),
        match mark_reading(text) {
            Ok(mark) => fwmark_value(text) == Ok::<nat, IntError>(mark),
            Err(message) => fwmark_value(text) is Err && message == fwmark_message(
                text,
                fwmark_value(text)->Err_0,
            ),
        },
{
    let none = Seq::<char>::empty();
    marks_are_read(before, text, after);
    trimming_takes_off_white_space(before, text, after);
    trimming_takes_off_white_space(none, text, none);
    assert(none + text + none =~= text);
}

/// A mark that is read has at most 32 bits.
pub proof fn marks_have_32_bits(text: Seq<char>)
    ensures
        fwmark_value(text) matches Ok(mark) ==> mark <= 0xffff_ffff,
{
    let mark = trimmed(text);
    lemma_value_is_bounded(mark, Radix::Ten, u32::MAX as nat);
    lemma_value_is_bounded(mark.skip(1), Radix::Ten, u32::MAX as nat);
    lemma_value_is_bounded(mark.skip(2), Radix::Sixteen, u32::MAX as nat);
    lemma_value_is_bounded(mark.skip(2).skip(1), Radix::Sixteen, u32::MAX as nat);
}

/// What is said of a text that is no mark shows the text in quotation marks and ends with the
/// reason.
pub proof fn bad_marks_are_reported(mark: Seq<char>, error: IntError)
    ensures
        ("invalid fwmark \""@ + mark + "\": must be a valid 32-bit unsigned integer"@).is_prefix_of(
            fwmark_message(mark, error),
        ),
        (match error {
            IntError::Empty => ": cannot parse integer from empty string"@,
            IntError::InvalidDigit => ": invalid digit found in string"@,
            IntError::PosOverflow => ": number too large to fit in target type"@,
        }).is_suffix_of(fwmark_message(mark, error)),
{
    reveal_strlit("\": must be a valid 32-bit unsigned integer");
    reveal_strlit("\": must be a valid 32-bit unsigned integer (decimal or 0x-prefixed hex): ");
    reveal_strlit(": cannot parse integer from empty string");
    reveal_strlit("cannot parse integer from empty string");
    reveal_strlit(": invalid digit found in string");
    reveal_strlit("invalid digit found in string");
    reveal_strlit(": number too large to fit in target type");
    reveal_strlit("number too large to fit in target type");
    let message = fwmark_message(mark, error);
    let start = "invalid fwmark \""@ + mark + "\": must be a valid 32-bit unsigned integer"@;
    assert(message.subrange(0, start.len() as int) =~= start);
    let end = match error {
        IntError::Empty => ": cannot parse integer from empty string"@,
        IntError::InvalidDigit => ": invalid digit found in string"@,
        IntError::PosOverflow => ": number too large to fit in target type"@,
    };
    assert(message.subrange(message.len() - end.len(), message.len() as int) =~= end);
}

/// A value is at most as large as it may be.
proof fn lemma_value_is_bounded(digits: Seq<char>, radix: Radix, max: nat)
    ensures
        digits_value(digits, radix, max) matches Ok(value) ==> value <= max,
{
}

} // verus!
