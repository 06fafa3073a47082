//! Text as a sequence of characters: searching, trimming and splitting.

use vstd::prelude::*;
use vstd::string::*;

verus! {

/// The length of the longest prefix of `text` whose characters all satisfy `f`.
pub open spec fn leading(text: Seq<char>, f: spec_fn(char) -> bool) -> nat
    decreases text.len(),
{
    if text.len() == 0 || !f(text[0]) {
        0
    } else {
        1 + leading(text.skip(1), f)
    }
}

/// The length of the longest suffix of `text` whose characters all satisfy `f`.
pub open spec fn trailing(text: Seq<char>, f: spec_fn(char) -> bool) -> nat
    decreases text.len(),
{
    if text.len() == 0 || !f(text.last()) {
        0
    } else {
        1 + trailing(text.drop_last(), f)
    }
}

/// `leading` is the one length that ends before the first character outside `f`.
pub proof fn lemma_leading_unique(text: Seq<char>, f: spec_fn(char) -> bool, n: nat)
    requires
        n <= text.len(),
        forall|i: int| 0 <= i < n ==> f(#[trigger] text[i]),
        n == text.len() || !f(text[n as int]),
    ensures
        leading(text, f) == n,
    decreases text.len(),
{
    if n > 0 {
        let rest = text.skip(1);
        assert forall|i: int| 0 <= i < n - 1 implies f(#[trigger] rest[i]) by {
            assert(rest[i] == text[i + 1]);
        }
        assert(f(text[0]));
        lemma_leading_unique(rest, f, (n - 1) as nat);
    }
}

/// What `leading` measures.
pub proof fn lemma_leading(text: Seq<char>, f: spec_fn(char) -> bool)
    ensures
        leading(text, f) <= text.len(),
        forall|i: int| 0 <= i < leading(text, f) ==> f(#[trigger] text[i]),
        leading(text, f) < text.len() ==> !f(text[leading(text, f) as int]),
    decreases text.len(),
{
    if text.len() != 0 && f(text[0]) {
        let rest = text.skip(1);
        lemma_leading(rest, f);
        assert forall|i: int| 0 <= i < leading(text, f) implies f(#[trigger] text[i]) by {
            if i > 0 {
                assert(text[i] == rest[i - 1]);
            }
        }
    }
}

/// `trailing` is the one length that starts after the last character outside `f`.
pub proof fn lemma_trailing_unique(text: Seq<char>, f: spec_fn(char) -> bool, n: nat)
    requires
        n <= text.len(),
        forall|i: int| text.len() - n <= i < text.len() ==> f(#[trigger] text[i]),
        n == text.len() || !f(text[text.len() - n - 1]),
    ensures
        trailing(text, f) == n,
    decreases text.len(),
{
    if n > 0 {
        let rest = text.drop_last();
        assert forall|i: int| rest.len() - (n - 1) <= i < rest.len() implies f(
            #[trigger] rest[i],
        ) by {
            assert(rest[i] == text[i]);
        }
        lemma_trailing_unique(rest, f, (n - 1) as nat);
    }
}

/// The characters that have the `White_Space` property of Unicode.
pub open spec fn is_white_space(c: char) -> bool {
    ||| '\u{9}' <= c <= '\u{d}'
    ||| c == '\u{20}'
    ||| c == '\u{85}'
    ||| c == '\u{a0}'
    ||| c == '\u{1680}'
    ||| '\u{2000}' <= c <= '\u{200a}'
    ||| c == '\u{2028}'
    ||| c == '\u{2029}'
    ||| c == '\u{202f}'
    ||| c == '\u{205f}'
    ||| c == '\u{3000}'
}

/// `is_white_space` as a function value.
pub open spec fn white() -> spec_fn(char) -> bool {
    |c: char| is_white_space(c)
}

/// The characters that are not white space, as a function value.
pub open spec fn solid() -> spec_fn(char) -> bool {
    |c: char| !is_white_space(c)
}

/// The characters other than `c`, as a function value.
pub open spec fn other_than(c: char) -> spec_fn(char) -> bool {
    |d: char| d != c
}

/// `text` without the white space at its start.
pub open spec fn trimmed_start(text: Seq<char>) -> Seq<char> {
    text.skip(leading(text, white()) as int)
}

/// `text` without the white space at its end.
pub open spec fn trimmed_end(text: Seq<char>) -> Seq<char> {
    text.take(text.len() - trailing(text, white()))
}

/// `text` without the white space at both ends.
pub open spec fn trimmed(text: Seq<char>) -> Seq<char> {
    trimmed_end(trimmed_start(text))
}

/// `part` stands in `text` at index `at`.
pub open spec fn occurs_at(text: Seq<char>, part: Seq<char>, at: int) -> bool {
    &&& 0 <= at
    &&& at + part.len() <= text.len()
    &&& text.subrange(at, at + part.len()) == part
}

/// `part` stands somewhere in `text`.
pub open spec fn contains(text: Seq<char>, part: Seq<char>) -> bool {
    exists|at: int| occurs_at(text, part, at)
}

/// `text` begins with `part`.
pub open spec fn begins_with(text: Seq<char>, part: Seq<char>) -> bool {
    occurs_at(text, part, 0)
}

/// `at` is the last index at which `part` stands in `text`.
pub open spec fn is_last_occurrence(text: Seq<char>, part: Seq<char>, at: int) -> bool {
    &&& occurs_at(text, part, at)
    &&& forall|later: int| at < later ==> !occurs_at(text, part, later)
}

/// The last index at which `part` stands in `text`.
pub open spec fn last_occurrence(text: Seq<char>, part: Seq<char>) -> Option<int> {
    if contains(text, part) {
        Some(choose|at: int| is_last_occurrence(text, part, at))
    } else {
        None
    }
}

/// What `last_occurrence` finds.
pub proof fn lemma_last_occurrence(text: Seq<char>, part: Seq<char>)
    ensures
        match last_occurrence(text, part) {
            Some(at) => is_last_occurrence(text, part, at),
            None => !contains(text, part),
        },
{
    if contains(text, part) {
        let at = choose|at: int| occurs_at(text, part, at);
        lemma_last_exists(text, part, at);
    }
}

/// If `part` stands in `text` at some index, it does at a last one.
proof fn lemma_last_exists(text: Seq<char>, part: Seq<char>, at: int)
    requires
        occurs_at(text, part, at),
    ensures
        exists|last: int| is_last_occurrence(text, part, last),
    decreases text.len() - at,
{
    if !is_last_occurrence(text, part, at) {
        let later = choose|later: int| at < later && occurs_at(text, part, later);
        lemma_last_exists(text, part, later);
    }
}

/// `line` without a carriage return at its end.
pub open spec fn without_return(line: Seq<char>) -> Seq<char> {
    if line.len() > 0 && line.last() == '\r' {
        line.drop_last()
    } else {
        line
    }
}

/// The lines of `text`: each ends with a line feed, which a carriage return may precede;
/// the last may end with the text.
pub open spec fn lines_of(text: Seq<char>) -> Seq<Seq<char>>
    decreases text.len(),
{
    let n = leading(text, other_than('\n'));
    if text.len() == 0 {
        seq![]
    } else if n >= text.len() {
        seq![text]
    } else {
        seq![without_return(text.take(n as int))] + lines_of(text.skip(n as int + 1))
    }
}

/// The words of `text`: the longest runs of characters without white space.
pub open spec fn words_of(text: Seq<char>) -> Seq<Seq<char>>
    decreases text.len(),
{
    let rest = trimmed_start(text);
    let n = leading(rest, solid());
    if rest.len() == 0 {
        seq![]
    } else {
        proof {
            lemma_word_progress(text);
        }
        seq![rest.take(n as int)] + words_of(rest.skip(n as int))
    }
}

/// The first word of a text that is not all white space is not empty.
pub proof fn lemma_word_progress(text: Seq<char>)
    ensures
        trimmed_start(text).len() <= text.len(),
        leading(trimmed_start(text), solid()) <= trimmed_start(text).len(),
        trimmed_start(text).len() > 0 ==> leading(trimmed_start(text), solid()) > 0,
{
    let rest = trimmed_start(text);
    lemma_leading(text, white());
    lemma_leading(rest, solid());
    if rest.len() > 0 {
        assert(rest[0] == text[leading(text, white()) as int]);
        assert(!white()(rest[0]));
        assert(solid()(rest[0]));
    }
}

/// The views of a sequence of strings.
pub open spec fn views(strings: Seq<&str>) -> Seq<Seq<char>> {
    strings.map_values(|s: &str| s@)
}

/// Copies the characters of `text`.
pub fn chars_of(text: &str) -> (chars: Vec<char>)
    ensures
        chars@ == text@,
{
    let mut chars: Vec<char> = Vec::new();
    for c in it: text.chars()
        invariant
            it.seq() == text@,
            chars@ == text@.take(it.index() as int),
    {
        chars.push(c);
    }
    chars
}

/// Whether the two texts hold the same characters.
pub fn same_text(a: &str, b: &str) -> (same: bool)
    ensures
        same == (a@ == b@),
{
    let left = chars_of(a);
    let right = chars_of(b);
    if left.len() != right.len() {
        return false;
    }
    for i in 0..left.len()
        invariant
            left.len() == right.len(),
            left@ == a@,
            right@ == b@,
            a@.take(i as int) == b@.take(i as int),
    {
        if left[i] != right[i] {
            return false;
        }
        assert(a@.take(i + 1) == a@.take(i as int).push(a@[i as int]));
        assert(b@.take(i + 1) == b@.take(i as int).push(b@[i as int]));
    }
    assert(a@.take(a@.len() as int) == a@);
    assert(b@.take(b@.len() as int) == b@);
    true
}

/// Whether `part` stands in `text` at index `at`.
fn stands_at(text: &Vec<char>, part: &Vec<char>, at: usize) -> (found: bool)
    requires
        at <= text@.len(),
    ensures
        found == occurs_at(text@, part@, at as int),
{
    if part.len() > text.len() - at {
        return false;
    }
    for i in 0..part.len()
        invariant
            at + part.len() <= text.len(),
            forall|j: int| 0 <= j < i ==> text@[at + j] == part@[j],
    {
        if text[at + i] != part[i] {
            assert(text@.subrange(at as int, at + part@.len())[i as int] != part@[i as int]);
            return false;
        }
    }
    assert(text@.subrange(at as int, at + part@.len()) =~= part@);
    true
}

/// Whether `text` begins with `part`.
pub fn starts_with(text: &str, part: &str) -> (found: bool)
    ensures
        found == begins_with(text@, part@),
{
    stands_at(&chars_of(text), &chars_of(part), 0)
}

/// The index of the last place at which `part` stands in `text`, counted in characters.
pub fn rfind(text: &str, part: &str) -> (found: Option<usize>)
    ensures
        match found {
            Some(at) => last_occurrence(text@, part@) == Some(at as int),
            None => last_occurrence(text@, part@) is None,
        },
{
    let chars = chars_of(text);
    let wanted = chars_of(part);
    let mut at: usize = chars.len();
    loop
        invariant
            chars@ == text@,
            wanted@ == part@,
            at <= text@.len(),
            forall|i: int| at < i ==> !occurs_at(text@, part@, i),
        decreases at,
    {
        if stands_at(&chars, &wanted, at) {
            assert(is_last_occurrence(text@, part@, at as int));
            let ghost chosen = last_occurrence(text@, part@)->0;
            assert(is_last_occurrence(text@, part@, chosen));
            return Some(at);
        }
        if at == 0 {
            return None;
        }
        at -= 1;
    }
}

/// Whether `c` is white space.
pub fn is_space(c: char) -> (white: bool)
    ensures
        white == is_white_space(c),
{
    ('\u{9}' <= c && c <= '\u{d}') || c == '\u{20}' || c == '\u{85}' || c == '\u{a0}' || c == '\u{1680}'
        || ('\u{2000}' <= c && c <= '\u{200a}') || c == '\u{2028}' || c == '\u{2029}' || c == '\u{202f}'
        || c == '\u{205f}' || c == '\u{3000}'
}

/// `text` without the white space at both ends.
pub fn trim(text: &str) -> (rest: &str)
    ensures
        rest@ == trimmed(text@),
{
    let chars = chars_of(text);
    let mut from: usize = 0;
    while from < chars.len() && is_space(chars[from])
        invariant
            chars@ == text@,
            from <= text@.len(),
            forall|i: int| 0 <= i < from ==> white()(#[trigger] text@[i]),
        decreases text@.len() - from,
    {
        from += 1;
    }
    let mut to: usize = chars.len();
    while from < to && is_space(chars[to - 1])
        invariant
            chars@ == text@,
            from <= to <= text@.len(),
            forall|i: int| to <= i < text@.len() ==> white()(#[trigger] text@[i]),
        decreases to,
    {
        to -= 1;
    }
    proof {
        let start = text@.skip(from as int);
        lemma_leading_unique(text@, white(), from as nat);
        assert(start == trimmed_start(text@));
        assert forall|i: int| to - from <= i < start.len() implies white()(#[trigger] start[i]) by {
            assert(start[i] == text@[from + i]);
        }
        lemma_trailing_unique(start, white(), (text@.len() - to) as nat);
        assert(text@.subrange(from as int, to as int) =~= trimmed(text@));
    }
    text.substring_char(from, to)
}

/// Splits `text` into its lines.
pub fn lines<'a>(text: &'a str) -> (pieces: Vec<&'a str>)
    ensures
        views(pieces@) == lines_of(text@),
{
    let chars = chars_of(text);
    let mut pieces: Vec<&'a str> = Vec::new();
    let mut start: usize = 0;
    assert(text@.skip(0) == text@);
    while start < chars.len()
        invariant
            chars@ == text@,
            start <= text@.len(),
            views(pieces@) + lines_of(text@.skip(start as int)) == lines_of(text@),
        decreases text@.len() - start,
    {
        let ghost rest = text@.skip(start as int);
        let ghost before = views(pieces@);
        let mut end: usize = start;
        while end < chars.len() && chars[end] != '\n'
            invariant
                chars@ == text@,
                start <= end <= text@.len(),
                rest == text@.skip(start as int),
                forall|i: int| 0 <= i < end - start ==> other_than('\n')(#[trigger] rest[i]),
            decreases text@.len() - end,
        {
            end += 1;
        }
        proof {
            lemma_leading_unique(rest, other_than('\n'), (end - start) as nat);
        }
        if end == chars.len() {
            let piece = text.substring_char(start, end);
            pieces.push(piece);
            proof {
                assert(piece@ == rest);
                assert(views(pieces@) == before.push(rest));
                assert(text@.skip(end as int).len() == 0);
                assert(lines_of(text@.skip(end as int)) == Seq::<Seq<char>>::empty());
                assert(before + seq![rest] == views(pieces@) + Seq::<Seq<char>>::empty());
            }
            start = end;
        } else {
            let stop: usize = if end > start && chars[end - 1] == '\r' {
                end - 1
            } else {
                end
            };
            let piece = text.substring_char(start, stop);
            pieces.push(piece);
            proof {
                let line = rest.take(end - start);
                assert(piece@ == without_return(line));
                assert(views(pieces@) == before.push(piece@));
                assert(rest.skip(end - start + 1) == text@.skip(end + 1));
                assert(before + (seq![piece@] + lines_of(text@.skip(end + 1))) == views(pieces@)
                    + lines_of(text@.skip(end + 1)));
            }
            start = end + 1;
        }
    }
    assert(text@.skip(start as int).len() == 0);
    assert(views(pieces@) + Seq::<Seq<char>>::empty() == views(pieces@));
    pieces
}

/// Splits `text` into its words.
pub fn words<'a>(text: &'a str) -> (pieces: Vec<&'a str>)
    ensures
        views(pieces@) == words_of(text@),
{
    let chars = chars_of(text);
    let mut pieces: Vec<&'a str> = Vec::new();
    let mut start: usize = 0;
    assert(text@.skip(0) == text@);
    loop
        invariant
            chars@ == text@,
            start <= text@.len(),
            views(pieces@) + words_of(text@.skip(start as int)) == words_of(text@),
        decreases text@.len() - start,
    {
        let ghost rest = text@.skip(start as int);
        let ghost before = views(pieces@);
        let mut from: usize = start;
        while from < chars.len() && is_space(chars[from])
            invariant
                chars@ == text@,
                start <= from <= text@.len(),
                rest == text@.skip(start as int),
                forall|i: int| 0 <= i < from - start ==> white()(#[trigger] rest[i]),
            decreases text@.len() - from,
        {
            from += 1;
        }
        proof {
            lemma_leading_unique(rest, white(), (from - start) as nat);
            assert(trimmed_start(rest) == text@.skip(from as int));
        }
        if from == chars.len() {
            assert(before + Seq::<Seq<char>>::empty() == before);
            return pieces;
        }
        let ghost word = text@.skip(from as int);
        let mut to: usize = from;
        while to < chars.len() && !is_space(chars[to])
            invariant
                chars@ == text@,
                from <= to <= text@.len(),
                word == text@.skip(from as int),
                forall|i: int| 0 <= i < to - from ==> solid()(#[trigger] word[i]),
            decreases text@.len() - to,
        {
            to += 1;
        }
        let piece = text.substring_char(from, to);
        pieces.push(piece);
        proof {
            lemma_leading_unique(word, solid(), (to - from) as nat);
            lemma_word_progress(rest);
            assert(piece@ == word.take(to - from));
            assert(word.skip(to - from) == text@.skip(to as int));
            assert(views(pieces@) == before.push(piece@));
            assert(before + (seq![piece@] + words_of(text@.skip(to as int))) == views(pieces@)
                + words_of(text@.skip(to as int)));
        }
        start = to;
    }
}

/// The words of `phrase` stand among the words at index `at`, one behind the other.
pub open spec fn phrase_at(words: Seq<Seq<char>>, phrase: Seq<Seq<char>>, at: int) -> bool {
    &&& 0 <= at
    &&& at + phrase.len() <= words.len()
    &&& forall|i: int| 0 <= i < phrase.len() ==> words[at + i] == #[trigger] phrase[i]
}

/// The words of `phrase` stand somewhere among the words, one behind the other.
pub open spec fn has_phrase(words: Seq<Seq<char>>, phrase: Seq<Seq<char>>) -> bool {
    exists|at: int| phrase_at(words, phrase, at)
}

/// Whether the words of `phrase` stand among the words at index `at`.
pub fn is_phrase_at(words: &Vec<&str>, phrase: &Vec<&str>, at: usize) -> (found: bool)
    requires
        at <= words@.len(),
    ensures
        found == phrase_at(views(words@), views(phrase@), at as int),
{
    if phrase.len() > words.len() - at {
        return false;
    }
    for i in 0..phrase.len()
        invariant
            at + phrase.len() <= words.len(),
            forall|j: int| 0 <= j < i ==> views(words@)[at + j] == #[trigger] views(phrase@)[j],
    {
        assert(views(words@)[at + i] == words@[at + i]@);
        assert(views(phrase@)[i as int] == phrase@[i as int]@);
        if !same_text(words[at + i], phrase[i]) {
            return false;
        }
    }
    true
}

/// Whether the words of `phrase` stand somewhere among the words.
pub fn contains_phrase(words: &Vec<&str>, phrase: &Vec<&str>) -> (found: bool)
    ensures
        found == has_phrase(views(words@), views(phrase@)),
{
    let mut at: usize = 0;
    loop
        invariant
            at <= words@.len(),
            forall|i: int| 0 <= i < at ==> !phrase_at(views(words@), views(phrase@), i),
        decreases words@.len() - at,
    {
        if is_phrase_at(words, phrase, at) {
            return true;
        }
        if at == words.len() {
            return false;
        }
        at += 1;
    }
}

/// Whether the word is among the words.
pub fn contains_word(words: &Vec<&str>, word: &str) -> (found: bool)
    ensures
        found == views(words@).contains(word@),
{
    for i in 0..words.len()
        invariant
            forall|j: int| 0 <= j < i ==> views(words@)[j] != word@,
    {
        assert(views(words@)[i as int] == words@[i as int]@);
        if same_text(words[i], word) {
            return true;
        }
    }
    false
}

/// No character of the text is white space.
pub open spec fn is_spaceless(text: Seq<char>) -> bool {
    forall|i: int| 0 <= i < text.len() ==> !is_white_space(#[trigger] text[i])
}

/// The words with a space between each two of them.
pub open spec fn spaced(words: Seq<Seq<char>>) -> Seq<char>
    decreases words.len(),
{
    if words.len() == 0 {
        seq![]
    } else if words.len() == 1 {
        words[0]
    } else {
        words[0] + seq![' '] + spaced(words.drop_first())
    }
}

/// A quotation mark that closes a quoted text stands at index `at`: white space or the end of the
/// text follows it.
pub open spec fn is_close(text: Seq<char>, at: int) -> bool {
    &&& 0 <= at < text.len()
    &&& text[at] == '"'
    &&& at + 1 < text.len() ==> is_white_space(text[at + 1])
}

/// The first index from `from` on at which a closing quotation mark stands.
pub open spec fn first_close(text: Seq<char>, from: int) -> Option<int>
    decreases text.len() - from,
{
    if from >= text.len() {
        None
    } else if is_close(text, from) {
        Some(from)
    } else {
        first_close(text, from + 1)
    }
}

/// The length of the token at the start of `text`: a quoted text with its quotation marks, which
/// may hold white space, else a word.
pub open spec fn token_length(text: Seq<char>) -> int {
    match first_close(text, 1) {
        Some(close) => if text[0] == '"' {
            close + 1
        } else {
            leading(text, solid()) as int
        },
        None => leading(text, solid()) as int,
    }
}

/// The tokens of `text`: its words, but for quoted texts, which are taken as a whole.
pub open spec fn tokens_of(text: Seq<char>) -> Seq<Seq<char>>
    decreases text.len(),
{
    let rest = trimmed_start(text);
    let n = token_length(rest);
    if rest.len() == 0 {
        seq![]
    } else {
        proof {
            lemma_token_progress(text);
        }
        seq![rest.take(n)] + tokens_of(rest.skip(n))
    }
}

/// What `first_close` finds.
pub proof fn lemma_first_close(text: Seq<char>, from: int)
    requires
        0 <= from,
    ensures
        match first_close(text, from) {
            Some(at) => from <= at && is_close(text, at) && forall|i: int|
                from <= i < at ==> !#[trigger] is_close(text, i),
            None => forall|i: int| from <= i ==> !#[trigger] is_close(text, i),
        },
    decreases text.len() - from,
{
    if from < text.len() && !is_close(text, from) {
        lemma_first_close(text, from + 1);
    }
}

/// The first token of a text that is not all white space is not empty.
pub proof fn lemma_token_progress(text: Seq<char>)
    ensures
        trimmed_start(text).len() <= text.len(),
        trimmed_start(text).len() > 0 ==> 0 < token_length(trimmed_start(text))
            <= trimmed_start(text).len(),
{
    lemma_word_progress(text);
    lemma_first_close(trimmed_start(text), 1);
}

/// The index of the first closing quotation mark from `from` on, or the length of the text.
fn find_close(chars: &Vec<char>, from: usize) -> (at: usize)
    requires
        from <= chars@.len(),
    ensures
        from <= at <= chars@.len(),
        forall|i: int| from <= i < at ==> !#[trigger] is_close(chars@, i),
        at < chars@.len() ==> is_close(chars@, at as int),
{
    let mut at: usize = from;
    while at < chars.len()
        invariant
            from <= at <= chars@.len(),
            forall|i: int| from <= i < at ==> !#[trigger] is_close(chars@, i),
        decreases chars@.len() - at,
    {
        if chars[at] == '"' && (at + 1 == chars.len() || is_space(chars[at + 1])) {
            return at;
        }
        at += 1;
    }
    at
}

/// Where a text closes a quotation does not change when its start is cut off.
proof fn lemma_close_behind(text: Seq<char>, from: int, at: int)
    requires
        0 <= from <= text.len(),
        0 <= at,
    ensures
        is_close(text.skip(from), at) == is_close(text, from + at),
{
}

/// Splits `text` into its tokens.
pub fn tokens<'a>(text: &'a str) -> (pieces: Vec<&'a str>)
    ensures
        views(pieces@) == tokens_of(text@),
{
    let chars = chars_of(text);
    let mut pieces: Vec<&'a str> = Vec::new();
    let mut start: usize = 0;
    assert(text@.skip(0) == text@);
    loop
        invariant
            chars@ == text@,
            start <= text@.len(),
            views(pieces@) + tokens_of(text@.skip(start as int)) == tokens_of(text@),
        decreases text@.len() - start,
    {
        let ghost rest = text@.skip(start as int);
        let ghost before = views(pieces@);
        let mut from: usize = start;
        while from < chars.len() && is_space(chars[from])
            invariant
                chars@ == text@,
                start <= from <= text@.len(),
                rest == text@.skip(start as int),
                forall|i: int| 0 <= i < from - start ==> white()(#[trigger] rest[i]),
            decreases text@.len() - from,
        {
            from += 1;
        }
        proof {
            lemma_leading_unique(rest, white(), (from - start) as nat);
            assert(trimmed_start(rest) == text@.skip(from as int));
        }
        if from == chars.len() {
            assert(before + Seq::<Seq<char>>::empty() == before);
            return pieces;
        }
        let ghost token = text@.skip(from as int);
        let mut to: usize = from;
        while to < chars.len() && !is_space(chars[to])
            invariant
                chars@ == text@,
                from <= to <= text@.len(),
                token == text@.skip(from as int),
                forall|i: int| 0 <= i < to - from ==> solid()(#[trigger] token[i]),
            decreases text@.len() - to,
        {
            to += 1;
        }
        proof {
            lemma_leading_unique(token, solid(), (to - from) as nat);
            lemma_first_close(token, 1);
        }
        if chars[from] == '"' {
            let close: usize = find_close(&chars, from + 1);
            proof {
                match first_close(token, 1) {
                    Some(at) => {
                        lemma_close_behind(text@, from as int, at);
                        assert(is_close(text@, from + at));
                        lemma_close_behind(text@, from as int, close - from);
                        assert(close < text@.len());
                        assert(is_close(token, close - from));
                        assert(close == from + at);
                    },
                    None => {
                        lemma_close_behind(text@, from as int, close - from);
                        assert(!is_close(token, close - from));
                    },
                }
            }
            if close < chars.len() {
                to = close + 1;
            }
        }
        assert(to - from == token_length(token));
        let piece = text.substring_char(from, to);
        pieces.push(piece);
        proof {
            lemma_token_progress(rest);
            assert(piece@ == token.take(to - from));
            assert(token.skip(to - from) == text@.skip(to as int));
            assert(views(pieces@) == before.push(piece@));
            assert(before + (seq![piece@] + tokens_of(text@.skip(to as int))) == views(pieces@)
                + tokens_of(text@.skip(to as int)));
        }
        start = to;
    }
}

/// The token is read as one: it is a word that does not begin with a quotation mark, or it stands
/// in quotation marks and does not close before its end.
pub open spec fn is_token(token: Seq<char>) -> bool {
    &&& token.len() > 0
    &&& if token[0] == '"' {
        first_close(token, 1) == Some(token.len() - 1)
    } else {
        is_spaceless(token)
    }
}

/// White space before a text does not change its tokens.
proof fn lemma_tokens_behind_space(text: Seq<char>)
    ensures
        tokens_of(seq![' '] + text) == tokens_of(text),
{
    let all = seq![' '] + text;
    let n = leading(text, white());
    lemma_leading(text, white());
    assert forall|i: int| 0 <= i < n + 1 implies white()(#[trigger] all[i]) by {
        if i > 0 {
            assert(all[i] == text[i - 1]);
        }
    }
    lemma_leading_unique(all, white(), n + 1);
    assert(trimmed_start(all) =~= trimmed_start(text));
}

/// The first token of a text is the one before the first space outside of it.
proof fn lemma_first_token(token: Seq<char>, rest: Seq<char>)
    requires
        is_token(token),
        rest.len() == 0 || rest[0] == ' ',
    ensures
        tokens_of(token + rest) == seq![token] + tokens_of(rest),
{
    let text = token + rest;
    assert(text[0] == token[0]);
    lemma_leading_unique(text, white(), 0);
    assert(trimmed_start(text) =~= text);
    lemma_first_close(text, 1);
    if token[0] == '"' {
        lemma_first_close(token, 1);
        let last = token.len() - 1;
        assert(is_close(token, last));
        assert(is_close(text, last)) by {
            if rest.len() > 0 {
                assert(text[last + 1] == ' ');
            }
        }
        let at = first_close(text, 1)->0;
        if at < last {
            assert(is_close(token, at)) by {
                assert(token[at] == text[at] && token[at + 1] == text[at + 1]);
            }
        }
        assert(at == last);
    } else {
        assert forall|i: int| 0 <= i < token.len() implies solid()(#[trigger] text[i]) by {
            assert(text[i] == token[i]);
        }
        if rest.len() > 0 {
            assert(text[token.len() as int] == ' ');
        }
        lemma_leading_unique(text, solid(), token.len());
    }
    assert(token_length(text) == token.len());
    assert(text.take(token.len() as int) =~= token);
    assert(text.skip(token.len() as int) =~= rest);
}

/// Tokens with spaces between them are found again.
pub proof fn spaced_tokens_are_found(tokens: Seq<Seq<char>>)
    requires
        forall|i: int| 0 <= i < tokens.len() ==> is_token(#[trigger] tokens[i]),
    ensures
        tokens_of(spaced(tokens)) == tokens,
    decreases tokens.len(),
{
    let nothing = Seq::<char>::empty();
    assert(tokens_of(nothing) == Seq::<Seq<char>>::empty());
    if tokens.len() == 1 {
        lemma_first_token(tokens[0], nothing);
        assert(tokens[0] + nothing =~= tokens[0]);
        assert(tokens_of(spaced(tokens)) =~= tokens);
    } else if tokens.len() > 1 {
        let tail = tokens.drop_first();
        assert forall|i: int| 0 <= i < tail.len() implies is_token(#[trigger] tail[i]) by {
            assert(tail[i] == tokens[i + 1]);
        }
        spaced_tokens_are_found(tail);
        let rest = seq![' '] + spaced(tail);
        lemma_tokens_behind_space(spaced(tail));
        lemma_first_token(tokens[0], rest);
        assert(spaced(tokens) =~= tokens[0] + rest);
        assert(tokens_of(spaced(tokens)) =~= tokens);
    }
}

} // verus!
