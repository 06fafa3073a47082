//! Text and numerals, held against what the standard library does.

use phantun::number::{
    decimal_text, hexadecimal_8_text, hexadecimal_text, parse_number, IntError, Radix,
};
use phantun::text::{
    chars_of, contains_phrase, contains_word, is_phrase_at, is_space, lines, rfind, same_text,
    starts_with, tokens, trim, words,
};

const SAMPLES: [&str; 16] = [
    "",
    " ",
    "\n",
    "\r\n",
    "a",
    " a b ",
    "one\ntwo\r\nthree",
    "one\n\n two \n",
    "ends with return\r",
    "\u{2003}wide\u{a0}space\u{3000}",
    "# handle 3 # handle 4",
    "iifname \"tun0\" oif \"eth0\" masquerade # handle 12",
    "d\u{e9}j\u{e0} vu \u{1f600}",
    "MiXeD \u{c9} 0xAbC",
    "\u{feff}not white\u{200b}",
    "aaa",
];

#[test]
fn trimming_agrees_with_std() {
    for sample in SAMPLES {
        assert_eq!(trim(sample), sample.trim());
    }
}

#[test]
fn lines_agree_with_std() {
    for sample in SAMPLES {
        assert_eq!(lines(sample), sample.lines().collect::<Vec<&str>>());
    }
}

#[test]
fn words_agree_with_std() {
    for sample in SAMPLES {
        assert_eq!(words(sample), sample.split_whitespace().collect::<Vec<&str>>());
    }
}

#[test]
fn searching_agrees_with_std() {
    for sample in SAMPLES {
        for part in ["", "a", "aa", "aaaa", "# handle ", "\u{e9}", "oif", "two"] {
            assert_eq!(starts_with(sample, part), sample.starts_with(part));
            let found = sample.rfind(part).map(|at| sample[..at].chars().count());
            assert_eq!(rfind(sample, part), found);
        }
    }
}

#[test]
fn white_space_agrees_with_std() {
    for code in 0..0x11_0000u32 {
        if let Some(c) = char::from_u32(code) {
            assert_eq!(is_space(c), c.is_whitespace());
        }
    }
}

#[test]
fn texts_are_the_same_when_their_characters_are() {
    assert!(same_text("", ""));
    assert!(same_text("eth0", "eth0"));
    assert!(!same_text("eth0", "eth1"));
    assert!(!same_text("eth", "eth0"));
    assert_eq!(chars_of("a\u{e9}"), vec!['a', '\u{e9}']);
}

#[test]
fn phrases_are_found_word_by_word() {
    let found = words("iifname \"tun0\" tcp dport 80");
    assert!(contains_phrase(&found, &vec!["tcp", "dport", "80"]));
    assert!(!contains_phrase(&found, &vec!["tcp", "80"]));
    assert!(!contains_phrase(&found, &vec!["dport", "80", "dnat"]));
    assert!(contains_phrase(&found, &vec![]));
    assert!(is_phrase_at(&found, &vec!["iifname", "\"tun0\""], 0));
    assert!(!is_phrase_at(&found, &vec!["iifname"], 1));
    assert!(!is_phrase_at(&found, &vec!["80"], 5));
    assert!(contains_word(&found, "tcp") && !contains_word(&found, "tc"));
}

#[test]
fn quoted_texts_are_tokens() {
    assert_eq!(tokens("iifname \"tun0\" masquerade"), vec!["iifname", "\"tun0\"", "masquerade"]);
    assert_eq!(tokens(" oif \"a b\"\tx "), vec!["oif", "\"a b\"", "x"]);
    assert_eq!(tokens("\"a\"b c\" d"), vec!["\"a\"b c\"", "d"]);
    assert_eq!(tokens("\"a b"), vec!["\"a", "b"]);
    assert_eq!(tokens("a\"b c\""), vec!["a\"b", "c\""]);
    assert_eq!(tokens("\"\" \""), vec!["\"\"", "\""]);
    assert_eq!(tokens("  "), Vec::<&str>::new());
}

#[test]
fn tokens_without_quotation_marks_are_words() {
    for sample in SAMPLES {
        if !sample.contains('"') {
            assert_eq!(tokens(sample), words(sample));
        }
    }
}

#[test]
fn numerals_agree_with_std() {
    for n in [0u64, 1, 9, 10, 15, 16, 99, 100, 255, 4567, 65535, 65536, u32::MAX as u64, u64::MAX] {
        assert_eq!(decimal_text(n), n.to_string());
        assert_eq!(hexadecimal_text(n), format!("{:x}", n));
        if n <= u32::MAX as u64 {
            assert_eq!(hexadecimal_8_text(n as u32), format!("{:08x}", n));
        }
        assert_eq!(parse_number(&n.to_string(), Radix::Ten, u64::MAX), Ok(n));
        assert_eq!(parse_number(&format!("{:x}", n), Radix::Sixteen, u64::MAX), Ok(n));
    }
}

#[test]
fn reading_numbers_agrees_with_std() {
    let texts = [
        "", "+", "-", "0", "00", "007", "+7", "-7", "++7", " 7", "7 ", "12a", "a", "F", "g", "\u{661}",
        "18446744073709551615", "18446744073709551616", "99999999999999999999x", "ffffffffffffffff",
        "10000000000000000",
    ];
    for text in texts {
        for (radix, base) in [(Radix::Ten, 10), (Radix::Sixteen, 16)] {
            let expected = u64::from_str_radix(text, base);
            match (parse_number(text, radix, u64::MAX), expected) {
                (Ok(value), Ok(wanted)) => assert_eq!(value, wanted),
                (Err(error), Err(wanted)) => assert_eq!(error.text(), wanted.to_string()),
                (found, wanted) => panic!("{:?}: {:?} and {:?}", text, found, wanted),
            }
        }
    }
}

#[test]
fn errors_of_numbers() {
    assert_eq!(parse_number("", Radix::Ten, 9), Err(IntError::Empty));
    assert_eq!(parse_number("x", Radix::Ten, 9), Err(IntError::InvalidDigit));
    assert_eq!(parse_number("10", Radix::Ten, 9), Err(IntError::PosOverflow));
    assert_eq!(parse_number("9", Radix::Ten, 9), Ok(9));
}
