use phantun::fwmark::parse_fwmark;

#[test]
fn test_parse_fwmark() {
    assert_eq!(parse_fwmark("256").unwrap(), 256);
    assert_eq!(parse_fwmark("0x100").unwrap(), 256);
    assert_eq!(parse_fwmark("0X100").unwrap(), 256);
    assert_eq!(parse_fwmark("0x10").unwrap(), 16);
    assert_eq!(parse_fwmark("0xa").unwrap(), 10);
    assert_eq!(parse_fwmark("0").unwrap(), 0);
    assert_eq!(parse_fwmark("0xffffffff").unwrap(), 0xffffffff);
    assert!(parse_fwmark("invalid").is_err());
    assert!(parse_fwmark("-1").is_err());
    assert!(parse_fwmark("0x100000000").is_err());
}

/// What the standard parsers say of the digits.
fn message(mark: &str, radix: u32) -> String {
    let digits = if radix == 16 { &mark[2..] } else { mark };
    format!(
        "invalid fwmark \"{}\": must be a valid 32-bit unsigned integer (decimal or 0x-prefixed hex): {}",
        mark,
        u32::from_str_radix(digits, radix).unwrap_err()
    )
}

#[test]
fn fwmark_is_trimmed() {
    assert_eq!(parse_fwmark("  0x100\n"), Ok(256));
    assert_eq!(parse_fwmark("\u{3000}7\t"), Ok(7));
    assert_eq!(parse_fwmark("4294967295"), Ok(u32::MAX));
    assert_eq!(parse_fwmark("0xFFFFffff"), Ok(u32::MAX));
}

#[test]
fn fwmark_errors_say_why() {
    assert_eq!(parse_fwmark(""), Err(message("", 10)));
    assert_eq!(parse_fwmark(" \t "), Err(message("", 10)));
    assert_eq!(parse_fwmark("0x"), Err(message("0x", 16)));
    assert_eq!(parse_fwmark("0xg"), Err(message("0xg", 16)));
    assert_eq!(parse_fwmark(" invalid "), Err(message("invalid", 10)));
    assert_eq!(parse_fwmark("-1"), Err(message("-1", 10)));
    assert_eq!(parse_fwmark("+"), Err(message("+", 10)));
    assert_eq!(parse_fwmark("4294967296"), Err(message("4294967296", 10)));
    assert_eq!(parse_fwmark("0x100000000"), Err(message("0x100000000", 16)));
    assert_eq!(parse_fwmark("99999999999x"), Err(message("99999999999x", 10)));
    assert_eq!(
        parse_fwmark("abc").unwrap_err(),
        "invalid fwmark \"abc\": must be a valid 32-bit unsigned integer (decimal or 0x-prefixed hex): invalid digit found in string"
    );
}

#[test]
fn written_marks_are_read_back() {
    for mark in [0u32, 1, 9, 10, 15, 16, 255, 256, 0xabcdef, u32::MAX] {
        assert_eq!(parse_fwmark(&mark.to_string()), Ok(mark));
        assert_eq!(parse_fwmark(&format!("{:#x}", mark)), Ok(mark));
        assert_eq!(parse_fwmark(&format!("0x{:08x}", mark)), Ok(mark));
        assert_eq!(parse_fwmark(&format!("0X{:X}", mark)), Ok(mark));
    }
}
