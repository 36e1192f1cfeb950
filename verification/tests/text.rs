use puzzle_solvers::text::{
    bytes_eq, has_at, parse_decimal, parse_unsigned, read_number, scan, skip_spaces,
    skip_spaces_back, space_len, split, split_lines, trim, Class,
};

#[test]
fn classes_of_bytes() {
    for b in 0..=255u8 {
        let c = b as char;
        assert_eq!(Class::Digit.holds(b), c.is_ascii_digit());
        assert_eq!(Class::Alpha.holds(b), c.is_ascii_alphabetic());
        assert_eq!(Class::Blank.holds(b), c == ' ' || c == '\t');
        assert_eq!(Class::Gap.holds(b), c == ' ' || c == '\n');
    }
}

#[test]
fn runs_forwards_and_backwards() {
    assert_eq!(scan(b"123abc", 0, Class::Digit), 3);
    assert_eq!(scan(b"123abc", 1, Class::Digit), 3);
    assert_eq!(scan(b"123abc", 3, Class::Digit), 3);
    assert_eq!(scan(b"123abc", 3, Class::Alpha), 6);
    assert_eq!(scan(b"123abc", 6, Class::Alpha), 6);
    assert_eq!(skip_spaces(b"  \tab", 0), 3);
    assert_eq!(skip_spaces(b"  \tab", 3), 3);
    assert_eq!(skip_spaces_back(b"ab  ", 0, 4), 2);
    assert_eq!(skip_spaces_back(b"    ", 1, 4), 1);
    assert_eq!(skip_spaces_back(b"ab", 0, 2), 2);
}

#[test]
fn trimming_takes_white_space_from_both_ends() {
    assert_eq!(trim(b"  a b \t\r\n"), b"a b");
    assert_eq!(trim(b"\x0b\x0ca"), b"a");
    assert_eq!(trim(b"   "), b"");
    assert_eq!(trim(b""), b"");
    assert_eq!(trim(b"a"), b"a");
    for text in ["", " ", "  x  ", "\ty y\n", "z"] {
        assert_eq!(trim(text.as_bytes()), text.trim().as_bytes());
    }
}

#[test]
fn white_space_is_that_of_unicode() {
    for code in 0..0x11_0000u32 {
        if let Some(c) = char::from_u32(code) {
            let mut buf = [0u8; 4];
            let bytes = c.encode_utf8(&mut buf).as_bytes();
            let want = if c.is_whitespace() { bytes.len() } else { 0 };
            assert_eq!(space_len(bytes, 0), want, "U+{code:04X}");
        }
    }
    for text in [
        "\u{a0}x\u{a0}",
        "\u{2003} a \u{3000}\u{85}",
        "\u{1680}\u{2028}\u{2029}\u{202f}\u{205f}",
        "\u{feff}x ",
        " \u{e9}\u{2000}",
        "\u{200b} x \u{200b}",
        "\u{1f600}\u{a0}",
    ] {
        assert_eq!(trim(text.as_bytes()), text.trim().as_bytes());
    }
    assert_eq!(trim(b"\xc2"), b"\xc2");
    assert_eq!(trim(b"\xa0 x \xe2\x80"), b"\xa0 x \xe2\x80");
}

#[test]
fn lines_as_the_standard_library_cuts_them() {
    for text in [
        "",
        "\n",
        "a",
        "a\n",
        "a\nb",
        "a\n\nb\n",
        "a\r\nb\r\n",
        "a\rb\r",
        "\r\n",
        "\r",
        "a\n\r\nb",
        "\n\n",
    ] {
        let want: Vec<&[u8]> = text.lines().map(|l| l.as_bytes()).collect();
        assert_eq!(split_lines(text.as_bytes()), want);
    }
    assert_eq!(split_lines(b"a\r\nb\r"), vec![&b"a"[..], &b"b\r"[..]]);
}

#[test]
fn parts_as_the_standard_library_cuts_them() {
    for (text, pat) in [
        ("", " "),
        ("a", " "),
        (" ", " "),
        ("a b  c ", " "),
        ("a: b: c", ": "),
        ("a:b", ": "),
        ("aaa", "aa"),
        ("aaaa", "aa"),
        ("abab", "ab"),
        ("x", "long"),
    ] {
        let want: Vec<&[u8]> = text.split(pat).map(|l| l.as_bytes()).collect();
        assert_eq!(split(text.as_bytes(), pat.as_bytes()), want);
    }
    assert_eq!(split(b"aaa", b"aa"), vec![&b""[..], &b"a"[..]]);
}

#[test]
fn numbers_as_the_standard_library_reads_them() {
    for text in [
        "", "0", "7", "007", "+7", "+", "-7", "++7", "7+", " 7", "7 ", "1_000", "4294967295",
        "4294967296", "+4294967295", "00000000004294967295", "99999999999999999999999999",
    ] {
        assert_eq!(
            parse_unsigned(text.as_bytes(), u32::MAX as u128),
            text.parse::<u32>().ok().map(|v| v as u128)
        );
        assert_eq!(
            parse_unsigned(text.as_bytes(), u128::MAX),
            text.parse::<u128>().ok()
        );
    }
    assert_eq!(
        parse_unsigned(b"340282366920938463463374607431768211455", u128::MAX),
        Some(u128::MAX)
    );
    assert_eq!(parse_unsigned(b"340282366920938463463374607431768211456", u128::MAX), None);
}

#[test]
fn digits_as_numbers() {
    assert_eq!(parse_decimal(b"", 10), Some(0));
    assert_eq!(parse_decimal(b"10", 10), Some(10));
    assert_eq!(parse_decimal(b"11", 10), None);
    assert_eq!(parse_decimal(b"0000", 0), Some(0));
    assert_eq!(parse_decimal(b"1", 0), None);
    assert_eq!(read_number(b"ab12cd", 2, 100), Some((12, 4)));
    assert_eq!(read_number(b"ab12cd", 3, 100), Some((2, 4)));
    assert_eq!(read_number(b"ab12cd", 4, 100), None);
    assert_eq!(read_number(b"ab12cd", 6, 100), None);
    assert_eq!(read_number(b"ab12cd", 2, 11), None);
}

#[test]
fn patterns_at_a_place() {
    assert!(has_at(b"seed-to-soil", 4, b"-to-"));
    assert!(!has_at(b"seed-to-soil", 5, b"-to-"));
    assert!(!has_at(b"seed-to", 4, b"-to-"));
    assert!(has_at(b"abc", 3, b""));
    assert!(has_at(b"abc", 0, b"abc"));
    assert!(bytes_eq(b"abc", b"abc"));
    assert!(!bytes_eq(b"abc", b"abd"));
    assert!(!bytes_eq(b"abc", b"ab"));
    assert!(bytes_eq(b"", b""));
}
