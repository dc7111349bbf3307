use testdiff::number::{decimal_of, parse_usize};
use testdiff::text::{trim_chars, trim_str};

#[test]
fn decimal_writes_digits() {
    assert_eq!(decimal_of(0), "0");
    assert_eq!(decimal_of(7), "7");
    assert_eq!(decimal_of(10), "10");
    assert_eq!(decimal_of(12034), "12034");
    assert_eq!(decimal_of(usize::MAX), usize::MAX.to_string());
}

#[test]
fn parse_reads_digits() {
    assert_eq!(parse_usize("0"), Some(0));
    assert_eq!(parse_usize("10"), Some(10));
    assert_eq!(parse_usize("+22"), Some(22));
    assert_eq!(parse_usize("007"), Some(7));
    assert_eq!(parse_usize(&usize::MAX.to_string()), Some(usize::MAX));
}

#[test]
fn parse_rejects_what_is_no_number() {
    for text in ["", "+", "-1", "1 ", " 1", "1_000", "12a", "++1", "1.0", "٣", "0x10"] {
        assert_eq!(parse_usize(text), None, "{:?}", text);
    }
    let too_big = format!("{}0", usize::MAX);
    assert_eq!(parse_usize(&too_big), None);
    let one_more = format!("{}", usize::MAX as u128 + 1);
    assert_eq!(parse_usize(&one_more), None);
}

#[test]
fn parse_agrees_with_std() {
    for text in ["5", "+5", "-5", "", "+", "18446744073709551615", "18446744073709551616", "00", "9a"] {
        assert_eq!(parse_usize(text), text.parse::<usize>().ok(), "{:?}", text);
    }
}

#[test]
fn parse_undoes_decimal() {
    for n in [0usize, 1, 9, 10, 99, 100, 65535, 4294967295] {
        assert_eq!(parse_usize(&decimal_of(n)), Some(n));
    }
}

#[test]
fn trim_removes_white_space_at_both_ends() {
    assert_eq!(trim_str("  a b \t\r\n"), "a b");
    assert_eq!(trim_str(""), "");
    assert_eq!(trim_str(" \u{3000}\u{2003} "), "");
    assert_eq!(trim_str("x"), "x");
    assert_eq!(trim_chars(&vec![' ', 'a', ' ']), "a");
}

#[test]
fn trim_agrees_with_std() {
    let samples = [
        "", " ", "a", " a", "a ", "\u{85}a\u{a0}", "\u{1680}x\u{2028}\u{2029}", "\u{200b}x",
        "\u{202f}\u{205f}y\u{180e}", "\x0b\x0cz\x1c", "\u{feff}w",
    ];
    for s in samples {
        assert_eq!(trim_str(s), s.trim(), "{:?}", s);
    }
    for code in 0u32..0x3100 {
        if let Some(c) = char::from_u32(code) {
            let s = format!("{}x{}", c, c);
            assert_eq!(trim_str(&s), s.trim(), "{:x}", code);
        }
    }
}
