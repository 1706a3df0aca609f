use spawnado::scan::{find, is_white_space, parse_number, split, trim};
use spawnado::text::{
    align_right, centre, from_chars, join, plural, to_chars, to_decimal,
};

fn chars(s: &str) -> Vec<char> {
    s.chars().collect()
}

#[test]
fn characters_there_and_back() {
    for s in ["", "abc", "µs ± σ ▶"] {
        assert_eq!(to_chars(s), chars(s));
        assert_eq!(from_chars(&chars(s)), s);
    }
}

#[test]
fn decimal_agrees_with_display() {
    for n in 0..2_000u128 {
        assert_eq!(to_decimal(n), n.to_string());
    }
    for n in [9_999, 10_000, u64::MAX as u128, u128::MAX - 1, u128::MAX] {
        assert_eq!(to_decimal(n), n.to_string());
    }
}

#[test]
fn alignment_agrees_with_format() {
    for s in ["", "x", "12.34", "µs", "longer than nine"] {
        assert_eq!(align_right(s, 9), format!("{s:>9}"));
        assert_eq!(align_right(s, 0), s);
        assert_eq!(centre(s, 6), format!("{s:^6}"));
        assert_eq!(centre(s, 7), format!("{s:^7}"));
    }
}

#[test]
fn joining() {
    let parts = |p: &[&str]| p.iter().map(|s| s.to_string()).collect::<Vec<_>>();
    assert_eq!(join(&parts(&[]), ", "), "");
    assert_eq!(join(&parts(&["a"]), ", "), "a");
    assert_eq!(join(&parts(&["a", "", "b"]), ", "), "a, , b");
}

#[test]
fn plural_ending() {
    assert_eq!(plural(0), "s");
    assert_eq!(plural(1), "");
    assert_eq!(plural(2), "s");
}

#[test]
fn white_space_agrees_with_the_standard_library() {
    for c in '\0'..=char::MAX {
        assert_eq!(is_white_space(c), c.is_whitespace(), "{c:?}");
    }
}

#[test]
fn trimming_agrees_with_the_standard_library() {
    for s in ["", " ", "a", " a", "a ", "\t a b\u{3000}\n", "\u{200b}a\u{200b}"] {
        let t = chars(s);
        assert_eq!(from_chars(trim(&t)), s.trim());
        assert_eq!(trim(trim(&t)), trim(&t));
    }
}

#[test]
fn splitting_agrees_with_the_standard_library() {
    for s in ["", ",", "a", "a,b", ",a,,b,", "abc"] {
        let pieces = split(&chars(s), ',');
        let expected: Vec<Vec<char>> = s.split(',').map(chars).collect();
        assert_eq!(pieces, expected);
        let strings: Vec<String> = pieces.iter().map(|p| from_chars(p)).collect();
        assert_eq!(join(&strings, ","), s);
    }
}

#[test]
fn finding() {
    assert_eq!(find(&chars("a-b-c"), '-'), 1);
    assert_eq!(find(&chars("abc"), '-'), 3);
    assert_eq!(find(&[], '-'), 0);
}

#[test]
fn numbers_agree_with_the_standard_library() {
    for s in [
        "", "+", "-", "0", "+0", "-0", "00012", "7", "+7", "++7", "7+", " 7", "7 ", "1_000",
        "18446744073709551615", "18446744073709551616", "99999999999999999999999",
        "000000000000000000000000000001", "x", "１",
    ] {
        assert_eq!(parse_number(&chars(s)), s.parse().ok(), "{s:?}");
    }
    for n in 0..3_000usize {
        assert_eq!(parse_number(&chars(&to_decimal(n as u128))), Some(n));
    }
}
