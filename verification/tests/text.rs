use macro_asm::number::{decimal_string, parse_int, push_decimal};
use macro_asm::text::{
    concat_lines, from_chars, is_whitespace, same_chars, split_fields, split_lines, starts_with,
    to_chars, trim_bounds,
};

fn chars(s: &str) -> Vec<char> {
    s.chars().collect()
}

#[test]
fn is_whitespace_is_the_unicode_property() {
    for n in 0..=0x10FFFFu32 {
        if let Some(c) = char::from_u32(n) {
            assert_eq!(is_whitespace(c), c.is_whitespace(), "U+{:04X}", n);
        }
    }
}

#[test]
fn to_chars_and_from_chars_are_inverse() {
    for s in ["", "a", "add reg1 3", "ラベル\n@x", "\r\n"] {
        let v = to_chars(s);
        assert_eq!(v, chars(s));
        assert_eq!(from_chars(&v, 0, v.len()), s);
    }
    let v = to_chars("hello");
    assert_eq!(from_chars(&v, 1, 3), "el");
    assert_eq!(from_chars(&v, 2, 2), "");
}

#[test]
fn starts_with_compares_the_prefix() {
    assert!(starts_with(&chars("reg1"), &chars("reg")));
    assert!(starts_with(&chars("reg"), &chars("reg")));
    assert!(starts_with(&chars("reg"), &chars("")));
    assert!(!starts_with(&chars("re"), &chars("reg")));
    assert!(!starts_with(&chars("rag1"), &chars("reg")));
}

#[test]
fn same_chars_compares_the_whole() {
    assert!(same_chars(&chars("in"), &chars("in")));
    assert!(same_chars(&chars(""), &chars("")));
    assert!(!same_chars(&chars("in"), &chars("inx")));
    assert!(!same_chars(&chars("in"), &chars("on")));
}

#[test]
fn trim_bounds_agrees_with_trim() {
    for s in ["", " ", "a", "  a b  ", "\t\u{3000}x\u{a0}\n", "no-space", " \r\n "] {
        let v = chars(s);
        let (a, b) = trim_bounds(&v, 0);
        assert_eq!(from_chars(&v, a, b), s.trim());
    }
    let v = chars("goto  7 ");
    let (a, b) = trim_bounds(&v, 4);
    assert_eq!((a, b), (6, 7));
}

#[test]
fn split_lines_agrees_with_lines() {
    for s in [
        "", "a", "a\n", "a\nb", "\n", "\n\n", "a\r\nb\r\n", "a\r", "a\r\r\nb", "\r\n", "a\n\nb\n\n",
        "one\ntwo\r", "\r", "x\ry\n",
    ] {
        let expected: Vec<String> = s.lines().map(|l| l.to_string()).collect();
        assert_eq!(split_lines(s), expected, "{:?}", s);
    }
}

#[test]
fn split_fields_agrees_with_split() {
    for s in ["", "a", "a b", "a  b", " a", "a ", "  ", "reg1 5 $loop", "a\tb c"] {
        let v = chars(s);
        let expected: Vec<String> = s.split(" ").map(|l| l.to_string()).collect();
        assert_eq!(split_fields(&v, 0, v.len()), expected, "{:?}", s);
    }
    let v = chars("add reg1 3");
    assert_eq!(split_fields(&v, 4, v.len()), vec!["reg1".to_string(), "3".to_string()]);
}

#[test]
fn concat_lines_agrees_with_join() {
    let cases: Vec<Vec<&str>> = vec![vec![], vec![""], vec!["a"], vec!["a", "b"], vec!["a", "", "b"], vec!["", ""], vec!["jnz", "\n"]];
    for case in cases {
        let lines: Vec<String> = case.iter().map(|l| l.to_string()).collect();
        assert_eq!(concat_lines(lines.clone()), lines.join("\n"));
    }
}

#[test]
fn parse_int_agrees_with_parse() {
    for s in [
        "0", "-0", "+0", "1", "-1", "+15", "007", "2147483647", "2147483648", "-2147483648",
        "-2147483649", "", "-", "+", "+-1", "1a", "a1", " 1", "1 ", "１", "4294967296",
        "99999999999999999999999999", "-99999999999999999999999999", "0000000000000000000000012",
        "1_000", "0x10", "٣",
    ] {
        assert_eq!(parse_int(s), s.parse::<i32>().ok(), "{:?}", s);
    }
}

#[test]
fn parse_int_gives_the_value() {
    assert_eq!(parse_int("42"), Some(42));
    assert_eq!(parse_int("-2147483648"), Some(i32::MIN));
    assert_eq!(parse_int("2147483647"), Some(i32::MAX));
    assert_eq!(parse_int("xyz"), None);
}

#[test]
fn decimal_string_agrees_with_to_string() {
    for n in [0usize, 1, 9, 10, 11, 99, 100, 123, 4096, 1_000_000, usize::MAX] {
        assert_eq!(decimal_string(n), n.to_string());
    }
}

#[test]
fn push_decimal_appends() {
    let mut s = "index ".to_string();
    push_decimal(&mut s, 507);
    assert_eq!(s, "index 507");
}
