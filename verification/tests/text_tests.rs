use lib::text::{lines_of, parse_u32, parse_u8, split_chars, trim_chars, chars_of};

fn chars(s: &str) -> Vec<char> {
    s.chars().collect()
}

#[test]
fn trims_unicode_whitespace() {
    assert_eq!(trim_chars(&chars("\u{3000} a b\t\u{a0}")), chars("a b"));
    assert_eq!(trim_chars(&chars("   ")), chars(""));
}

#[test]
fn parses_like_from_str() {
    assert_eq!(parse_u32(&chars("400")), Some(400));
    assert_eq!(parse_u32(&chars("+5")), Some(5));
    assert_eq!(parse_u32(&chars("007")), Some(7));
    assert_eq!(parse_u32(&chars("4294967295")), Some(4294967295));
    assert_eq!(parse_u32(&chars("4294967296")), None);
    assert_eq!(parse_u32(&chars("-1")), None);
    assert_eq!(parse_u32(&chars("+")), None);
    assert_eq!(parse_u32(&chars("")), None);
    assert_eq!(parse_u32(&chars(" 1")), None);
    assert_eq!(parse_u8(&chars("255")), Some(255));
    assert_eq!(parse_u8(&chars("256")), None);
    for s in ["0", "+12", "99999999999", "1a", "-0"] {
        assert_eq!(parse_u32(&chars(s)), s.parse::<u32>().ok());
    }
}

#[test]
fn splits_lines_like_str_lines() {
    for s in ["a\nb", "a\r\nb\n", "\n\nx\r", "", "\n", "one"] {
        let expected: Vec<Vec<char>> = s.lines().map(chars).collect();
        assert_eq!(lines_of(&chars(s)), expected);
    }
}

#[test]
fn splits_on_a_char() {
    let parts = split_chars(&chars("a,b,,c"), ',');
    assert_eq!(parts, vec![chars("a"), chars("b"), chars(""), chars("c")]);
    assert_eq!(split_chars(&chars(""), ','), vec![chars("")]);
    assert_eq!(chars_of("héllo"), chars("héllo"));
}
