use lib::text::{buf_to_lexem, chars_eq, format_i64, parse_i64, split_chars};

fn chars(s: &str) -> Vec<char> {
    s.chars().collect()
}

#[test]
fn buf_to_lexem_keeps_characters() {
    assert_eq!(buf_to_lexem(&chars("Moscow")), "Moscow");
    assert_eq!(buf_to_lexem(&Vec::new()), "");
}

#[test]
fn formats_integers_like_display() {
    assert_eq!(format_i64(0), "0");
    assert_eq!(format_i64(17000), "17000");
    assert_eq!(format_i64(-45), "-45");
    assert_eq!(format_i64(i64::MIN), "-9223372036854775808");
    assert_eq!(format_i64(i64::MAX), "9223372036854775807");
}

#[test]
fn parses_integers_like_str_parse() {
    assert_eq!(parse_i64(&chars("42")), Some(42));
    assert_eq!(parse_i64(&chars("+42")), Some(42));
    assert_eq!(parse_i64(&chars("007")), Some(7));
    assert_eq!(parse_i64(&chars("-9223372036854775808")), Some(i64::MIN));
    assert_eq!(parse_i64(&chars("9223372036854775807")), Some(i64::MAX));
    assert_eq!(parse_i64(&chars("9223372036854775808")), None);
    assert_eq!(parse_i64(&chars("")), None);
    assert_eq!(parse_i64(&chars("+")), None);
    assert_eq!(parse_i64(&chars("4a")), None);
    for s in ["0", "12", "+5", "-77", "99999999999999999999", "x"] {
        assert_eq!(parse_i64(&chars(s)), s.parse::<i64>().ok());
    }
}

#[test]
fn format_then_parse_gives_the_number_back() {
    for n in [0i64, 1, 9, 10, 999, -1, -1000, i64::MIN, i64::MAX] {
        assert_eq!(parse_i64(&chars(&format_i64(n))), Some(n));
    }
}

#[test]
fn splits_like_str_split() {
    for (s, sep) in [("a-b", '-'), ("-x-", '-'), ("", '-'), ("String-a-b", '-'), ("l1\nl2\n", '\n')] {
        let expected: Vec<Vec<char>> = s.split(sep).map(|p| p.chars().collect()).collect();
        assert_eq!(split_chars(&chars(s), sep), expected);
    }
}

#[test]
fn chars_eq_compares_whole_text() {
    assert!(chars_eq(&chars("String"), "String"));
    assert!(!chars_eq(&chars("Strin"), "String"));
    assert!(!chars_eq(&chars("Strings"), "String"));
    assert!(chars_eq(&chars(""), ""));
}
