use bms_chart::number::{digit_of, is_float, parse_unsigned};
use bms_chart::text::{chars_of, find_char, has_prefix, same_text, slice_of, split_lines, string_of};

fn chars(s: &str) -> Vec<char> {
    s.chars().collect()
}

fn lines(s: &str) -> Vec<String> {
    split_lines(&chars(s)).iter().map(|l| l.iter().collect()).collect()
}

#[test]
fn lines_end_at_line_feeds() {
    assert_eq!(lines(""), Vec::<String>::new());
    assert_eq!(lines("a"), vec!["a"]);
    assert_eq!(lines("a\n"), vec!["a"]);
    assert_eq!(lines("a\nb"), vec!["a", "b"]);
    assert_eq!(lines("\n\nb\n"), vec!["", "", "b"]);
    assert_eq!(lines("a\r\nb\r\n"), vec!["a", "b"]);
    assert_eq!(lines("a\r\r\nb\r"), vec!["a\r", "b\r"]);
    assert_eq!(lines("a\rb\n\r\n"), vec!["a\rb", ""]);
}

#[test]
fn lines_agree_with_std() {
    for text in ["", "\n", "\r", "\r\n", "x\r\n\ny\r", "a\n\rb\r\n\r", "#A 1\r\n#B 2\n\n"] {
        let expected: Vec<String> = text.lines().map(|l| l.to_string()).collect();
        assert_eq!(lines(text), expected);
    }
}

#[test]
fn characters_and_strings_convert_both_ways() {
    assert_eq!(chars_of("a\u{51fa}b"), vec!['a', '\u{51fa}', 'b']);
    assert_eq!(string_of(&['a', '\u{51fa}', 'b']), "a\u{51fa}b");
    assert_eq!(chars_of(""), Vec::<char>::new());
}

#[test]
fn searching_and_slicing() {
    let s = chars("ab cd e");
    assert_eq!(find_char(&s, ' ', 0), 2);
    assert_eq!(find_char(&s, ' ', 3), 5);
    assert_eq!(find_char(&s, 'x', 0), 7);
    assert_eq!(find_char(&s, 'a', 7), 7);
    assert_eq!(slice_of(&s, 3, 5), chars("cd"));
    assert_eq!(slice_of(&s, 7, 7), chars(""));
    assert!(has_prefix(&s, &chars("ab ")));
    assert!(has_prefix(&s, &chars("")));
    assert!(!has_prefix(&s, &chars("ab cd e ")));
    assert!(!has_prefix(&s, &chars("b")));
    assert!(same_text(&s, &chars("ab cd e")));
    assert!(!same_text(&s, &chars("ab cd")));
    assert!(!same_text(&s, &chars("ab cd f")));
}

#[test]
fn digits_by_radix() {
    assert_eq!(digit_of('0', 10), Some(0));
    assert_eq!(digit_of('9', 10), Some(9));
    assert_eq!(digit_of('a', 10), None);
    assert_eq!(digit_of('a', 36), Some(10));
    assert_eq!(digit_of('Z', 36), Some(35));
    assert_eq!(digit_of('z', 35), None);
    assert_eq!(digit_of('/', 36), None);
    assert_eq!(digit_of(':', 36), None);
    assert_eq!(digit_of('@', 36), None);
    assert_eq!(digit_of('[', 36), None);
    assert_eq!(digit_of('{', 36), None);
}

#[test]
fn numbers_up_to_a_bound() {
    assert_eq!(parse_unsigned(&chars("0"), 10, 255), Some(0));
    assert_eq!(parse_unsigned(&chars("255"), 10, 255), Some(255));
    assert_eq!(parse_unsigned(&chars("256"), 10, 255), None);
    assert_eq!(parse_unsigned(&chars("0000000000000000000255"), 10, 255), Some(255));
    assert_eq!(parse_unsigned(&chars("+12"), 10, 255), Some(12));
    assert_eq!(parse_unsigned(&chars("++12"), 10, 255), None);
    assert_eq!(parse_unsigned(&chars("-12"), 10, 255), None);
    assert_eq!(parse_unsigned(&chars(""), 10, 255), None);
    assert_eq!(parse_unsigned(&chars("+"), 10, 255), None);
    assert_eq!(parse_unsigned(&chars("12a"), 10, 255), None);
    assert_eq!(parse_unsigned(&chars("4294967295"), 10, 4294967295), Some(4294967295));
    assert_eq!(parse_unsigned(&chars("4294967296"), 10, 4294967295), None);
    assert_eq!(parse_unsigned(&chars("99999999999999999999999"), 10, 4294967295), None);
    assert_eq!(parse_unsigned(&chars("18446744073709551615"), 10, u64::MAX), Some(u64::MAX));
    assert_eq!(parse_unsigned(&chars("18446744073709551616"), 10, u64::MAX), None);
    assert_eq!(parse_unsigned(&chars("3w5e11264sgsf"), 36, u64::MAX), Some(u64::MAX));
    assert_eq!(parse_unsigned(&chars("3w5e11264sgsg"), 36, u64::MAX), None);
    assert_eq!(parse_unsigned(&chars("zz"), 36, 1295), Some(1295));
    assert_eq!(parse_unsigned(&chars("100"), 36, 1295), None);
    assert_eq!(parse_unsigned(&chars("101"), 2, 255), Some(5));
}

#[test]
fn float_texts() {
    for yes in [
        "170", "170.0", "0", ".5", "5.", "-1", "+1.25", "1e5", "1E5", "1e+5", "1.5e-3", ".5e1",
        "5.e1", "inf", "-inf", "+Infinity", "NaN", "nan", "-nan", "INF", "0000.0000",
    ] {
        assert!(is_float(&chars(yes)), "{}", yes);
        assert!(yes.parse::<f64>().is_ok(), "{}", yes);
    }
    for no in [
        "", "+", "-", ".", "e5", "1e", "1e+", "1.5.2", "notanumber", " 1", "1 ", "1,5", "0x10",
        "--1", "infinit", "infinityy", "na", "1f", ".e1", "+.", "1e5.0", "1_000", "i",
    ] {
        assert!(!is_float(&chars(no)), "{}", no);
        assert!(no.parse::<f64>().is_err(), "{}", no);
    }
}
