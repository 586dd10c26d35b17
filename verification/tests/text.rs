use wikilytics::error::ParseError;
use wikilytics::text::{
    append_between, chars_of, find_sep, parse_i16, parse_u64, split, split_word, stands,
    string_between,
};

fn strings(items: &[&str]) -> Vec<String> {
    items.iter().map(|s| s.to_string()).collect()
}

#[test]
fn chars_are_scalar_values_not_bytes() {
    assert_eq!(chars_of("a\u{e9}\u{65e5}"), vec!['a', '\u{e9}', '\u{65e5}']);
    assert_eq!(chars_of(""), Vec::<char>::new());
}

#[test]
fn string_between_takes_the_half_open_range() {
    let chars = chars_of("h\u{e9}llo");
    assert_eq!(string_between(&chars, 1, 4), "\u{e9}ll");
    assert_eq!(string_between(&chars, 2, 2), "");
    assert_eq!(string_between(&chars, 0, 5), "h\u{e9}llo");
}

#[test]
fn append_between_keeps_what_is_there() {
    let chars = chars_of("abcdef");
    let mut s = "x".to_string();
    append_between(&mut s, &chars, 2, 5);
    assert_eq!(s, "xcde");
}

#[test]
fn first_separator_is_found_from_a_position_on() {
    let chars = chars_of("a:b\u{e9}:c");
    assert_eq!(find_sep(&chars, ':', 0), 1);
    assert_eq!(find_sep(&chars, ':', 1), 1);
    assert_eq!(find_sep(&chars, ':', 2), 4);
    assert_eq!(find_sep(&chars, ':', 5), 6);
    assert_eq!(find_sep(&chars, ':', 6), 6);
    assert_eq!(find_sep(&chars, ';', 0), 6);
}

#[test]
fn word_stands_where_all_its_characters_do() {
    let chars = chars_of("ab[[c");
    let word = chars_of("[[");
    assert!(stands(&chars, &word, 2));
    assert!(!stands(&chars, &word, 1));
    assert!(!stands(&chars, &word, 3));
    assert!(!stands(&chars, &word, 4));
    assert!(!stands(&chars, &word, 5));
    assert!(stands(&chars, &chars_of(""), 5));
}

#[test]
fn split_yields_one_more_field_than_separators() {
    assert_eq!(split("a:b:c", ':'), strings(&["a", "b", "c"]));
    assert_eq!(split("abc", ':'), strings(&["abc"]));
    assert_eq!(split("", ':'), strings(&[""]));
    assert_eq!(split(":", ':'), strings(&["", ""]));
    assert_eq!(split("a::b:", ':'), strings(&["a", "", "b", ""]));
    assert_eq!(split(":a", ':'), strings(&["", "a"]));
}

#[test]
fn split_agrees_with_std() {
    for line in ["", ";", "a;b", ";;", "a;;b;", "\u{e9};\u{fc}", "no separator", ";x;"] {
        let expected: Vec<String> = line.split(';').map(|s| s.to_string()).collect();
        assert_eq!(split(line, ';'), expected, "line {:?}", line);
    }
}

#[test]
fn split_word_finds_the_word_from_left_to_right() {
    assert_eq!(split_word("A; B; C", "; "), strings(&["A", "B", "C"]));
    assert_eq!(split_word("A;B", "; "), strings(&["A;B"]));
    assert_eq!(split_word("A; ", "; "), strings(&["A", ""]));
    assert_eq!(split_word("; ; ", "; "), strings(&["", "", ""]));
    assert_eq!(split_word("aaa", "aa"), strings(&["", "a"]));
    assert_eq!(split_word("abc", ""), strings(&["abc"]));
    assert_eq!(split_word("", "; "), strings(&[""]));
}

#[test]
fn split_word_agrees_with_std() {
    for line in ["", "; ", "a; b", "a;b; c", "x; ; y", ";; ;", "a; "] {
        let expected: Vec<String> = line.split("; ").map(|s| s.to_string()).collect();
        assert_eq!(split_word(line, "; "), expected, "line {:?}", line);
    }
}

#[test]
fn unsigned_numerals() {
    assert_eq!(parse_u64("0"), Some(0));
    assert_eq!(parse_u64("42"), Some(42));
    assert_eq!(parse_u64("+42"), Some(42));
    assert_eq!(parse_u64("007"), Some(7));
    assert_eq!(parse_u64("18446744073709551615"), Some(u64::MAX));
    assert_eq!(parse_u64("18446744073709551616"), None);
    assert_eq!(parse_u64("99999999999999999999999"), None);
    assert_eq!(parse_u64(""), None);
    assert_eq!(parse_u64("+"), None);
    assert_eq!(parse_u64("-"), None);
    assert_eq!(parse_u64("-1"), None);
    assert_eq!(parse_u64("-0"), None);
    assert_eq!(parse_u64(" 1"), None);
    assert_eq!(parse_u64("1 "), None);
    assert_eq!(parse_u64("1_000"), None);
    assert_eq!(parse_u64("12a"), None);
    assert_eq!(parse_u64("++1"), None);
    assert_eq!(parse_u64("\u{663}"), None);
}

#[test]
fn signed_numerals() {
    assert_eq!(parse_i16("0"), Some(0));
    assert_eq!(parse_i16("-0"), Some(0));
    assert_eq!(parse_i16("+0"), Some(0));
    assert_eq!(parse_i16("14"), Some(14));
    assert_eq!(parse_i16("-2"), Some(-2));
    assert_eq!(parse_i16("32767"), Some(i16::MAX));
    assert_eq!(parse_i16("32768"), None);
    assert_eq!(parse_i16("+32768"), None);
    assert_eq!(parse_i16("-32768"), Some(i16::MIN));
    assert_eq!(parse_i16("-32769"), None);
    assert_eq!(parse_i16("-000032768"), Some(i16::MIN));
    assert_eq!(parse_i16(""), None);
    assert_eq!(parse_i16("-"), None);
    assert_eq!(parse_i16("+"), None);
    assert_eq!(parse_i16("--1"), None);
    assert_eq!(parse_i16("+-1"), None);
    assert_eq!(parse_i16("1.0"), None);
}

#[test]
fn numerals_agree_with_std() {
    let samples = [
        "", "0", "1", "+1", "-1", "+", "-", "00", "0x10", "65535", "65536", "32767", "32768",
        "-32768", "-32769", "18446744073709551615", "18446744073709551616", " 7", "7 ", "1e3",
        "+-3", "-+3", "915", "\u{ff11}",
    ];
    for s in samples {
        assert_eq!(parse_u64(s), s.parse::<u64>().ok(), "u64 of {:?}", s);
        assert_eq!(parse_i16(s), s.parse::<i16>().ok(), "i16 of {:?}", s);
    }
}

#[test]
fn errors_describe_themselves() {
    assert_eq!(ParseError::MissingField.message(), "missing field");
    assert_eq!(ParseError::InvalidNumber.message(), "invalid number");
    assert_eq!(ParseError::BadEntity.message(), "unresolvable character reference");
    assert_eq!(ParseError::BadEncoding.message(), "text is not UTF-8");
}
