use peer_cache::text::{
    begins_with_word, chars_of, decimal_string, is_whitespace, same_text, skip_chars, split_two,
    starts_with, trim,
};

#[test]
fn whitespace_is_the_unicode_class() {
    let mut code: u32 = 0;
    while code <= 0x10FFFF {
        if let Some(c) = char::from_u32(code) {
            assert_eq!(is_whitespace(c), c.is_whitespace(), "U+{:04X}", code);
        }
        code += 1;
    }
}

#[test]
fn whitespace_examples() {
    assert!(is_whitespace(' '));
    assert!(is_whitespace('\n'));
    assert!(is_whitespace('\r'));
    assert!(is_whitespace('\t'));
    assert!(is_whitespace('\u{A0}'));
    assert!(is_whitespace('\u{3000}'));
    assert!(!is_whitespace('a'));
    assert!(!is_whitespace('='));
    assert!(!is_whitespace('\0'));
    assert!(!is_whitespace('\u{200B}'));
}

#[test]
fn trim_strips_both_sides() {
    assert_eq!(trim("  a b \r\n"), "a b");
    assert_eq!(trim("value\n"), "value");
    assert_eq!(trim("\tkey"), "key");
    assert_eq!(trim("plain"), "plain");
}

#[test]
fn trim_of_blank_text_is_empty() {
    assert_eq!(trim(""), "");
    assert_eq!(trim(" \n\t "), "");
}

#[test]
fn trim_agrees_with_std() {
    let samples = [
        "",
        " ",
        "a",
        " a",
        "a ",
        " a ",
        "\u{2003}wide\u{2003}",
        "\u{A0}x\u{85}",
        "é = ü\n",
        "  inner  space  ",
        "\u{200B}zero width\u{200B}",
        "\r\n\r\n",
    ];
    for s in samples {
        assert_eq!(trim(s), s.trim(), "{:?}", s);
    }
}

#[test]
fn chars_of_lists_every_character() {
    assert_eq!(chars_of("aé="), vec!['a', 'é', '=']);
    assert_eq!(chars_of(""), Vec::<char>::new());
}

#[test]
fn starts_with_tests_the_prefix() {
    let request = chars_of("GET_ALL");
    assert!(starts_with(&request, "GET"));
    assert!(starts_with(&request, "GET_ALL"));
    assert!(starts_with(&request, ""));
    assert!(!starts_with(&request, "GET_ALL "));
    assert!(!starts_with(&request, "SET"));
    assert!(!starts_with(&chars_of("GE"), "GET"));
}

#[test]
fn skip_chars_counts_characters() {
    assert_eq!(skip_chars("GET key", 4), "key");
    assert_eq!(skip_chars("GET ", 4), "");
    assert_eq!(skip_chars("GET", 4), "");
    assert_eq!(skip_chars("", 4), "");
    assert_eq!(skip_chars("ééééx", 4), "x");
    assert_eq!(skip_chars("abc", 0), "abc");
}

#[test]
fn split_two_needs_exactly_one_separator() {
    assert_eq!(split_two("a=1", '='), Some(("a", "1")));
    assert_eq!(split_two("=", '='), Some(("", "")));
    assert_eq!(split_two("k =", '='), Some(("k ", "")));
    assert_eq!(split_two("=v", '='), Some(("", "v")));
    assert_eq!(split_two("é=ü", '='), Some(("é", "ü")));
    assert_eq!(split_two("malformed", '='), None);
    assert_eq!(split_two("", '='), None);
    assert_eq!(split_two("a=b=c", '='), None);
    assert_eq!(split_two("==", '='), None);
}

#[test]
fn decimal_string_writes_numerals() {
    assert_eq!(decimal_string(0), "0");
    assert_eq!(decimal_string(7), "7");
    assert_eq!(decimal_string(10), "10");
    assert_eq!(decimal_string(8080), "8080");
    assert_eq!(decimal_string(65535), "65535");
    assert_eq!(decimal_string(1234567890), "1234567890");
    assert_eq!(decimal_string(u64::MAX), "18446744073709551615");
}

#[test]
fn decimal_string_agrees_with_std() {
    let mut n: u64 = 0;
    while n < 5000 {
        assert_eq!(decimal_string(n), n.to_string());
        n += 1;
    }
}

#[test]
fn same_text_compares_whole_texts() {
    assert!(same_text(&chars_of("GET_ALL"), "GET_ALL"));
    assert!(same_text(&chars_of(""), ""));
    assert!(!same_text(&chars_of("GET_ALL"), "GET_LEN"));
    assert!(!same_text(&chars_of("GET_ALL"), "GET"));
    assert!(!same_text(&chars_of("GET"), "GET_ALL"));
}

#[test]
fn begins_with_word_needs_a_word_end() {
    assert!(begins_with_word(&chars_of("SET a=b"), "SET"));
    assert!(begins_with_word(&chars_of("SET"), "SET"));
    assert!(begins_with_word(&chars_of("SET\n"), "SET"));
    assert!(!begins_with_word(&chars_of("SETTLE a=b"), "SET"));
    assert!(!begins_with_word(&chars_of("SET=a"), "SET"));
    assert!(!begins_with_word(&chars_of(" SET a=b"), "SET"));
    assert!(!begins_with_word(&chars_of("SE"), "SET"));
}
