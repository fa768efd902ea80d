use aoc::passphrase::{is_supervalid, is_valid};
use aoc::text::{parse_isize, parse_u32, parse_usize, same_text, split_whitespace, words_of};

#[test]
fn test_is_valid() {
    let tests = vec![
        ("aa bb cc dd ee", true),
        ("aa bb cc dd aa", false),
        ("aa bb cc dd aaa", true),
    ];

    for t in tests {
        assert_eq!(is_valid(t.0), t.1);
    }
}

#[test]
fn passphrase_test_is_valid() {
    let tests = vec![
        ("aa bb cc dd ee", true),
        ("aa bb cc dd aa", false),
        ("aa bb cc dd aaa", true),
    ];

    for t in tests {
        assert_eq!(is_valid(t.0), t.1);
    }
}

#[test]
fn test_is_supervalid() {
    let tests = vec![
        ("abcde fghij", true),
        ("abcde xyz ecdab", false),
        ("a ab abc abd abf abj", true),
        ("iiii oiii ooii oooi oooo", true),
        ("oiii ioii iioi iiio", false),
    ];

    for t in tests {
        assert_eq!(is_supervalid(t.0), t.1);
    }
}

#[test]
fn passphrase_test_is_supervalid() {
    let tests = vec![
        ("abcde fghij", true),
        ("abcde xyz ecdab", false),
        ("a ab abc abd abf abj", true),
        ("iiii oiii ooii oooi oooo", true),
        ("oiii ioii iioi iiio", false),
    ];

    for t in tests {
        assert_eq!(is_supervalid(t.0), t.1);
    }
}

#[test]
fn a_passphrase_needs_two_words() {
    assert!(!is_valid(""));
    assert!(!is_valid("   "));
    assert!(!is_valid("lonely"));
    assert!(!is_supervalid(""));
    assert!(!is_supervalid("lonely"));
    assert!(is_valid("ab ba"));
    assert!(!is_supervalid("ab ba"));
}

#[test]
fn words_are_split_at_any_whitespace() {
    let words: Vec<String> = split_whitespace(" \taa\u{a0}bb\n\ncc\u{3000}")
        .iter()
        .map(|w| w.iter().collect())
        .collect();
    assert_eq!(words, vec!["aa", "bb", "cc"]);
    assert_eq!(words_of(" \taa\u{a0}bb\n\ncc\u{3000}"), vec!["aa", "bb", "cc"]);
    assert_eq!(words_of("one"), vec!["one"]);
    assert_eq!(words_of("é ü"), vec!["é", "ü"]);
    assert!(split_whitespace("").is_empty());
    assert!(words_of(" \n ").is_empty());
    assert!(is_valid("aa\tbb"));
    assert!(!is_valid("aa\u{2003}aa"));
}

#[test]
fn numbers_are_read_like_the_standard_library_reads_them() {
    for text in [
        "0", "-0", "+0", "7", "-7", "+7", "0012", "", "-", "+", "--1", "1-", " 1", "1 ", "a",
        "1a", "９", "9223372036854775807", "9223372036854775808", "-9223372036854775808",
        "-9223372036854775809", "99999999999999999999999999999999999999999",
        "000000000000000000000000000000000000000000000001",
    ] {
        assert_eq!(parse_isize(text), text.parse::<isize>().ok(), "{:?}", text);
    }
    assert_eq!(parse_isize("-10"), Some(-10));
}

#[test]
fn texts_are_compared_by_their_characters() {
    assert!(same_text("if", "if"));
    assert!(!same_text("if", "iff"));
    assert!(!same_text("if", "of"));
    assert!(same_text("", ""));
}

#[test]
fn unsigned_numbers_are_read_like_the_standard_library_reads_them() {
    for text in [
        "0", "+0", "-0", "7", "+7", "-7", "0012", "", "+", "++1", "1+", " 1", "a", "4294967295",
        "4294967296", "18446744073709551615", "18446744073709551616",
        "340282366920938463463374607431768211456", "0000000000000000000000000000000000000042",
    ] {
        assert_eq!(parse_u32(text), text.parse::<u32>().ok(), "{:?}", text);
        assert_eq!(parse_usize(text), text.parse::<usize>().ok(), "{:?}", text);
    }
    assert_eq!(parse_usize("128"), Some(128));
}

#[test]
fn words_are_those_of_the_standard_library() {
    for text in [
        "",
        " ",
        "a",
        " a",
        "a ",
        "a b",
        "  a  b  ",
        "a\tb\nc\r\nd",
        "aa bb cc dd aaa",
        "\u{85}x\u{1680}y\u{2000}z\u{2028}w\u{205f}v\u{3000}",
        "no\u{200b}break",
        "é è\u{a0}ê",
    ] {
        let expected: Vec<&str> = text.split_whitespace().collect();
        assert_eq!(words_of(text), expected, "{:?}", text);
        let chars: Vec<String> = split_whitespace(text).iter().map(|w| w.iter().collect()).collect();
        assert_eq!(chars, expected, "{:?}", text);
    }
}
