use commandbot::number::{i64_decimal, parse_i64, parse_u32, parse_u64, u64_decimal};
use commandbot::text::{
    chars_eq, chars_of, contains_char, find_char_index, replace_chars, split_chars,
    split_once_chars, string_of, sub_chars,
};

fn cv(s: &str) -> Vec<char> {
    s.chars().collect()
}

#[test]
fn chars_and_strings() {
    assert_eq!(chars_of("añb✓"), cv("añb✓"));
    assert_eq!(string_of(&cv("añb✓")), "añb✓");
    assert_eq!(string_of(&Vec::new()), "");
    assert!(chars_eq(&cv("abc"), &cv("abc")));
    assert!(!chars_eq(&cv("abc"), &cv("abd")));
    assert!(!chars_eq(&cv("ab"), &cv("abc")));
    assert!(contains_char(&cv("a b"), ' '));
    assert!(!contains_char(&cv("ab"), ' '));
    assert_eq!(sub_chars(&cv("hello"), 1, 3), cv("el"));
}

#[test]
fn splitting_like_str_split() {
    for (s, sep) in [("a;b;;c", ';'), ("", ';'), (";", ';'), ("no", ' '), ("a b  c ", ' ')] {
        let expected: Vec<Vec<char>> = s.split(sep).map(cv).collect();
        assert_eq!(split_chars(&cv(s), sep), expected);
    }
}

#[test]
fn split_once_like_splitn_two() {
    for (s, c) in [("ts3 status now", ' '), ("reboot", ' '), ("", ' '), (" x", ' '), ("2d6d", 'd')] {
        let mut it = s.splitn(2, c);
        let head = cv(it.next().unwrap());
        let tail = it.next().map(cv);
        assert_eq!(split_once_chars(&cv(s), c), (head, tail));
    }
    assert_eq!(find_char_index(&cv("abcabc"), 'c'), Some(2));
    assert_eq!(find_char_index(&cv("abc"), 'z'), None);
}

#[test]
fn replacing_like_str_replace() {
    for (s, pat, rep) in [
        ("https://matrix.org", "https://matrix.", ""),
        ("aaaa", "aa", "b"),
        ("a b c", " ", ""),
        ("xyz", "xyzw", "q"),
        ("abab", "b", "cc"),
    ] {
        assert_eq!(replace_chars(&cv(s), &cv(pat), &cv(rep)), cv(&s.replace(pat, rep)));
    }
}

#[test]
fn parsing_like_str_parse() {
    for s in ["0", "42", "+7", "-7", "", "-", "+", "1 2", "9223372036854775807", "9223372036854775808",
        "-9223372036854775808", "-9223372036854775809", "007", "4294967295", "4294967296",
        "18446744073709551615", "18446744073709551616", "-0", "+-1", "١٢"] {
        assert_eq!(parse_i64(&cv(s)), s.parse::<i64>().ok(), "i64 {:?}", s);
        assert_eq!(parse_u32(&cv(s)), s.parse::<u32>().ok(), "u32 {:?}", s);
        assert_eq!(parse_u64(&cv(s)), s.parse::<u64>().ok(), "u64 {:?}", s);
    }
}

#[test]
fn writing_like_to_string() {
    for n in [0u64, 9, 10, 12345, u64::MAX] {
        assert_eq!(u64_decimal(n), cv(&n.to_string()));
    }
    for n in [0i64, -1, 9, -10, 12345, i64::MAX, i64::MIN] {
        assert_eq!(i64_decimal(n), cv(&n.to_string()));
    }
}

#[test]
fn decimal_roundtrip_law() {
    for n in [0i64, 1, -1, 100, -99999, i64::MAX, i64::MIN] {
        assert_eq!(parse_i64(&i64_decimal(n)), Some(n));
    }
    for n in [0u64, 3, u32::MAX as u64, u64::MAX] {
        assert_eq!(parse_u64(&u64_decimal(n)), Some(n));
    }
}
