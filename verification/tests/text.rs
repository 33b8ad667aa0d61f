use portwitch::decimal::{decimal_chars, parse_unsigned};
use portwitch::text::{
    chars_of, contains, same_bytes, same_text, split_on, strip_prefix, text_contains, text_of,
};

fn chars(s: &str) -> Vec<char> {
    s.chars().collect()
}

#[test]
fn split_gives_the_pieces_between_separators() {
    assert_eq!(split_on(b"a,bc,d", b','), vec![&b"a"[..], &b"bc"[..], &b"d"[..]]);
}

#[test]
fn split_of_nothing_is_one_empty_piece() {
    assert_eq!(split_on(b"", b','), vec![&b""[..]]);
}

#[test]
fn split_keeps_empty_pieces() {
    assert_eq!(split_on(b",", b','), vec![&b""[..], &b""[..]]);
    assert_eq!(split_on(b"a,,b,", b','), vec![&b"a"[..], &b""[..], &b"b"[..], &b""[..]]);
    assert_eq!(split_on(b",a", b','), vec![&b""[..], &b"a"[..]]);
}

#[test]
fn split_without_separator_is_the_whole() {
    assert_eq!(split_on(b"abc", b'\n'), vec![&b"abc"[..]]);
}

#[test]
fn split_agrees_with_the_standard_library() {
    for input in [&b"p41\0ca\0\nn*:1\0\n\n"[..], b"\n", b"x", b"\n\nx\n", b"\0\n\0"] {
        for sep in [b'\n', 0u8, b'x'] {
            let expected: Vec<&[u8]> = input.split(|&b| b == sep).collect();
            assert_eq!(split_on(input, sep), expected);
        }
    }
}

#[test]
fn strip_prefix_gives_the_rest() {
    assert_eq!(strip_prefix(b"TST=LISTEN", b"TST="), Some(&b"LISTEN"[..]));
    assert_eq!(strip_prefix(b"TST=", b"TST="), Some(&b""[..]));
    assert_eq!(strip_prefix(b"abc", b""), Some(&b"abc"[..]));
    assert_eq!(strip_prefix(b"", b""), Some(&b""[..]));
}

#[test]
fn strip_prefix_refuses_what_does_not_start_with_it() {
    assert_eq!(strip_prefix(b"TST", b"TST="), None);
    assert_eq!(strip_prefix(b"TSX=LISTEN", b"TST="), None);
    assert_eq!(strip_prefix(b"", b"p"), None);
    assert_eq!(strip_prefix(b"xp", b"p"), None);
}

#[test]
fn text_of_reads_utf8() {
    assert_eq!(text_of(b"sshd"), Some("sshd"));
    assert_eq!(text_of(b""), Some(""));
    assert_eq!(text_of("größe €".as_bytes()), Some("größe €"));
}

#[test]
fn text_of_refuses_what_is_not_utf8() {
    assert_eq!(text_of(&[0xff]), None);
    assert_eq!(text_of(&[b'a', 0xc3]), None);
    assert_eq!(text_of(&[0xed, 0xa0, 0x80]), None);
    assert_eq!(text_of(&[0xc0, 0xaf]), None);
}

#[test]
fn chars_of_lists_the_characters() {
    assert_eq!(chars_of("a€b"), vec!['a', '€', 'b']);
    assert_eq!(chars_of(""), Vec::<char>::new());
}

#[test]
fn same_text_compares_by_content() {
    assert!(same_text("LISTEN", "LISTEN"));
    assert!(same_text("", ""));
    assert!(!same_text("LISTEN", "listen"));
    assert!(!same_text("LISTEN", "LISTE"));
    assert!(!same_text("LISTEN", "LISTEN "));
    assert!(same_bytes(b"ab", b"ab"));
    assert!(!same_bytes(b"ab", b"ba"));
    assert!(!same_bytes(b"ab", b"abc"));
}

#[test]
fn contains_finds_a_substring_anywhere() {
    let hay = chars("0.0.0.0:8080");
    assert!(contains(&hay, &chars("80")));
    assert!(contains(&hay, &chars("0.0")));
    assert!(contains(&hay, &chars("8080")));
    assert!(contains(&hay, &chars("0.0.0.0:8080")));
    assert!(contains(&hay, &chars("")));
    assert!(contains(&[], &[]));
}

#[test]
fn contains_refuses_what_is_no_substring() {
    let hay = chars("0.0.0.0:443");
    assert!(!contains(&hay, &chars("80")));
    assert!(!contains(&hay, &chars("434")));
    assert!(!contains(&hay, &chars("0.0.0.0:4433")));
    assert!(!contains(&hay, &chars("00")));
    assert!(!contains(&[], &chars("a")));
}

#[test]
fn contains_agrees_with_the_standard_library() {
    let texts = ["", "a", "ab", "aab", "abab", "ababc", "€a€", "nginx", "0.0.0.0:80"];
    for hay in texts {
        for needle in texts {
            assert_eq!(text_contains(hay, &chars(needle)), hay.contains(needle), "{hay:?} {needle:?}");
        }
    }
}

#[test]
fn parse_unsigned_reads_decimal() {
    assert_eq!(parse_unsigned("0"), Some(0));
    assert_eq!(parse_unsigned("7"), Some(7));
    assert_eq!(parse_unsigned("100"), Some(100));
    assert_eq!(parse_unsigned("65535"), Some(65535));
    assert_eq!(parse_unsigned("007"), Some(7));
    assert_eq!(parse_unsigned("+5"), Some(5));
    assert_eq!(parse_unsigned("+0"), Some(0));
}

#[test]
fn parse_unsigned_reads_up_to_the_largest_value() {
    assert_eq!(parse_unsigned(&usize::MAX.to_string()), Some(usize::MAX));
    assert_eq!(parse_unsigned(&format!("000{}", usize::MAX)), Some(usize::MAX));
    assert_eq!(parse_unsigned(&(usize::MAX - 1).to_string()), Some(usize::MAX - 1));
}

#[test]
fn parse_unsigned_refuses_what_does_not_fit() {
    let max = usize::MAX.to_string();
    let (head, last) = max.split_at(max.len() - 1);
    let last: u32 = last.parse().unwrap();
    assert_eq!(parse_unsigned(&format!("{head}{}", last + 1)), None);
    assert_eq!(parse_unsigned(&format!("{max}0")), None);
    assert_eq!(parse_unsigned("99999999999999999999999999999999999999999"), None);
}

#[test]
fn parse_unsigned_refuses_what_is_no_number() {
    for text in ["", "+", "-", "-5", "++5", "5+", "a", "5a", "a5", " 5", "5 ", "1_000", "1.0", "٣"] {
        assert_eq!(parse_unsigned(text), None, "{text:?}");
    }
}

#[test]
fn parse_unsigned_agrees_with_the_standard_library() {
    for text in ["0", "1", "+1", "-1", "", "+", "18446744073709551615", "18446744073709551616", "012", "1e3", "0x10"] {
        assert_eq!(parse_unsigned(text), text.parse::<usize>().ok(), "{text:?}");
    }
}

#[test]
fn decimal_chars_writes_decimal() {
    assert_eq!(decimal_chars(0), vec!['0']);
    assert_eq!(decimal_chars(9), vec!['9']);
    assert_eq!(decimal_chars(10), vec!['1', '0']);
    assert_eq!(decimal_chars(1234567890), chars("1234567890"));
    assert_eq!(decimal_chars(usize::MAX), chars(&usize::MAX.to_string()));
}

#[test]
fn what_is_written_reads_back() {
    for n in [0usize, 1, 9, 10, 99, 100, 4096, 65535, usize::MAX / 10, usize::MAX] {
        let written: String = decimal_chars(n).into_iter().collect();
        assert_eq!(parse_unsigned(&written), Some(n));
    }
}
