use vmstat_valkey::text::{
    bytes_between, chars_of, chars_of_bytes, is_white_space, parse_i64, parse_isize, parse_u64,
    push_decimal, push_decimal_bytes, same_text, split_words, text_of, trim,
};

fn chars(s: &str) -> Vec<char> {
    s.chars().collect()
}

fn every_char() -> Vec<char> {
    (0u32..0x110000).filter_map(char::from_u32).collect()
}

#[test]
fn white_space_is_that_of_std() {
    for c in every_char() {
        assert_eq!(is_white_space(c), c.is_whitespace(), "{:x}", c as u32);
    }
}

#[test]
fn trims_like_std() {
    for s in ["", "  ", "a", " a b \n", "\u{a0}x\u{3000}", "\tno-space", "\u{200b}kept\u{200b}"] {
        assert_eq!(trim(s), s.trim());
    }
}

#[test]
fn splits_like_std() {
    for s in ["", " \t", "a", " a  bb\u{2003}ccc\n", "x\u{85}y", "one two"] {
        let words: Vec<String> =
            split_words(&chars(s)).iter().map(|w| w.iter().collect()).collect();
        let expected: Vec<&str> = s.split_whitespace().collect();
        assert_eq!(words, expected);
    }
}

#[test]
fn characters_come_and_go() {
    let s = "a\u{e9}\u{1f600}";
    assert_eq!(chars_of(s), chars(s));
    assert_eq!(text_of(&chars(s)), s);
    assert_eq!(chars_of_bytes(&[65, 0xff]), vec!['A', '\u{ff}']);
}

#[test]
fn parses_signed_numbers_like_std() {
    let cases = [
        "", "+", "-", "0", "-0", "+7", "007", "12a", "a12", "--1", "+-1", " 1", "1 ",
        "9223372036854775807", "9223372036854775808", "-9223372036854775808",
        "-9223372036854775809", "99999999999999999999999999999999999999999999999999",
        "000000000000000000000000000000000000000000000000000000012", "\u{661}",
        "99999999999999999999999999999999999999999999999999x",
    ];
    for s in cases {
        assert_eq!(parse_i64(&chars(s)), s.parse::<i64>().ok(), "{}", s);
        assert_eq!(parse_isize(&chars(s)), s.parse::<isize>().ok(), "{}", s);
    }
}

#[test]
fn parses_unsigned_numbers_like_std() {
    let cases = [
        "", "+", "-", "0", "-0", "+7", "-7", "18446744073709551615", "18446744073709551616", "4\n",
    ];
    for s in cases {
        assert_eq!(parse_u64(&chars(s)), s.parse::<u64>().ok(), "{}", s);
    }
}

#[test]
fn decimal_reads_back() {
    for n in [0, 1, 9, 10, 59, -1, -10, 1234567890, i64::MAX, i64::MIN] {
        let mut s = String::from("n=");
        push_decimal(&mut s, n);
        assert_eq!(s, format!("n={}", n));
        assert_eq!(parse_i64(&chars(&s[2..])), Some(n));
    }
}

#[test]
fn decimal_bytes_are_ascii() {
    for n in [0usize, 7, 10, 128, 65536, usize::MAX] {
        let mut b = vec![b'$'];
        push_decimal_bytes(&mut b, n);
        assert_eq!(b, format!("${}", n).into_bytes());
    }
}

#[test]
fn slices_by_bytes_like_std() {
    for s in ["12:34:56", "12:34:5", "", "\u{e9}\u{e9}\u{e9}56", "12345\u{e9}8", "123456\u{e9}",
        "\u{1f600}ab78", "\u{20ac}\u{20ac}xyz"]
    {
        for (from, to) in [(6, 8), (0, 0), (0, 3), (8, 6), (3, 6)] {
            let part = bytes_between(&chars(s), from, to).map(|v| v.iter().collect::<String>());
            assert_eq!(part, s.get(from..to).map(String::from), "{} {} {}", s, from, to);
        }
    }
}

#[test]
fn texts_are_compared_by_characters() {
    assert!(same_text("", ""));
    assert!(same_text("OK", "OK"));
    assert!(!same_text("OK", "ok"));
    assert!(!same_text("OK", "OK "));
}
