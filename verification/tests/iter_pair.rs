use human_sort::digits::is_digit;
use human_sort::iter_pair::IterPair;
use human_sort::text::{first_char, peek, AsText};

#[test]
fn iter_pair_reads_both_sides() {
    let mut pair = IterPair::from("ab".chars(), "x".chars());
    assert_eq!(pair.peek(), [Some('a'), Some('x')]);
    assert_eq!(pair.peek(), [Some('a'), Some('x')]);
    assert_eq!(pair.next(), [Some('a'), Some('x')]);
    assert_eq!(pair.peek(), [Some('b'), None]);
    assert_eq!(pair.next(), [Some('b'), None]);
    assert_eq!(pair.peek(), [None, None]);
    assert_eq!(pair.next(), [None, None]);
    assert_eq!(pair.next(), [None, None]);
}

#[test]
fn iter_pair_starts_where_the_iterators_stand() {
    let mut a = "abc".chars();
    a.next();
    let mut pair = IterPair::from(a, "".chars());
    assert_eq!(pair.peek(), [Some('b'), None]);
    assert_eq!(pair.next(), [Some('b'), None]);
    assert_eq!(pair.fst.as_str(), "c");
    assert_eq!(pair.lst.as_str(), "");
}

#[test]
fn peek_does_not_advance() {
    let mut chars = "\u{e9}1".chars();
    assert_eq!(peek(&chars), Some('\u{e9}'));
    assert_eq!(peek(&chars), Some('\u{e9}'));
    assert_eq!(chars.next(), Some('\u{e9}'));
    assert_eq!(peek(&chars), Some('1'));
    assert_eq!(chars.next(), Some('1'));
    assert_eq!(peek(&chars), None);
}

#[test]
fn first_char_of_a_text() {
    assert_eq!(first_char("abc"), Some('a'));
    assert_eq!(first_char("\u{20ac}"), Some('\u{20ac}'));
    assert_eq!(first_char(""), None);
}

#[test]
fn is_digit_takes_the_ten_ascii_digits() {
    for c in '0'..='9' {
        assert!(is_digit(c));
    }
    assert!(!is_digit('/'));
    assert!(!is_digit(':'));
    assert!(!is_digit('a'));
    assert!(!is_digit('\u{661}'));
    assert!(!is_digit('\u{ff11}'));
}

#[test]
fn as_text_lends_the_text() {
    assert_eq!("abc".as_text(), "abc");
    assert_eq!("abc".to_string().as_text(), "abc");
}
