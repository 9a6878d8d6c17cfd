use human_sort::{compare, compare_chars_iters};
use std::cmp::Ordering;

#[test]
fn test_compare_chars_iters() {
    assert_eq!(compare_chars_iters("x101".chars(), "x1000".chars()), Ordering::Less);
    assert_eq!(compare_chars_iters("x101".chars(), "x2000".chars()), Ordering::Less);

    assert_eq!(compare_chars_iters("1:".chars(), "15:".chars()), Ordering::Less);
    assert_eq!(compare_chars_iters("101:".chars(), "15:".chars()), Ordering::Greater);

    assert_eq!(compare_chars_iters(
        "PowerTools/x86_64/os/repodata/9379911671413f8a51cd04665cd9bafc8200f927505008e8a11145034b53c776-other.xml.gz".chars(),
        "PowerTools/x86_64/os/repodata/43ed191200dbc7c83be76c3410f118f931bbe21ff6a58f5f549d0e351f3aea94-other.sqlite.xz".chars()),
        Ordering::Greater);

    assert_eq!(compare_chars_iters("apple".chars(), "apples".chars()), Ordering::Less);
    assert_eq!(compare_chars_iters("apples".chars(), "apple".chars()), Ordering::Greater);
    assert_eq!(compare_chars_iters("apples".chars(), "apples".chars()), Ordering::Equal);
}

#[test]
fn compare_groups_digits_into_numbers() {
    assert_eq!(compare("file2.txt", "file10.txt"), Ordering::Less);
    assert_eq!(compare("file10.txt", "file2.txt"), Ordering::Greater);
    assert_eq!(compare("item200", "item3"), Ordering::Greater);
    assert_eq!(compare("aaa", "bbb"), Ordering::Less);
}

#[test]
fn compare_ignores_zeros_in_front_of_a_number() {
    assert_eq!(compare("007", "7"), Ordering::Equal);
    assert_eq!(compare("7", "007"), Ordering::Equal);
    assert_eq!(compare("a007b", "a7b"), Ordering::Equal);
    assert_eq!(compare("0", "000"), Ordering::Equal);
    assert_eq!(compare("0", "1"), Ordering::Less);
}

#[test]
fn compare_goes_on_behind_numbers_that_are_equal() {
    assert_eq!(compare("007x", "7y"), Ordering::Less);
    assert_eq!(compare("007y", "7x"), Ordering::Greater);
    assert_eq!(compare("1a", "1b"), Ordering::Less);
    assert_eq!(compare("1b", "1a"), Ordering::Greater);
    assert_eq!(compare("v1.10", "v1.9"), Ordering::Greater);
    assert_eq!(compare("v1.10", "v01.10"), Ordering::Equal);
    assert_eq!(compare("7", "7x"), Ordering::Less);
    assert_eq!(compare("007x", "7"), Ordering::Greater);
    assert_eq!(compare("1-2", "1-10"), Ordering::Less);
}

#[test]
fn compare_of_numbers_beyond_any_machine_word() {
    let a = "n2394576324798376549846593798375464985763947932753984769845769847569837659845769845679845768457694569485765464543";
    let b = "n2394576324798376549846593798375464985763947932753984769845769847569837659845769845679845768457694569485765464544";
    assert!(a.len() > 100);
    assert_eq!(compare(a, b), Ordering::Less);
    assert_eq!(compare(b, a), Ordering::Greater);
    assert_eq!(compare(a, a), Ordering::Equal);
    assert_eq!(compare("18446744073709551616", "18446744073709551617"), Ordering::Less);
    assert_eq!(compare("18446744073709551616", "0"), Ordering::Greater);
    assert_eq!(compare("4294967296", "0"), Ordering::Greater);
}

#[test]
fn compare_puts_a_prefix_first() {
    assert_eq!(compare("apple", "apples"), Ordering::Less);
    assert_eq!(compare("apples", "apple"), Ordering::Greater);
    assert_eq!(compare("apples", "apples"), Ordering::Equal);
    assert_eq!(compare("a1", "a1b"), Ordering::Less);
}

#[test]
fn compare_with_the_empty_text() {
    assert_eq!(compare("", ""), Ordering::Equal);
    assert_eq!(compare("", "a"), Ordering::Less);
    assert_eq!(compare("a", ""), Ordering::Greater);
    assert_eq!(compare("", "0"), Ordering::Less);
    assert_eq!(compare("0", ""), Ordering::Greater);
}

#[test]
fn compare_at_the_border_of_digits_and_other_characters() {
    assert_eq!(compare("x101", "x1000"), Ordering::Less);
    // A digit against another character: by code point.
    assert_eq!(compare("a1", "ab"), Ordering::Less);
    assert_eq!(compare("ab", "a1"), Ordering::Greater);
    assert_eq!(compare("a1", "a-"), Ordering::Greater);
    assert_eq!(compare("a-", "a1"), Ordering::Less);
    assert_eq!(compare("a/", "a0"), Ordering::Less);
    assert_eq!(compare("a:", "a9"), Ordering::Greater);
    assert_eq!(compare("9", ":"), Ordering::Less);
    assert_eq!(compare("100", ":"), Ordering::Less);
    assert_eq!(compare("100", "/"), Ordering::Greater);
}

#[test]
fn compare_tells_upper_from_lower_case() {
    assert_eq!(compare("Zebra", "apple"), Ordering::Less);
    assert_eq!(compare("apple", "Zebra"), Ordering::Greater);
    assert_eq!(compare("a", "A"), Ordering::Greater);
}

#[test]
fn compare_goes_by_scalar_value() {
    assert_eq!(compare("\u{e9}", "z"), Ordering::Greater);
    assert_eq!(compare("z", "\u{e9}"), Ordering::Less);
    assert_eq!(compare("\u{e9}2", "\u{e9}10"), Ordering::Less);
    assert_eq!(compare("\u{1f600}", "\u{ffff}"), Ordering::Greater);
    // Digits of other scripts are plain characters.
    assert_eq!(compare("\u{662}", "\u{661}\u{660}"), Ordering::Greater);
}

const SAMPLES: [&str; 24] = [
    "", "0", "00", "1", "01", "001", "9", "10", "010", "a", "a0", "a00", "a1", "a01", "a1b",
    "a01b", "a1c", "a10", "a2", "ab", "/", ":", "1a", "1:",
];

fn flip(o: Ordering) -> Ordering {
    match o {
        Ordering::Less => Ordering::Greater,
        Ordering::Equal => Ordering::Equal,
        Ordering::Greater => Ordering::Less,
    }
}

#[test]
fn compare_is_reflexive_and_antisymmetric_on_samples() {
    for a in SAMPLES {
        assert_eq!(compare(a, a), Ordering::Equal);
        for b in SAMPLES {
            assert_eq!(compare(b, a), flip(compare(a, b)), "{:?} {:?}", a, b);
        }
    }
}

#[test]
fn compare_is_transitive_on_samples() {
    for a in SAMPLES {
        for b in SAMPLES {
            for c in SAMPLES {
                let ab = compare(a, b);
                let bc = compare(b, c);
                let ac = compare(a, c);
                if ab == Ordering::Less && bc == Ordering::Less {
                    assert_eq!(ac, Ordering::Less, "{:?} {:?} {:?}", a, b, c);
                }
                if ab == Ordering::Equal {
                    assert_eq!(ac, bc, "{:?} {:?} {:?}", a, b, c);
                }
                if bc == Ordering::Equal {
                    assert_eq!(ac, ab, "{:?} {:?} {:?}", a, b, c);
                }
            }
        }
    }
}

#[test]
fn compare_is_equal_exactly_up_to_zeros_in_front() {
    assert_eq!(compare("a1", "a01"), Ordering::Equal);
    assert_eq!(compare("a0", "a00"), Ordering::Equal);
    assert_ne!(compare("a0", "a"), Ordering::Equal);
    assert_ne!(compare("a10", "a1"), Ordering::Equal);
    assert_ne!(compare("a1b", "a1c"), Ordering::Equal);
}

#[test]
fn compare_chars_iters_starts_where_the_iterators_stand() {
    let mut a = "zz9".chars();
    let mut b = "y10".chars();
    a.next();
    a.next();
    b.next();
    assert_eq!(compare_chars_iters(a, b), Ordering::Less);
}

#[test]
fn compare_never_puts_a_text_behind_what_starts_with_it() {
    let whole = "ab007c12\u{e9}0";
    let cuts: Vec<usize> = whole.char_indices().map(|(i, _)| i).collect();
    for &i in &cuts {
        for &j in &cuts {
            if i <= j {
                assert_ne!(compare(&whole[..i], &whole[..j]), Ordering::Greater);
            }
        }
        assert_ne!(compare(&whole[..i], whole), Ordering::Greater);
    }
    // A number at the end that runs on may stay the same number.
    assert_eq!(compare("a0", "a00"), Ordering::Equal);
    assert_eq!(compare("a0", "a00x"), Ordering::Less);
    assert_eq!(compare("a1", "a10"), Ordering::Less);
    assert_eq!(compare("a1", "a1x"), Ordering::Less);
    assert_eq!(compare("a", "a0"), Ordering::Less);
}
