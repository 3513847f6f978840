use mtree::text::{chars_of, decimal_text, parse_number, replace, same, starts_with_dash};

#[test]
fn same_compares_whole_texts() {
    assert!(same("", ""));
    assert!(same("-D", "-D"));
    assert!(!same("-D", "-L"));
    assert!(!same("-D", "-D "));
    assert!(same("│   ", "│   "));
}

#[test]
fn dash_is_looked_for_in_front() {
    assert!(starts_with_dash("-"));
    assert!(starts_with_dash("-D"));
    assert!(starts_with_dash("--help"));
    assert!(!starts_with_dash(""));
    assert!(!starts_with_dash("a-b"));
    assert!(!starts_with_dash("é-"));
}

#[test]
fn chars_are_taken_one_by_one() {
    assert_eq!(chars_of(""), Vec::<char>::new());
    assert_eq!(chars_of("a│b"), vec!['a', '│', 'b']);
}

#[test]
fn numbers_are_read_like_the_standard_library_reads_them() {
    let largest = usize::MAX.to_string();
    let too_large = format!("{largest}0");
    let one_more = {
        let mut digits = largest.clone().into_bytes();
        *digits.last_mut().unwrap() += 1;
        String::from_utf8(digits).unwrap()
    };
    for text in [
        "0", "7", "10", "42", "007", "+0", "+15", "", "+", "-", "-0", "-5", "++1", "+-1", "1+",
        "12a", "a12", " 12", "12 ", "1_000", "1.0", "0x1f", "٣", "１２", &largest, &too_large,
        &one_more, "000000000000000000000000000000000000000001",
    ] {
        assert_eq!(parse_number(text), text.parse::<usize>().ok(), "{text:?}");
    }
    assert_eq!(parse_number("42"), Some(42));
    assert_eq!(parse_number(&largest), Some(usize::MAX));
    assert_eq!(parse_number(&one_more), None);
}

#[test]
fn numbers_are_written_in_decimal() {
    assert_eq!(decimal_text(0), "0");
    assert_eq!(decimal_text(7), "7");
    assert_eq!(decimal_text(10), "10");
    assert_eq!(decimal_text(1234567890), "1234567890");
    assert_eq!(decimal_text(usize::MAX), usize::MAX.to_string());
}

#[test]
fn written_numbers_are_read_back() {
    for n in [0, 1, 9, 10, 99, 100, 65535, usize::MAX - 1, usize::MAX] {
        assert_eq!(parse_number(&decimal_text(n)), Some(n));
    }
}

#[test]
fn replace_takes_occurrences_from_the_left() {
    assert_eq!(replace("mtree <version>", "<version>", "1.2"), "mtree 1.2");
    assert_eq!(replace("<v><v>", "<v>", "x"), "xx");
    assert_eq!(replace("aaa", "aa", "b"), "ba");
    assert_eq!(replace("aaaa", "aa", "b"), "bb");
    assert_eq!(replace("abc", "d", "x"), "abc");
    assert_eq!(replace("", "d", "x"), "");
    assert_eq!(replace("ab", "abc", "x"), "ab");
    assert_eq!(replace("abab", "ab", ""), "");
    assert_eq!(replace("x│y│", "│", "|"), "x|y|");
    assert_eq!(replace("aXbXc", "X", "XX"), "aXXbXXc");
}

#[test]
fn replace_agrees_with_the_standard_library() {
    for (text, from, to) in [
        ("<build_time> and <build_time>", "<build_time>", "2026-01-01"),
        ("ababab", "aba", "-"),
        ("mississippi", "ss", "SS"),
        ("mississippi", "issi", "_"),
        ("abc", "abc", ""),
        ("ééé", "é", "e"),
    ] {
        assert_eq!(replace(text, from, to), text.replace(from, to));
    }
}
