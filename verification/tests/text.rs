use rsou::text::{
    char_width, chars_of, contains_chars, decimal_of, decode, holds_char, is_boundary, is_digit,
    is_letter, is_space, join, join_two, len_of, lowered_of, parse_number, part_of, same,
    same_chars, slice_of, split_words, stands_at, string_of, to_lower, to_lowered, trim, trim_chars,
};

#[test]
fn spaces_are_those_of_unicode() {
    for c in '\0'..=char::MAX {
        assert_eq!(is_space(c), c.is_whitespace(), "{:?}", c);
    }
}

#[test]
fn letters_and_digits_are_ascii() {
    for c in '\0'..=char::MAX {
        assert_eq!(is_letter(c), c.is_ascii_alphabetic());
        assert_eq!(is_digit(c), c.is_ascii_digit());
        assert_eq!(to_lower(c), c.to_ascii_lowercase());
        assert_eq!(char_width(c), c.len_utf8());
    }
}

#[test]
fn boundaries_are_those_of_std() {
    let text = "a文😀é";
    for b in 0..text.len() + 3 {
        assert_eq!(is_boundary(text, b), text.is_char_boundary(b), "{b}");
    }
    assert_eq!(len_of(text), text.len());
    assert_eq!(slice_of(text, 1, 4), "文");
}

#[test]
fn bytes_are_decoded_where_valid() {
    assert_eq!(decode("文".as_bytes()).as_deref(), Some("文"));
    assert!(decode(&[0xe6, 0x96]).is_none());
    assert!(decode(&[0xc0, 0x80]).is_none());
    assert_eq!(decode(&[]).as_deref(), Some(""));
}

#[test]
fn words_are_split_at_spaces() {
    assert_eq!(split_words("  a \u{3000}b\nc "), ["a", "b", "c"]);
    assert!(split_words(" \t").is_empty());
    assert_eq!(trim("\u{3000} a b \n"), "a b");
    assert_eq!(trim(" "), "");
    assert_eq!(trim_chars(&chars_of(" x ")), ['x']);
}

#[test]
fn numbers_are_read_and_written() {
    for n in [0, 7, 10, 1234567890, u64::MAX] {
        assert_eq!(decimal_of(n), n.to_string());
        assert_eq!(parse_number(&n.to_string()), Some(n));
    }
    for text in ["", "+", "-1", "1a", "18446744073709551616", " 1", "+5", "007"] {
        assert_eq!(parse_number(text), text.parse::<u64>().ok(), "{text}");
    }
}

#[test]
fn parts_and_joins() {
    let chars = chars_of("aB文");
    assert_eq!(string_of(&chars, 1, 3), "B文");
    assert_eq!(lowered_of(&chars, 0, 2), "ab");
    assert_eq!(to_lowered("AÉ"), "aÉ");
    assert_eq!(part_of(&chars, 1, 2), ['B']);
    assert!(same("a", "a") && !same("a", "b") && !same("a", "aa"));
    assert!(same_chars(&chars, &chars_of("aB文")));
    assert!(holds_char(&chars, 'B') && !holds_char(&chars, 'b'));
    assert!(stands_at(&chars, &chars_of("B文"), 1));
    assert!(!stands_at(&chars, &chars_of("B文"), 2));
    assert!(contains_chars(&chars, &chars_of("文")));
    assert!(!contains_chars(&chars, &chars_of("文文")));
    assert_eq!(join(&vec!["a".to_owned(), "b".to_owned()], ", "), "a, b");
    assert_eq!(join(&vec![], ", "), "");
    assert_eq!(join_two("a", "b"), "ab");
}
