use org_roam_sync::text::{
    byte_len, decimal_string, end_of_line, hex_string, is_whitespace, join_spaced, slice_bytes,
    split_on, split_words, trim,
};

fn owned(parts: &[&str]) -> Vec<String> {
    parts.iter().map(|s| s.to_string()).collect()
}

#[test]
fn white_space_is_that_of_unicode() {
    for n in 0..=0x10ffff {
        if let Some(c) = char::from_u32(n) {
            assert_eq!(is_whitespace(c), c.is_whitespace(), "U+{:04X}", n);
        }
    }
}

#[test]
fn trim_takes_white_space_from_both_ends() {
    for s in ["", " ", " \t\r\n", "a", " a", "a ", "\u{3000}a b\u{a0}", "\u{200b}a", "é \u{85}"] {
        assert_eq!(trim(s), s.trim());
    }
}

#[test]
fn split_on_keeps_empty_pieces() {
    assert_eq!(split_on("", ':'), owned(&[""]));
    assert_eq!(split_on(":a::b:", ':'), owned(&["", "a", "", "b", ""]));
    assert_eq!(split_on("añb", 'ñ'), owned(&["a", "b"]));
}

#[test]
fn words_are_separated_by_white_space() {
    assert_eq!(split_words(""), Vec::<String>::new());
    assert_eq!(split_words("  \t "), Vec::<String>::new());
    assert_eq!(split_words(" one\u{2003}two \n three"), owned(&["one", "two", "three"]));
}

#[test]
fn parts_are_joined_with_spaces() {
    assert_eq!(join_spaced(&vec![]), "");
    assert_eq!(join_spaced(&owned(&["a"])), "a");
    assert_eq!(join_spaced(&owned(&["a", "", "c"])), "a  c");
}

#[test]
fn numbers_are_printed_in_decimal() {
    for n in [0, 7, 10, 99, 100, 1234567890, usize::MAX] {
        assert_eq!(decimal_string(n), format!("{}", n));
    }
}

#[test]
fn bytes_are_printed_in_hexadecimal() {
    assert_eq!(hex_string(&[]), "");
    assert_eq!(hex_string(&[0, 1, 15, 16, 171, 255]), "00010f10abff");
}

#[test]
fn slices_are_cut_by_byte_offsets() {
    let s = "aé\n€b";
    assert_eq!(byte_len(s), 8);
    assert_eq!(slice_bytes(s, 0, 8), s);
    assert_eq!(slice_bytes(s, 1, 3), "é");
    assert_eq!(slice_bytes(s, 4, 7), "€");
    assert_eq!(slice_bytes(s, 8, 8), "");
}

#[test]
fn a_line_ends_behind_its_line_feed() {
    assert_eq!(end_of_line("ab\ncd\n", 0), 3);
    assert_eq!(end_of_line("ab\ncd\n", 2), 3);
    assert_eq!(end_of_line("ab\ncd\n", 3), 6);
    assert_eq!(end_of_line("ab\ncd", 3), 5);
    assert_eq!(end_of_line("", 0), 0);
}
