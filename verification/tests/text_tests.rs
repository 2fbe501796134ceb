use inboxid::text::{
    chars_of, contains_char, ends_with, find_char, is_whitespace, join, parse_u32_str,
    remove_char, split_words, str_eq, string_of, trim_chars, u32_to_string, u64_to_string,
};

#[test]
fn strings_and_characters_convert_both_ways() {
    assert_eq!(chars_of("a\u{e9}z"), vec!['a', '\u{e9}', 'z']);
    assert_eq!(string_of(&vec!['x', 'y']), "xy");
    assert_eq!(string_of(&chars_of("Gr\u{fc}\u{df}e")), "Gr\u{fc}\u{df}e");
    assert!(str_eq("abc", "abc"));
    assert!(!str_eq("abc", "abd"));
    assert!(!str_eq("abc", "ab"));
}

#[test]
fn characters_are_found_and_removed() {
    assert!(contains_char("RST", 'S'));
    assert!(!contains_char("RT", 'S'));
    assert_eq!(remove_char("SaSbS", 'S'), "ab");
    assert_eq!(remove_char("", 'S'), "");
    assert_eq!(find_char(&chars_of("12_34_5"), '_'), 2);
    assert_eq!(find_char(&chars_of("1234"), '_'), 4);
}

#[test]
fn decimal_notation_is_exact() {
    assert_eq!(u32_to_string(0), "0");
    assert_eq!(u32_to_string(10), "10");
    assert_eq!(u32_to_string(4294967295), "4294967295");
    assert_eq!(u64_to_string(4294967296), "4294967296");
    assert_eq!(u64_to_string(18446744073709551615), "18446744073709551615");
}

#[test]
fn decimal_literals_are_read_as_std_reads_them() {
    let cases = ["0", "7", "+7", "007", "4294967295", "4294967296", "", "+", "-1", "1a", " 1",
        "99999999999999999999", "+0"];
    for s in cases {
        assert_eq!(parse_u32_str(s), s.parse::<u32>().ok(), "{:?}", s);
    }
}

#[test]
fn suffixes_are_recognised() {
    assert!(ends_with("<a_1_2@no-message-id>", "@no-message-id>"));
    assert!(!ends_with("<a@host>", "@no-message-id>"));
    assert!(ends_with("abc", ""));
    assert!(!ends_with("c", "bc"));
}

#[test]
fn parts_are_joined_with_the_separator() {
    assert_eq!(join(&vec![], " "), "");
    assert_eq!(join(&vec!["a".to_string()], " "), "a");
    assert_eq!(join(&vec!["a".to_string(), "".to_string(), "b".to_string()], ", "), "a, , b");
}

#[test]
fn white_space_is_unicode_white_space() {
    for code in 0u32..0x3100 {
        if let Some(c) = char::from_u32(code) {
            assert_eq!(is_whitespace(c), c.is_whitespace(), "{:x}", code);
        }
    }
}

#[test]
fn trimming_takes_white_space_from_both_ends() {
    assert_eq!(string_of(&trim_chars(&chars_of("  100 \n"))), "100");
    assert_eq!(string_of(&trim_chars(&chars_of("a b"))), "a b");
    assert_eq!(string_of(&trim_chars(&chars_of(" \t "))), "");
    assert_eq!(string_of(&trim_chars(&chars_of(""))), "");
}

#[test]
fn words_are_the_runs_between_white_space() {
    assert_eq!(split_words("<a@x>  <b@y>\t<c@z>"), vec!["<a@x>", "<b@y>", "<c@z>"]);
    assert_eq!(split_words("  one "), vec!["one"]);
    assert!(split_words(" \n ").is_empty());
    assert!(split_words("").is_empty());
}
