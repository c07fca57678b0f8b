use grex::RegExpBuilder;

#[test]
fn two_single_letters_alternate() {
    assert_eq!(RegExpBuilder::from(&["a", "b"]).build(), "^(a|b)$");
}

#[test]
fn optional_suffix() {
    assert_eq!(RegExpBuilder::from(&["car", "cars"]).build(), "^cars?$");
}

#[test]
fn digits_become_class() {
    assert_eq!(
        RegExpBuilder::from(&["1", "2", "3"]).with_converted_digit_chars().build(),
        "^\\d$"
    );
}

#[test]
fn repetitions_are_folded() {
    assert_eq!(
        RegExpBuilder::from(&["aa", "aaa"]).with_converted_repetitions().build(),
        "^(a{2}|a{3})$"
    );
}

#[test]
fn no_test_cases() {
    assert_eq!(RegExpBuilder::from(&[]).build(), "^$");
}

#[test]
fn empty_string_only() {
    assert_eq!(RegExpBuilder::from(&[""]).build(), "^$");
}

#[test]
fn astral_char_as_surrogates() {
    assert_eq!(
        RegExpBuilder::from(&["\u{1F4A9}"]).with_escaped_non_ascii_chars(true).build(),
        "^\\u{d83d}\\u{dca9}$"
    );
}

#[test]
fn astral_char_escaped_whole() {
    assert_eq!(
        RegExpBuilder::from(&["\u{1F4A9}"]).with_escaped_non_ascii_chars(false).build(),
        "^\\u{1f4a9}$"
    );
}

#[test]
fn common_suffix_is_shared() {
    assert_eq!(RegExpBuilder::from(&["ab", "cb"]).build(), "^(a|c)b$");
}

#[test]
fn input_order_does_not_matter() {
    let a = RegExpBuilder::from(&["abc", "b", "xy", "abd"]).build();
    let b = RegExpBuilder::from(&["xy", "abd", "b", "abc"]).build();
    assert_eq!(a, b);
}

#[test]
fn duplicates_do_not_matter() {
    let a = RegExpBuilder::from(&["abc", "b"]).build();
    let b = RegExpBuilder::from(&["abc", "b", "abc", "b"]).build();
    assert_eq!(a, b);
}

#[test]
fn metacharacters_are_escaped() {
    assert_eq!(RegExpBuilder::from(&["a.b", "(c)"]).build(), "^(a\\.b|\\(c\\))$");
}

#[test]
fn word_and_space_classes() {
    assert_eq!(
        RegExpBuilder::from(&["a b"]).with_converted_word_chars().with_converted_space_chars().build(),
        "^\\w\\s\\w$"
    );
}

#[test]
fn digit_check_comes_before_word_check() {
    assert_eq!(
        RegExpBuilder::from(&["1a"]).with_converted_digit_chars().with_converted_word_chars().build(),
        "^\\d\\w$"
    );
}

#[test]
fn unit_of_several_clusters_is_grouped() {
    assert_eq!(
        RegExpBuilder::from(&["ababab"]).with_converted_repetitions().build(),
        "^(ab){3}$"
    );
}

#[test]
fn combining_mark_stays_with_its_letter() {
    assert_eq!(RegExpBuilder::from(&["e\u{301}", "e\u{301}s"]).build(), "^e\u{301}s?$");
}

#[test]
fn builder_sorts_its_test_cases() {
    let mut b = RegExpBuilder::from(&["bb", "a", "bb", "ab"]);
    b.build();
    assert_eq!(b.test_cases, vec!["a".to_string(), "ab".to_string(), "bb".to_string()]);
}

#[test]
fn cluster_of_two_chars_is_not_a_word_char() {
    assert_eq!(
        RegExpBuilder::from(&["e\u{301}"]).with_converted_word_chars().build(),
        "^e\u{301}$"
    );
}

#[test]
fn combining_mark_is_escaped() {
    assert_eq!(
        RegExpBuilder::from(&["e\u{301}"]).with_escaped_non_ascii_chars(false).build(),
        "^e\\u{301}$"
    );
}

#[test]
fn single_word_has_no_alternation() {
    assert_eq!(RegExpBuilder::from(&["abc"]).build(), "^abc$");
}

#[test]
fn shared_prefix_is_factored() {
    assert_eq!(RegExpBuilder::from(&["ab", "ac"]).build(), "^a(b|c)$");
}

#[test]
fn empty_string_among_others_makes_optional() {
    assert_eq!(RegExpBuilder::from(&["", "ab"]).build(), "^(ab)?$");
}

#[test]
fn same_build_twice_is_identical() {
    let mut b = RegExpBuilder::from(&["x1", "y22", "x1"]);
    b.with_converted_digit_chars();
    let first = b.build();
    let second = b.build();
    assert_eq!(first, second);
    assert_eq!(first, "^(x\\d|y\\d\\d)$");
}

#[test]
fn repetition_prefers_longest_cover() {
    assert_eq!(
        RegExpBuilder::from(&["aaaa"]).with_converted_repetitions().build(),
        "^a{4}$"
    );
}

#[test]
fn digits_folded_after_class_conversion() {
    assert_eq!(
        RegExpBuilder::from(&["123"])
            .with_converted_digit_chars()
            .with_converted_repetitions()
            .build(),
        "^\\d{3}$"
    );
}

#[test]
fn large_code_point_escape_without_surrogates_keeps_bmp_char() {
    assert_eq!(
        RegExpBuilder::from(&["\u{e9}"]).with_escaped_non_ascii_chars(true).build(),
        "^\\u{e9}$"
    );
}

#[test]
fn cases_are_ordered_by_byte_length() {
    let mut b = RegExpBuilder::from(&["\u{e9}", "ab"]);
    b.build();
    assert_eq!(b.test_cases, vec!["ab".to_string(), "\u{e9}".to_string()]);
}

#[test]
fn earliest_repeat_wins_among_equal_covers() {
    assert_eq!(
        RegExpBuilder::from(&["ababa"]).with_converted_repetitions().build(),
        "^(ab){2}a$"
    );
}
