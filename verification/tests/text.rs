use pubgrub_crates_benchmark::error::SomeError;
use pubgrub_crates_benchmark::report::takes_part;
use pubgrub_crates_benchmark::text::{
    chars_of, contains_char, contains_text, decimal_text, is_before, split_tokens, trim_dep_prefix,
};

#[test]
fn characters_are_listed_in_order() {
    assert_eq!(chars_of("a\u{e9}z"), vec!['a', '\u{e9}', 'z']);
    assert!(chars_of("").is_empty());
}

#[test]
fn a_character_is_found() {
    assert!(contains_char("serde/derive", '/'));
    assert!(!contains_char("serde", '/'));
    assert!(!contains_char("", '/'));
}

#[test]
fn every_leading_dep_prefix_is_stripped() {
    assert_eq!(trim_dep_prefix("dep:serde"), "serde");
    assert_eq!(trim_dep_prefix("dep:dep:serde"), "serde");
    assert_eq!(trim_dep_prefix("serde dep:"), "serde dep:");
    assert_eq!(trim_dep_prefix("dep"), "dep");
    assert_eq!(trim_dep_prefix("dep:"), "");
}

#[test]
fn values_are_cut_at_slashes_and_question_marks() {
    assert_eq!(split_tokens("serde/std"), vec!["serde", "std"]);
    assert_eq!(split_tokens("serde?/std"), vec!["serde", "std"]);
    assert_eq!(split_tokens("/a//b?"), vec!["a", "b"]);
    assert!(split_tokens("?/").is_empty());
    assert_eq!(split_tokens("plain"), vec!["plain"]);
}

#[test]
fn a_text_is_found_anywhere() {
    assert!(contains_text("my-solana-sdk", "solana"));
    assert!(contains_text("solana", "solana"));
    assert!(contains_text("x", ""));
    assert!(!contains_text("solan", "solana"));
    assert!(!contains_text("so-lana", "solana"));
}

#[test]
fn solana_crates_do_not_take_part() {
    assert!(!takes_part("solana-sdk"));
    assert!(!takes_part("spl-solana"));
    assert!(takes_part("serde"));
}

#[test]
fn texts_are_ordered_like_strings() {
    let words = ["", "a", "a-b", "ab", "b", "\u{e9}"];
    for (i, a) in words.iter().enumerate() {
        for (j, b) in words.iter().enumerate() {
            assert_eq!(is_before(a, b), i < j);
            assert_eq!(is_before(a, b), a < b);
        }
    }
}

#[test]
fn numbers_are_written_in_decimal() {
    assert_eq!(decimal_text(0), "0");
    assert_eq!(decimal_text(9), "9");
    assert_eq!(decimal_text(10), "10");
    assert_eq!(decimal_text(90210), "90210");
    assert_eq!(decimal_text(u64::MAX), "18446744073709551615");
}

#[test]
fn the_error_is_shown_by_its_name() {
    assert_eq!(SomeError.text(), "SomeError");
}
