use sirtea::text::{
    chars_of, has_ellipsis, last_char, push_decimal, push_three_digits, push_two_digits, same_text,
    string_of, trim, visible_range,
};
use sirtea::utterance::{hear, hear_trimmed, words_in_range, RawWord, MAX_MILLIS};

fn raw(start_ms: i64, end_ms: i64, text: &str) -> RawWord {
    RawWord {
        start_ms,
        end_ms,
        text: text.to_string(),
    }
}

#[test]
fn words_are_trimmed_and_empty_ones_dropped() {
    let words = vec![
        raw(0, 250, " Hello"),
        raw(250, 300, "  "),
        raw(300, 1001, "\tthere \u{a0}\n"),
    ];
    let heard = hear(&words);
    assert_eq!(heard.len(), 2);
    assert_eq!(heard[0].text, "Hello");
    assert_eq!((heard[0].start, heard[0].end), (0, 250_000_000));
    assert_eq!(heard[1].text, "there");
    assert_eq!((heard[1].start, heard[1].end), (300_000_000, 1_001_000_000));
}

#[test]
fn given_texts_are_taken_as_they_are() {
    let words = vec![raw(1, 2, "ignored"), raw(3, 4, "ignored")];
    let heard = hear_trimmed(&words, &vec![String::new(), " kept".to_string()]);
    assert_eq!(heard.len(), 1);
    assert_eq!(heard[0].text, " kept");
    assert_eq!(heard[0].start, 3_000_000);
}

#[test]
fn times_must_fit() {
    assert!(words_in_range(&vec![raw(-MAX_MILLIS, MAX_MILLIS, "a")]));
    assert!(!words_in_range(&vec![raw(0, 1, "a"), raw(0, MAX_MILLIS + 1, "b")]));
    assert!(!words_in_range(&vec![raw(-MAX_MILLIS - 1, 0, "a")]));
    assert!(words_in_range(&Vec::new()));
}

#[test]
fn whitespace_inside_a_text_is_kept() {
    assert_eq!(trim("  a b  "), "a b");
    assert_eq!(trim("\u{2003}x\u{2003}"), "x");
    assert_eq!(trim("x"), "x");
    assert_eq!(trim(" \n "), "");
    assert_eq!(visible_range(&vec![true, false, true, false, true]), (1, 4));
    assert_eq!(visible_range(&vec![true, true]), (2, 2));
}

#[test]
fn characters_are_counted_not_bytes() {
    let chars = chars_of("día…");
    assert_eq!(chars, vec!['d', 'í', 'a', '…']);
    assert_eq!(string_of(&chars, 1, 3), "ía");
    assert_eq!(last_char("día…"), Some('…'));
    assert_eq!(last_char(""), None);
}

#[test]
fn three_dots_make_an_ellipsis() {
    assert!(has_ellipsis("so..."));
    assert!(has_ellipsis("...."));
    assert!(!has_ellipsis("so.."));
    assert!(!has_ellipsis("so..,"));
}

#[test]
fn texts_are_compared_by_character() {
    assert!(same_text("", ""));
    assert!(same_text("the", "the"));
    assert!(!same_text("the", "them"));
    assert!(!same_text("the", "The"));
}

#[test]
fn numbers_are_written_in_decimal() {
    let mut out = "n=".to_string();
    push_decimal(&mut out, 0);
    push_decimal(&mut out, 1_002_003);
    assert_eq!(out, "n=01002003");
    let mut out = String::new();
    push_decimal(&mut out, u128::MAX);
    assert_eq!(out, u128::MAX.to_string());
    let mut out = String::new();
    push_two_digits(&mut out, 7);
    push_two_digits(&mut out, 42);
    push_two_digits(&mut out, 123);
    push_three_digits(&mut out, 7);
    push_three_digits(&mut out, 42);
    push_three_digits(&mut out, 1234);
    assert_eq!(out, "07421230070421234");
}
