use sirtea::layout::{balance_lines, best_break, MAX_LINE_CHARS};

#[test]
fn balance_avoids_breaking_after_function_word() {
    // The most balanced split lands right after "the"; the break must
    // move to a neighboring space instead.
    let text = "they also have a tendency to do only the exact thing we told";
    let wrapped = balance_lines(text);
    let first_line = wrapped.split('\n').next().expect("has a line");
    assert!(
        !first_line.ends_with(" the") && !first_line.ends_with(" to"),
        "line ends on a function word: {wrapped:?}"
    );
}

#[test]
fn balance_short_text_untouched() {
    assert_eq!(
        balance_lines("I think we might get started."),
        "I think we might get started."
    );
}

#[test]
fn balance_long_text_two_lines() {
    let text = "the biggest problem with print debugging is you start from scratch each time";
    let wrapped = balance_lines(text);
    let lines: Vec<&str> = wrapped.split('\n').collect();
    assert_eq!(lines.len(), 2);
    for line in &lines {
        assert!(
            line.chars().count() <= MAX_LINE_CHARS,
            "line too long: {line:?}"
        );
        assert!(!line.starts_with(' ') && !line.ends_with(' '));
    }
    assert_eq!(
        wrapped.replace('\n', " "),
        text,
        "wrapping must not alter words"
    );
}

#[test]
fn balance_prefers_clause_punctuation_near_center() {
    // The comma sits a little off-center; a pure balance split would
    // break elsewhere, but the clause boundary should win.
    let text = "they also have a tendency to do, only exactly what we told them to";
    let wrapped = balance_lines(text);
    assert_eq!(
        wrapped,
        "they also have a tendency to do,\nonly exactly what we told them to"
    );
}

#[test]
fn balance_leaves_one_giant_token_alone() {
    let token = "x".repeat(100);
    assert_eq!(balance_lines(&token), token);
}

#[test]
fn balance_breaks_around_an_overlong_token() {
    // No space yields two fitting lines; the least bad one is still broken.
    let text = format!("{} tail", "x".repeat(60));
    assert_eq!(balance_lines(&text), format!("{}\ntail", "x".repeat(60)));
}

#[test]
fn best_break_takes_the_earlier_of_two_equal_spaces() {
    // "aaaa b cccc": breaking at 4 or at 6 is equally uneven.
    let chars: Vec<char> = "aaaa b cccc".chars().collect();
    let plain = vec![false; chars.len()];
    assert_eq!(best_break(&chars, &plain), Some(4));
    let mut flagged = plain.clone();
    flagged[4] = true;
    assert_eq!(best_break(&chars, &flagged), Some(6));
    let none: Vec<char> = "aaaa".chars().collect();
    assert_eq!(best_break(&none, &vec![false; 4]), None);
}
