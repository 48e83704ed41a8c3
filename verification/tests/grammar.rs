use sirtea::grammar::{
    ends_sentence, ends_with_final_punctuation, is_function_word, is_listed_function_word,
    kinds_of, opens_sentence, stem_length, CharKind,
};

#[test]
fn function_word_detection() {
    assert!(is_function_word("the"));
    assert!(is_function_word("The"));
    assert!(is_function_word("we"));
    // Trailing punctuation is stripped before matching (though callers
    // treat punctuated boundaries as clause breaks first).
    assert!(is_function_word("to"));
    assert!(!is_function_word("computer"));
    assert!(!is_function_word("debugging"));
}

#[test]
fn sentence_end_detection() {
    // Ordinary sentence ends, with and without a following word.
    assert!(ends_sentence("started.", Some("If")));
    assert!(ends_sentence("started.", None));
    assert!(ends_sentence("right?", Some("Yes")));
    assert!(ends_sentence("statements.\"", Some("And")));
    // Abbreviations followed by a lowercase word are not sentence ends.
    assert!(!ends_sentence("e.g.", Some("apples")));
    assert!(!ends_sentence("Dr.", Some("who")));
    // No sentence-final punctuation at all.
    assert!(!ends_sentence("started", Some("If")));
    assert!(!ends_sentence("started,", Some("If")));
}

#[test]
fn sentence_starts_are_capitals_or_numbers() {
    assert!(ends_sentence("done.", Some("42")));
    assert!(ends_sentence("done.", Some("\u{bd}")));
    assert!(ends_sentence("done.", Some("\u{201c}Élan")));
    assert!(!ends_sentence("done.", Some("\u{201c}élan")));
    assert!(!ends_sentence("done.", Some("...")));
    assert!(!ends_sentence("done.", Some("")));
}

#[test]
fn closing_marks_are_looked_through() {
    assert!(ends_with_final_punctuation("done!)'\u{201d}"));
    assert!(ends_with_final_punctuation("so..."));
    for word in ["done.", "done", "why?", ""] {
        let plain = ends_with_final_punctuation(word);
        assert_eq!(ends_with_final_punctuation(&format!("{word}\"')")), plain);
    }
    for word in ["Yes", "yes", "7up", ""] {
        let plain = ends_sentence("done.", Some(word));
        assert_eq!(ends_sentence("done.", Some(&format!("(\"- {word}"))), plain);
    }
    assert!(!ends_with_final_punctuation("(done)"));
    assert!(!ends_with_final_punctuation("\"'"));
    assert!(!ends_with_final_punctuation(""));
}

#[test]
fn punctuation_does_not_hide_function_words() {
    assert!(is_function_word("Because,"));
    assert!(is_function_word("EVERY?!"));
    for word in ["because", "the", "cat", "don't", "x2"] {
        let plain = is_function_word(word);
        assert_eq!(is_function_word(&word.to_ascii_uppercase()), plain);
        assert_eq!(is_function_word(&format!("{word}.\u{201d} -")), plain);
    }
    assert!(!is_function_word("(the"));
    assert!(!is_function_word(""));
    assert!(!is_function_word("..."));
}

#[test]
fn each_kind_of_function_word_is_listed() {
    for word in ["an", "yet", "between", "whose", "might", "their", "those", "quite", "each"] {
        assert!(is_listed_function_word(word), "{word}");
    }
    for word in ["", "The", "cat", "thee"] {
        assert!(!is_listed_function_word(word), "{word}");
    }
}

#[test]
fn character_kinds_follow_unicode() {
    let kinds = kinds_of(&vec!['A', 'b', '7', '-']);
    let kind = |alphanumeric, uppercase, numeric| CharKind {
        alphanumeric,
        uppercase,
        numeric,
    };
    assert_eq!(
        kinds,
        vec![
            kind(true, true, false),
            kind(true, false, false),
            kind(true, false, true),
            kind(false, false, false),
        ]
    );
    assert_eq!(stem_length(&kinds), 3);
    assert!(opens_sentence(&kinds));
    assert!(!opens_sentence(&kinds[1..].to_vec()));
    assert!(!opens_sentence(&kinds[3..].to_vec()));
    assert_eq!(stem_length(&kinds[3..].to_vec()), 0);
}
