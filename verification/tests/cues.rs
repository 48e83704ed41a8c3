use sirtea::cues::{
    boundary_cost, boundary_cost_given, build_cues, build_cues_given, pauses_after,
    split_sentence_given, split_sentence_into_cues, BOUNDARY_CLAUSE, BOUNDARY_COLON, BOUNDARY_NONE, BOUNDARY_PAUSE,
    FUNCTION_WORD_BREAK_PENALTY,
};
use sirtea::layout::{balance_lines, MAX_LINE_CHARS};
use sirtea::segmentation::{
    cheapest_cuts, display_cap, est_spoken_nanos, lingers_until, CUE_LINGER_NANOS, MAX_CUE_NANOS,
    MIN_CUE_CHARS,
};
use sirtea::utterance::{Utterance, SECOND};

fn nanos(secs: f64) -> i64 {
    (secs * 1e9).round() as i64
}

/// Construct a word-level `Utterance`.
fn w(start: f64, end: f64, text: &str) -> Utterance {
    Utterance {
        start: nanos(start),
        end: nanos(end),
        text: text.to_string(),
    }
}

/// Build contiguous word timestamps from text, one word every `pace` seconds.
fn words_at_pace(text: &str, start: f64, pace: f64) -> Vec<Utterance> {
    text.split_whitespace()
        .enumerate()
        .map(|(i, word)| w(start + i as f64 * pace, start + (i + 1) as f64 * pace, word))
        .collect()
}

/// Every cue must wrap into at most two lines of at most `MAX_LINE_CHARS` (the escape hatch
/// for a lone over-long word is exercised by a dedicated test, not by these fixtures).
fn assert_cue_fits_envelope(cue: &Utterance) {
    let wrapped = balance_lines(&cue.text);
    let lines: Vec<&str> = wrapped.split('\n').collect();
    assert!(lines.len() <= 2, "too many lines: {wrapped:?}");
    for line in lines {
        assert!(
            line.chars().count() <= MAX_LINE_CHARS,
            "line too long: {line:?} in {wrapped:?}"
        );
    }
    assert!(cue.end - cue.start <= MAX_CUE_NANOS, "too slow: {cue:?}");
}

/// Invariants that must hold for any `build_cues` output: no dropped, duplicated, or
/// reordered words; sane, non-overlapping timestamps.
fn assert_cue_invariants(words: &[Utterance], cues: &[Utterance]) {
    let original = words
        .iter()
        .map(|w| w.text.as_str())
        .collect::<Vec<_>>()
        .join(" ");
    let rebuilt = cues
        .iter()
        .map(|c| c.text.as_str())
        .collect::<Vec<_>>()
        .join(" ");
    assert_eq!(original, rebuilt, "cue text must round-trip the words");
    for pair in cues.windows(2) {
        assert!(
            pair[0].start < pair[1].start,
            "cue starts must strictly increase: {pair:?}"
        );
        assert!(
            pair[0].end <= pair[1].start,
            "cues must not overlap: {pair:?}"
        );
    }
    for cue in cues {
        assert!(
            cue.start < cue.end,
            "cue must have positive duration: {cue:?}"
        );
    }
    if let (Some(first_word), Some(first_cue)) = (words.first(), cues.first()) {
        assert_eq!(first_word.start, first_cue.start);
    }
}

#[test]
fn cues_empty_input() {
    assert!(build_cues(&[]).is_empty());
}

#[test]
fn cues_short_sentence_roundtrips() {
    let words = words_at_pace("I think we might as well get started.", 0.5, 0.3);
    let cues = build_cues(&words);
    assert_cue_invariants(&words, &cues);
    assert_eq!(cues.len(), 1);
    assert_eq!(cues[0].text, "I think we might as well get started.");
    assert_eq!(cues[0].start, nanos(0.5));
}

#[test]
fn cues_run_on_sentence_splits_at_commas() {
    // ~200 chars of comma-separated clauses; every cue must fit the limits and every
    // internal break must land on a comma.
    let text = "as great as computers are in terms of being a tool, \
                they also have a tendency to do only exactly what we told them, \
                which is not necessarily what we intended for them to do, \
                and hence the need for debugging and profiling today.";
    let words = words_at_pace(text, 0.0, 0.28);
    let cues = build_cues(&words);
    assert_cue_invariants(&words, &cues);
    assert!(cues.len() > 1, "a 200+ char sentence must split");
    for cue in &cues {
        assert_cue_fits_envelope(cue);
    }
    for cue in &cues[..cues.len() - 1] {
        assert!(cue.text.ends_with(','), "break not at a comma: {cue:?}");
    }
}

#[test]
fn cues_unpunctuated_stream_forced_breaks() {
    let text = vec!["word"; 100].join(" ");
    let words = words_at_pace(&text, 0.0, 0.3);
    let cues = build_cues(&words);
    assert_cue_invariants(&words, &cues);
    for cue in &cues {
        assert!(!cue.text.is_empty());
        assert_cue_fits_envelope(cue);
    }
}

#[test]
fn cues_never_merge_sentences() {
    // Both sentences would fit in one cue, but sentences stay separate.
    let words = words_at_pace("Cool. So today we will talk about debugging.", 0.0, 0.3);
    let cues = build_cues(&words);
    assert_cue_invariants(&words, &cues);
    assert_eq!(cues.len(), 2);
    assert_eq!(cues[0].text, "Cool.");
    assert_eq!(cues[1].text, "So today we will talk about debugging.");
}

#[test]
fn cues_no_orphan_tail() {
    // 18 unpunctuated 4-char words: too much for one cue, and every possible split costs
    // the same; without a char-based short-cue penalty, the tie would resolve to a maximal
    // first cue plus a lone-word crumb.
    let text = vec!["word"; 18].join(" ");
    let words = words_at_pace(&text, 0.0, 0.3);
    let cues = build_cues(&words);
    assert_cue_invariants(&words, &cues);
    assert!(cues.len() > 1);
    for cue in &cues {
        assert!(
            cue.text.chars().count() >= MIN_CUE_CHARS,
            "crumb cue: {cue:?}"
        );
    }
}

#[test]
fn cues_trailing_pause_does_not_force_crumb() {
    // A sentence long enough to need one split, whose final word absorbs a long silence.
    // The duration limit must be judged on the displayed cue, not the raw end.
    let text = "stick a bunch of print statements that print out information \
                that helps you think through what the program is doing.";
    let mut words = words_at_pace(text, 0.0, 0.3);
    words.last_mut().expect("test text is non-empty").end += nanos(6.0);
    let cues = build_cues(&words);
    assert_cue_invariants(&words, &cues);
    assert!(cues.len() > 1, "sentence over two lines' worth must split");
    for cue in &cues {
        assert!(
            cue.text.chars().count() >= MIN_CUE_CHARS,
            "crumb cue: {cue:?}"
        );
    }
}

#[test]
fn cues_split_when_no_balanced_break_exists() {
    // Three 26-char words: 80 chars total, under two lines' worth of characters, but no
    // word boundary splits it into two fitting lines.
    let long = "a".repeat(26);
    let text = format!("{long} {long} {long}");
    let words = words_at_pace(&text, 0.0, 0.8);
    let cues = build_cues(&words);
    assert_cue_invariants(&words, &cues);
    assert_eq!(cues.len(), 2);
    for cue in &cues {
        assert_cue_fits_envelope(cue);
    }
}

#[test]
fn cues_lone_overlong_word_passes_through() {
    let word = "a".repeat(100);
    let words = vec![w(0.0, 2.0, &word)];
    let cues = build_cues(&words);
    assert_eq!(cues.len(), 1);
    assert_eq!(cues[0].text, word);
}

#[test]
fn cues_split_at_inferred_pause_over_comma() {
    // A sentence too long for one cue, containing both a comma boundary and (later) a word
    // with heavily inflated duration. The pause must win as the split point, and the cue
    // ending there must have its display time trimmed.
    let mut words = words_at_pace(
        "so this is where we get things like logging instead, \
         and logging is really just a more principled use of print statements",
        0.0,
        0.28,
    );
    // Inflate "instead," (word index 9): 4s of absorbed silence. All later words shift by
    // 4s to stay contiguous.
    for word in &mut words[10..] {
        word.start += nanos(4.0);
        word.end += nanos(4.0);
    }
    words[9].end += nanos(4.0);
    let cues = build_cues(&words);
    assert_cue_invariants(&words, &cues);
    assert!(
        cues[0].text.ends_with("instead,"),
        "should split at the pause: {cues:?}"
    );
    // Display end trimmed: at the estimated end of speech, far from the raw end.
    let last_word = &words[9];
    let est_end =
        last_word.start as i128 + est_spoken_nanos(&last_word.text) + CUE_LINGER_NANOS as i128;
    assert!(
        (cues[0].end as i128 - est_end).abs() < 1,
        "cue end {} should be trimmed to ~{est_end}",
        cues[0].end
    );
    assert!(cues[0].end < last_word.end - nanos(2.0));
}

#[test]
fn cues_avoid_breaking_after_function_word() {
    // 18 unpunctuated words force one mid-clause split, and the no-penalty tie region is
    // seeded with "the": the break must slide off the function word onto a content word.
    let mut word_list = vec!["word"; 18];
    word_list[12] = "them";
    word_list[11] = "the";
    let text = word_list.join(" ");
    let words = words_at_pace(&text, 0.0, 0.3);
    let cues = build_cues(&words);
    assert_cue_invariants(&words, &cues);
    assert!(cues.len() > 1);
    for cue in &cues[..cues.len() - 1] {
        let last_word = cue.text.split(' ').next_back().expect("cue not empty");
        assert_ne!(last_word, "the", "cue ends on a function word: {cue:?}");
    }
}

#[test]
fn cues_gapped_timestamps_pause_and_linger() {
    // A run-on sentence with a 4s gap (tight word ends) after "instead,": the pause must
    // still be detected as a split point, and the first cue must linger a little into the
    // gap without reaching the next cue's start.
    let text =
        "So we run the program again with the flag instead, and then we see the output change";
    let mut words = words_at_pace(text, 0.0, 0.3);
    for word in &mut words {
        // Tighten every word to its estimated spoken duration so that silence exists only
        // as the inter-word gap below.
        word.end = word.start + nanos(0.25);
    }
    for word in &mut words[10..] {
        word.start += nanos(4.0);
        word.end += nanos(4.0);
    }
    let cues = build_cues(&words);
    assert_cue_invariants(&words, &cues);
    assert!(
        cues[0].text.ends_with("instead,"),
        "should split at the gap pause: {cues:?}"
    );
    // The first cue lingers past its final word's tight raw end, but never up to the next
    // word's start.
    let last_word = &words[9];
    assert!(
        cues[0].end > last_word.end,
        "cue should linger into the gap: end {} vs raw end {}",
        cues[0].end,
        last_word.end
    );
    assert!(cues[0].end < words[10].start);
}

#[test]
fn cue_times_are_exact() {
    // "Yes." is said in 0.25 + 4 * 0.09 = 0.61s and lingers to 1.11s; nothing caps it.
    let cues = build_cues(&[w(0.0, 3.0, "Yes."), w(5.0, 5.2, "No.")]);
    assert_eq!(cues.len(), 2);
    assert_eq!((cues[0].start, cues[0].end), (0, 1_110_000_000));
    // The last word's own end is the cap, even below the readability floor.
    assert_eq!(
        (cues[1].start, cues[1].end),
        (5_000_000_000, 5_200_000_000)
    );
}

#[test]
fn readability_floor_holds_until_next_word() {
    // "A." lingers to 0.25 + 2 * 0.09 + 0.5 = 0.93s, below the floor of one second.
    let cues = build_cues(&[w(0.0, 0.2, "A."), w(5.0, 6.0, "B")]);
    assert_eq!(cues[0].end, SECOND);
    // The next word's start is the cap.
    let cues = build_cues(&[w(0.0, 0.2, "A."), w(0.5, 6.0, "B")]);
    assert_eq!(cues[0].end, 500_000_000);
}

#[test]
fn abbreviation_does_not_end_a_cue() {
    let cues = build_cues(&words_at_pace("see e.g. apples here", 0.0, 0.3));
    assert_eq!(cues.len(), 1);
    assert_eq!(cues[0].text, "see e.g. apples here");
}

#[test]
fn boundary_costs_are_exact() {
    let at = |text: &str, next: f64| boundary_cost(&w(0.0, 0.3, text), nanos(next));
    assert_eq!(at("tool,", 0.3), BOUNDARY_CLAUSE);
    assert_eq!(at("well...", 0.3), BOUNDARY_CLAUSE);
    assert_eq!(at("this:", 0.3), BOUNDARY_COLON);
    assert_eq!(at("this;", 0.3), BOUNDARY_COLON);
    assert_eq!(at("tool", 0.3), BOUNDARY_NONE);
    assert_eq!(at("we", 0.3), BOUNDARY_NONE + FUNCTION_WORD_BREAK_PENALTY);
    // "tool" takes 0.25 + 4 * 0.09 = 0.61s; 0.8s of silence after it make a pause. The
    // floating-point number nearest to 1.41 leaves a little less.
    assert_eq!(at("tool", 1.41), BOUNDARY_NONE);
    assert_eq!(
        boundary_cost(&w(0.0, 0.3, "tool"), nanos(1.41) + 1),
        BOUNDARY_PAUSE
    );
    assert_eq!(at("tool,", 9.0), BOUNDARY_PAUSE);
    assert_eq!(
        boundary_cost_given(&w(0.0, 0.3, "tool"), 0, true),
        BOUNDARY_NONE + FUNCTION_WORD_BREAK_PENALTY
    );
}

#[test]
fn close_calls_on_pauses_follow_floating_point() {
    let mut pauses = 0;
    for start_ms in (0..200_000i64).step_by(37) {
        for len in [1usize, 4, 9] {
            let text = "x".repeat(len);
            for off_ms in [-1i64, 0, 1] {
                let next_ms = start_ms + 250 + 90 * len as i64 + 800 + off_ms;
                let (start, next) = (start_ms as f64 / 1000.0, next_ms as f64 / 1000.0);
                let silence = (next - start) - (0.25 + 0.09 * len as f64);
                let word = Utterance {
                    start: start_ms * 1_000_000,
                    end: start_ms * 1_000_000,
                    text: text.clone(),
                };
                let pause = pauses_after(&word, next_ms * 1_000_000);
                assert_eq!(pause, silence >= 0.8, "{start_ms} {len} {off_ms}");
                pauses += pause as usize;
            }
        }
    }
    assert!(pauses > 0);
}

#[test]
fn close_calls_on_the_limit_follow_floating_point() {
    let mut joined = [0, 0];
    for start_ms in (0..100_000i64).step_by(53) {
        for len in [2usize, 5, 11] {
            for off_ms in [-1i64, 0, 1] {
                // Two words that are shown for seven seconds, or a millisecond more or less.
                let last_ms = start_ms + 7000 - 500 - 250 - 90 * len as i64 + off_ms;
                let (start, last) = (start_ms as f64 / 1000.0, last_ms as f64 / 1000.0);
                let until = last + (0.25 + 0.09 * len as f64) + 0.5;
                let word = |ms: i64, text: &str| Utterance {
                    start: ms * 1_000_000,
                    end: (ms + 60_000) * 1_000_000,
                    text: text.to_string(),
                };
                let words = [word(start_ms, "some"), word(last_ms, &"x".repeat(len))];
                let fits = until - start <= 7.0;
                assert_eq!(
                    build_cues(&words).len() == 1,
                    fits,
                    "{start_ms} {len} {off_ms}"
                );
                joined[fits as usize] += 1;
            }
        }
    }
    assert!(joined[0] > 0 && joined[1] > 0);
}

#[test]
fn estimates_are_exact() {
    assert_eq!(est_spoken_nanos(""), 250_000_000);
    assert_eq!(est_spoken_nanos("word"), 610_000_000);
    // Characters are counted, not bytes.
    assert_eq!(est_spoken_nanos("héé"), 520_000_000);
    assert_eq!(lingers_until(&w(1.0, 2.0, "word")), 2_110_000_000);
    let words = [w(1.0, 2.0, "a"), w(3.0, 4.0, "b")];
    assert_eq!(display_cap(&words, None, 1), 3 * SECOND);
    assert_eq!(display_cap(&words, None, 2), 4 * SECOND);
    assert_eq!(display_cap(&words, Some(nanos(3.5)), 2), nanos(3.5));
}

#[test]
fn cheapest_cuts_follow_the_given_costs() {
    let words = words_at_pace(&vec!["word"; 18].join(" "), 0.0, 0.3);
    let mut costs = vec![BOUNDARY_NONE; 17];
    assert_eq!(cheapest_cuts(&words, None, &costs).len(), 3);
    costs[6] = 0;
    assert_eq!(cheapest_cuts(&words, None, &costs), vec![0, 7, 18]);
    assert_eq!(cheapest_cuts(&[], None, &[]), vec![0]);
}

#[test]
fn of_equal_cuts_the_last_cue_is_the_shorter() {
    // Every split that leaves both cues at least five words (24 characters) costs the same.
    let words = words_at_pace(&vec!["word"; 18].join(" "), 0.0, 0.3);
    let costs = vec![BOUNDARY_NONE; 17];
    assert_eq!(cheapest_cuts(&words, None, &costs), vec![0, 13, 18]);
}

#[test]
fn sentence_cues_are_appended() {
    let mut cues = vec![w(0.0, 1.0, "before")];
    let sentence = words_at_pace("and then this", 2.0, 0.5);
    split_sentence_into_cues(&sentence, Some(nanos(9.0)), &mut cues);
    assert_eq!(cues.len(), 2);
    assert_eq!(cues[0].text, "before");
    assert_eq!(cues[1].text, "and then this");
    // The last word starts at 3s, takes 0.61s and lingers for 0.5s.
    assert_eq!(cues[1].end, nanos(4.11));
    split_sentence_into_cues(&[], None, &mut cues);
    assert_eq!(cues.len(), 2);
    split_sentence_given(&sentence, None, &[0, 0], &mut cues);
    assert_eq!(cues.last().unwrap().end, nanos(3.5));
}

#[test]
fn given_ends_divide_the_words() {
    let words = words_at_pace("one two three", 0.0, 1.0);
    let texts = |ends: &Vec<bool>| -> Vec<String> {
        build_cues_given(&words, ends, &vec![BOUNDARY_NONE; 2])
            .into_iter()
            .map(|cue| cue.text)
            .collect()
    };
    assert_eq!(texts(&vec![false, false]), ["one two three"]);
    assert_eq!(texts(&vec![true, false]), ["one", "two three"]);
    assert_eq!(texts(&vec![true, true]), ["one", "two", "three"]);
}
