use sirtea::split::pick_split_index;
use sirtea::utterance::Utterance;

fn w(start: f64, end: f64, text: &str) -> Utterance {
    Utterance {
        start: (start * 1e9).round() as i64,
        end: (end * 1e9).round() as i64,
        text: text.to_string(),
    }
}

fn texts(texts: &[&str]) -> Vec<Utterance> {
    texts.iter().map(|text| w(0.0, 1.0, text)).collect()
}

#[test]
fn split_never_picks_last_caption() {
    // The last caption ends with '.', but only because the hard cut made the model
    // fabricate it; the comma-ended caption before it must win.
    let utterances = vec![
        w(0.0, 5.0, "we talked about logging levels,"),
        w(5.0, 10.0, "and then the hard cut fabricated this."),
    ];
    assert_eq!(pick_split_index(&utterances), 0);
}

#[test]
fn split_prefers_sentence_end_over_recent_comma() {
    let utterances = vec![
        w(0.0, 5.0, "filler so the window has depth,"),
        w(5.0, 10.0, "and this sentence ends properly."),
        w(10.0, 15.0, "while this one trails off with a comma,"),
        w(15.0, 20.0, "hard-cut tail caption."),
    ];
    assert_eq!(pick_split_index(&utterances), 1);
}

#[test]
fn split_prefers_recent_among_equal_punctuation() {
    let utterances = vec![
        w(0.0, 5.0, "an early complete sentence."),
        w(5.0, 10.0, "a later complete sentence."),
        w(10.0, 15.0, "hard-cut tail caption."),
    ];
    assert_eq!(pick_split_index(&utterances), 1);
}

#[test]
fn split_single_caption_hard_cut_fallback() {
    let utterances = vec![w(0.0, 5.0, "only one caption here")];
    assert_eq!(pick_split_index(&utterances), 0);
}

#[test]
fn sentence_end_beats_plain_cues_anywhere_in_the_window() {
    let mut all = vec!["plain"; 20];
    all[0] = "a sentence.";
    assert_eq!(pick_split_index(&texts(&all)), 0);
    // Outside the window it is not looked at.
    let mut all = vec!["plain"; 21];
    all[0] = "a sentence.";
    assert_eq!(pick_split_index(&texts(&all)), 19);
}

#[test]
fn ellipsis_is_less_good_than_a_sentence_end() {
    let all = ["why?", "well...", "tail"];
    assert_eq!(pick_split_index(&texts(&all)), 0);
    let all = ["plain", "well...", "plain", "tail"];
    assert_eq!(pick_split_index(&texts(&all)), 1);
    let all = ["so:", "and,", "tail"];
    assert_eq!(pick_split_index(&texts(&all)), 0);
}

#[test]
fn recency_outweighs_a_distant_comma() {
    // The comma at the far end of the window is worth 13 * (2 * 10 - 9), the plain cue
    // right before the last one 10 * (2 * 10 - 1).
    let mut all = vec!["plain"; 10];
    all[0] = "far,";
    assert_eq!(pick_split_index(&texts(&all)), 8);
    all[0] = "plain";
    all[5] = "near,";
    assert_eq!(pick_split_index(&texts(&all)), 5);
}

#[test]
fn scores_are_those_of_floating_point() {
    // Every pair of endings at every pair of places that they can have in a window whose
    // other cues are worth nothing more.
    let endings = [("plain", 1.0), ("clause,", 1.3), ("sentence.", 2.0)];
    for count in 3..=22usize {
        let window = count.min(20);
        for a in 1..window {
            for b in 1..window {
                for (text_a, _) in endings {
                    for (text_b, _) in endings {
                        let mut all = vec!["plain"; count];
                        all[count - 1 - a] = text_a;
                        all[count - 1 - b] = text_b;
                        let mut best: Option<(usize, f64)> = None;
                        for offset in 1..window {
                            let i = count - offset - 1;
                            let worth = endings
                                .iter()
                                .find(|(text, _)| *text == all[i])
                                .unwrap()
                                .1;
                            let score = worth * (1.0 - 0.5 * (offset as f64 / window as f64));
                            if best.is_none_or(|(_, s)| score > s) {
                                best = Some((i, score));
                            }
                        }
                        assert_eq!(pick_split_index(&texts(&all)), best.unwrap().0, "{all:?}");
                    }
                }
            }
        }
    }
}
