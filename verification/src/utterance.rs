//! Timed spans of speech.
//!
//! All times are whole nanoseconds.

use vstd::prelude::*;

use crate::text::{is_white, law_trimming_removes_outer_whitespace, trim, trimmed};

verus! {

/// One second.
pub const SECOND: i64 = 1_000_000_000;

/// One millisecond.
pub const MILLISECOND: i64 = 1_000_000;

/// A transcribed span of speech with timestamps. Used both for single words and for the
/// re-grouped cues that become subtitle entries.
#[derive(Debug)]
pub struct Utterance {
    /// Start time in nanoseconds
    pub start: i64,
    /// End time in nanoseconds
    pub end: i64,
    /// The transcribed text
    pub text: String,
}

/// What an utterance says and when.
#[verifier::ext_equal]
pub struct Speech {
    pub start: int,
    pub end: int,
    pub text: Seq<char>,
}

impl View for Utterance {
    type V = Speech;

    open spec fn view(&self) -> Speech {
        Speech { start: self.start as int, end: self.end as int, text: self.text@ }
    }
}

/// The views of a sequence of utterances.
pub open spec fn speeches(utterances: Seq<Utterance>) -> Seq<Speech> {
    utterances.map_values(|u: Utterance| u@)
}

/// The texts of `words`, with a space between each two.
pub open spec fn joined(words: Seq<Speech>) -> Seq<char>
    decreases words.len(),
{
    if words.len() == 0 {
        Seq::empty()
    } else if words.len() == 1 {
        words[0].text
    } else {
        joined(words.drop_last()) + seq![' '] + words.last().text
    }
}

/// A word as the speech model reports it, with its times in milliseconds.
#[derive(Debug)]
pub struct RawWord {
    pub start_ms: i64,
    pub end_ms: i64,
    pub text: String,
}

/// The largest number of milliseconds whose nanoseconds fit a timestamp.
pub const MAX_MILLIS: i64 = 9_223_372_036_854;

/// Whether the times of a reported word can be held in nanoseconds.
pub open spec fn in_range(word: RawWord) -> bool {
    &&& -MAX_MILLIS <= word.start_ms <= MAX_MILLIS
    &&& -MAX_MILLIS <= word.end_ms <= MAX_MILLIS
}

/// What the texts of words that are already trimmed amount to: the words that have any
/// text, with their times in nanoseconds.
pub open spec fn heard(words: Seq<RawWord>, texts: Seq<Seq<char>>) -> Seq<Speech>
    decreases words.len(),
{
    if words.len() == 0 {
        Seq::empty()
    } else {
        let word = words.last();
        let text = texts[words.len() - 1];
        let before = heard(words.drop_last(), texts);
        if text.len() == 0 {
            before
        } else {
            before.push(
                Speech {
                    start: word.start_ms * MILLISECOND,
                    end: word.end_ms * MILLISECOND,
                    text,
                },
            )
        }
    }
}

/// The texts of `words` without the whitespace at their ends.
pub open spec fn trimmed_texts(words: Seq<RawWord>) -> Seq<Seq<char>> {
    words.map_values(|word: RawWord| trimmed(word.text@))
}

/// The characters of some texts.
pub open spec fn views(texts: Seq<String>) -> Seq<Seq<char>> {
    texts.map_values(|text: String| text@)
}

/// Whether the times of all reported words can be held in nanoseconds.
pub fn words_in_range(words: &Vec<RawWord>) -> (answer: bool)
    ensures
        answer == (forall|i: int| 0 <= i < words@.len() ==> in_range(#[trigger] words@[i])),
{
    for i in 0..words.len()
        invariant
            forall|k: int| 0 <= k < i ==> in_range(#[trigger] words@[k]),
    {
        let word = &words[i];
        if !(-MAX_MILLIS <= word.start_ms && word.start_ms <= MAX_MILLIS && -MAX_MILLIS
            <= word.end_ms && word.end_ms <= MAX_MILLIS) {
            assert(!in_range(words@[i as int]));
            return false;
        }
    }
    true
}

/// Makes utterances of the words that the speech model reports, given their trimmed
/// texts.
pub fn hear_trimmed(words: &Vec<RawWord>, texts: &Vec<String>) -> (utterances: Vec<Utterance>)
    requires
        texts@.len() == words@.len(),
        forall|i: int| 0 <= i < words@.len() ==> in_range(#[trigger] words@[i]),
    ensures
        speeches(utterances@) == heard(words@, views(texts@)),
{
    let mut utterances: Vec<Utterance> = Vec::new();
    let ghost seen = views(texts@);
    assert(words@.take(0) =~= Seq::<RawWord>::empty());
    for i in 0..words.len()
        invariant
            texts@.len() == words@.len(),
            seen == views(texts@),
            forall|k: int| 0 <= k < words@.len() ==> in_range(#[trigger] words@[k]),
            speeches(utterances@) =~= heard(words@.take(i as int), seen),
    {
        let word = &words[i];
        assert(in_range(words@[i as int]));
        assert(words@.take(i + 1).drop_last() =~= words@.take(i as int));
        assert(seen[i as int] == texts@[i as int]@);
        if !texts[i].as_str().is_empty() {
            utterances.push(
                Utterance {
                    start: word.start_ms * MILLISECOND,
                    end: word.end_ms * MILLISECOND,
                    text: texts[i].clone(),
                },
            );
        }
    }
    assert(words@.take(words@.len() as int) =~= words@);
    utterances
}

/// Makes utterances of the words that the speech model reports. Rows may carry the
/// tokenizer's leading space; they are trimmed so that character counts stay correct,
/// and anything that trims to nothing is dropped.
pub fn hear(words: &Vec<RawWord>) -> (utterances: Vec<Utterance>)
    requires
        forall|i: int| 0 <= i < words@.len() ==> in_range(#[trigger] words@[i]),
    ensures
        speeches(utterances@) == heard(words@, trimmed_texts(words@)),
{
    let mut texts: Vec<String> = Vec::new();
    for i in 0..words.len()
        invariant
            texts@.len() == i,
            forall|k: int| 0 <= k < i ==> (#[trigger] texts@[k])@ == trimmed(words@[k].text@),
    {
        texts.push(trim(words[i].text.as_str()));
    }
    assert(views(texts@) =~= trimmed_texts(words@));
    hear_trimmed(words, &texts)
}

/// Every word that is heard has text.
pub proof fn law_heard_words_have_text(words: Seq<RawWord>, texts: Seq<Seq<char>>)
    ensures
        forall|k: int|
            0 <= k < heard(words, texts).len() ==> (#[trigger] heard(words, texts)[k]).text.len()
                > 0,
    decreases words.len(),
{
    if words.len() > 0 {
        let before = heard(words.drop_last(), texts);
        let all = heard(words, texts);
        law_heard_words_have_text(words.drop_last(), texts);
        assert forall|k: int| 0 <= k < all.len() implies (#[trigger] all[k]).text.len() > 0 by {
            if k < before.len() {
                assert(all[k] == before[k]);
            }
        }
    }
}

/// Every reported word is heard that says anything, and no other: with `rows` the rows whose
/// text holds a character that is not whitespace, in order, the words that are heard are as
/// many, and each has the times of its row and the row's text from its first such character
/// to its last.
pub proof fn law_no_word_is_lost(words: Seq<RawWord>, rows: Seq<int>)
    requires
        forall|k: int| 0 <= k < rows.len() ==> 0 <= #[trigger] rows[k] < words.len(),
        forall|a: int, b: int| 0 <= a < b < rows.len() ==> #[trigger] rows[a] < #[trigger] rows[b],
        forall|r: int|
            0 <= r < words.len() ==> (rows.contains(r) <==> says_something((#[trigger] words[r]).text@)),
    ensures
        heard(words, trimmed_texts(words)).len() == rows.len(),
        forall|k: int|
            0 <= k < rows.len() ==> is_heard_row(
                words[rows[k]],
                #[trigger] heard(words, trimmed_texts(words))[k],
            ),
    decreases words.len(),
{
    if words.len() == 0 {
        if rows.len() > 0 {
            assert(0 <= rows[0] < 0);
        }
    } else {
        let n = words.len() - 1;
        let fewer = words.drop_last();
        let texts = trimmed_texts(words);
        let text = words[n].text@;
        lemma_trimmed_part(text);
        lemma_heard_of_fewer(fewer, texts, trimmed_texts(fewer));
        assert(texts[n] == trimmed(text));
        if says_something(text) {
            assert(rows.contains(n));
            let k = choose|k: int| 0 <= k < rows.len() && rows[k] == n;
            if k < rows.len() - 1 {
                assert(rows[k] < rows[rows.len() - 1]);
                assert(rows[rows.len() - 1] < words.len());
            }
            let before = rows.drop_last();
            lemma_fewer_rows(words, rows, before);
            law_no_word_is_lost(fewer, before);
            let all = heard(words, texts);
            assert(all == heard(fewer, texts).push(all.last()));
            assert forall|k: int| 0 <= k < rows.len() implies is_heard_row(
                words[rows[k]],
                #[trigger] all[k],
            ) by {
                if k < before.len() {
                    assert(rows[k] == before[k]);
                    assert(fewer[before[k]] == words[rows[k]]);
                    assert(all[k] == heard(fewer, trimmed_texts(fewer))[k]);
                } else {
                    assert(all[k].text == trimmed(text));
                }
            }
        } else {
            assert(!rows.contains(n));
            if rows.len() > 0 {
                assert(rows.contains(rows[rows.len() - 1]));
            }
            lemma_fewer_rows(words, rows, rows);
            law_no_word_is_lost(fewer, rows);
            assert forall|k: int| 0 <= k < rows.len() implies is_heard_row(
                words[rows[k]],
                #[trigger] heard(words, texts)[k],
            ) by {
                assert(fewer[rows[k]] == words[rows[k]]);
                assert(heard(words, texts)[k] == heard(fewer, trimmed_texts(fewer))[k]);
            }
        }
    }
}

/// Whether a text holds a character that is not whitespace.
pub open spec fn says_something(text: Seq<char>) -> bool {
    exists|c: int| 0 <= c < text.len() && !is_white(#[trigger] text[c])
}

/// Whether `first` and `last` are the first and the last place of `text` that is not
/// whitespace.
pub open spec fn is_visible_part(text: Seq<char>, first: int, last: int) -> bool {
    &&& 0 <= first <= last < text.len()
    &&& !is_white(text[first])
    &&& !is_white(text[last])
    &&& forall|m: int| 0 <= m < first ==> is_white(#[trigger] text[m])
    &&& forall|m: int| last < m < text.len() ==> is_white(#[trigger] text[m])
}

/// Whether `word` has the times of `row`, a millisecond being a million nanoseconds, and its
/// text from the first character that is not whitespace to the last.
pub open spec fn is_heard_row(row: RawWord, word: Speech) -> bool {
    &&& word.start == row.start_ms * 1_000_000
    &&& word.end == row.end_ms * 1_000_000
    &&& exists|first: int, last: int| #[trigger]
        is_visible_part(row.text@, first, last) && word.text == row.text@.subrange(first, last + 1)
}

/// The rows among fewer words.
proof fn lemma_fewer_rows(words: Seq<RawWord>, rows: Seq<int>, before: Seq<int>)
    requires
        words.len() > 0,
        before == rows && !rows.contains(words.len() - 1) || (rows.len() > 0 && before
            == rows.drop_last() && rows.last() == words.len() - 1),
        forall|k: int| 0 <= k < rows.len() ==> 0 <= #[trigger] rows[k] < words.len(),
        forall|a: int, b: int| 0 <= a < b < rows.len() ==> #[trigger] rows[a] < #[trigger] rows[b],
        forall|r: int|
            0 <= r < words.len() ==> (rows.contains(r) <==> says_something((#[trigger] words[r]).text@)),
    ensures
        forall|k: int| 0 <= k < before.len() ==> 0 <= #[trigger] before[k] < words.len() - 1,
        forall|a: int, b: int|
            0 <= a < b < before.len() ==> #[trigger] before[a] < #[trigger] before[b],
        forall|r: int|
            0 <= r < words.len() - 1 ==> (before.contains(r) <==> says_something(
                (#[trigger] words.drop_last()[r]).text@,
            )),
{
    let n = words.len() - 1;
    let fewer = words.drop_last();
    assert forall|k: int| 0 <= k < before.len() implies 0 <= #[trigger] before[k] < n by {
        assert(before[k] == rows[k]);
        if rows.contains(n) {
            assert(rows[k] < rows[rows.len() - 1]);
        } else {
            assert(rows.contains(rows[k]));
        }
    }
    assert forall|r: int| 0 <= r < n implies (before.contains(r) <==> says_something(
        (#[trigger] fewer[r]).text@,
    )) by {
        assert(fewer[r] == words[r]);
        assert(before.contains(r) <==> rows.contains(r)) by {
            if rows.contains(r) {
                let k = choose|k: int| 0 <= k < rows.len() && rows[k] == r;
                assert(before[k] == r);
            }
            if before.contains(r) {
                let k = choose|k: int| 0 <= k < before.len() && before[k] == r;
                assert(rows[k] == r);
            }
        }
    }
}

/// The texts of later words make no difference.
proof fn lemma_heard_of_fewer(words: Seq<RawWord>, a: Seq<Seq<char>>, b: Seq<Seq<char>>)
    requires
        a.len() >= words.len(),
        b.len() >= words.len(),
        forall|k: int| 0 <= k < words.len() ==> #[trigger] a[k] == b[k],
    ensures
        heard(words, a) == heard(words, b),
    decreases words.len(),
{
    if words.len() > 0 {
        lemma_heard_of_fewer(words.drop_last(), a, b);
        assert(a[words.len() - 1] == b[words.len() - 1]);
    }
}

/// What is left of a text without the whitespace at its ends.
proof fn lemma_trimmed_part(text: Seq<char>)
    ensures
        !says_something(text) ==> trimmed(text).len() == 0,
        says_something(text) ==> {
            &&& trimmed(text).len() > 0
            &&& exists|first: int, last: int| #[trigger]
                is_visible_part(text, first, last) && trimmed(text) == text.subrange(
                    first,
                    last + 1,
                )
        },
{
    let (from, to) = law_trimming_removes_outer_whitespace(text);
    if says_something(text) {
        let c = choose|c: int| 0 <= c < text.len() && !is_white(#[trigger] text[c]);
        assert(from <= c < to);
        assert(is_visible_part(text, from, to - 1));
    } else if from < to {
        assert(is_white(text[from]));
    }
}

/// A reported word is in range exactly if 64 bits can hold its times in nanoseconds.
pub proof fn law_range_is_what_nanoseconds_can_hold(word: RawWord)
    ensures
        in_range(word) <==> {
            &&& i64::MIN <= word.start_ms * 1_000_000 <= i64::MAX
            &&& i64::MIN <= word.end_ms * 1_000_000 <= i64::MAX
        },
{
}

} // verus!
