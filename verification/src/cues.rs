//! Cue building: re-grouping word timestamps into subtitle-sized cues.
//!
//! Speech is full of run-on sentences, so cues that end only where sentences end
//! routinely blow past what a viewer can read. Words are therefore split into sentences
//! first (a cue never spans a sentence boundary), and each sentence is then cut into
//! cues that fit the subtitle envelope.
//!
//! How silence shows up in the word timestamps does a lot of work here. The span from a
//! word's start to the next word's start, minus the time needed to actually say the
//! word, is silence, whether it was absorbed into the word's end or left as a gap.

use vstd::prelude::*;
use vstd::slice::slice_subrange;

use crate::grammar::{ends_sentence, introduces_phrase, is_function_word, is_sentence_end};
use crate::seconds::{
    as_float, law_held_times_are_close, law_rounding_is_close, lemma_rounded_bound, round_to_float, ticks_of, time_ticks, CLOSE_CALL_NANOS,
};
use crate::segmentation::{
    as_cuts, cheapest_cuts, display_cap, est_spoken_nanos, est_spoken_ticks, lingers_until, min,
    sentence_of, spoken_nanos, spoken_ticks, Sentence, MAX_WORDS, MIN_CUE_NANOS,
    WORD_SPEECH_FLOOR_TICKS, WORD_SPEECH_PER_CHAR_TICKS,
};
use crate::text::{ends_with_char, ends_with_ellipsis, has_ellipsis, last_char};
use crate::utterance::{joined, speeches, Speech, Utterance};

verus! {

/// The cost of ending a cue after `:` or `;`, which mark strong clause boundaries.
pub const BOUNDARY_COLON: u64 = 4_000_000_000;

/// The cost of ending a cue at a pause: silence is a stronger cue than punctuation.
pub const BOUNDARY_PAUSE: u64 = 4_000_000_000;

/// The cost of ending a cue after `,` or `...`.
pub const BOUNDARY_CLAUSE: u64 = 8_000_000_000;

/// The cost of ending a cue in mid-clause: a last resort, but finitely priced, because
/// long unpunctuated stretches have to break somewhere.
pub const BOUNDARY_NONE: u64 = 30_000_000_000;

/// Added to `BOUNDARY_NONE` right after a function word, which a break would sever from
/// the phrase it introduces. Punctuated boundaries are exempt.
pub const FUNCTION_WORD_BREAK_PENALTY: u64 = 10_000_000_000;

/// How much silence after a word marks a real pause.
pub const PAUSE_MIN_NANOS: i64 = 800_000_000;

/// What the end of a word's text costs as the end of a cue, silence aside.
pub open spec fn punctuation_price(text: Seq<char>, function_word: bool) -> int {
    if ends_with_ellipsis(text) || ends_with_char(text, ',') {
        BOUNDARY_CLAUSE as int
    } else if ends_with_char(text, ':') || ends_with_char(text, ';') {
        BOUNDARY_COLON as int
    } else if function_word {
        BOUNDARY_NONE + FUNCTION_WORD_BREAK_PENALTY
    } else {
        BOUNDARY_NONE as int
    }
}

/// `PAUSE_MIN_NANOS` as a floating-point number, in ticks.
pub const PAUSE_MIN_TICKS: i128 = 3_868_562_622_766_813_573_808_128;

/// The silence between a word and the one that starts at `next_start`.
pub open spec fn silence_after(word: Speech, next_start: int) -> int {
    next_start - word.start - spoken_nanos(word.text)
}

/// The silence between a word and the one that starts at `next_start` as a floating-point
/// number, in ticks.
pub open spec fn silence_ticks(word: Speech, next_start: int) -> int {
    as_float(as_float(time_ticks(next_start) - time_ticks(word.start)) - spoken_ticks(word.text))
}

/// Whether the silence after a word is a real pause. Near the limit, it is if it is one as a
/// floating-point number.
pub open spec fn is_pause(word: Speech, next_start: int) -> bool {
    let over = silence_after(word, next_start) - PAUSE_MIN_NANOS;
    if -CLOSE_CALL_NANOS <= over <= CLOSE_CALL_NANOS {
        silence_ticks(word, next_start) >= PAUSE_MIN_TICKS
    } else {
        over > 0
    }
}

/// The cost of ending a cue after `word`, in mid-sentence.
pub open spec fn boundary_price(word: Speech, next_start: int, function_word: bool) -> int {
    let punctuation = punctuation_price(word.text, function_word);
    if is_pause(word, next_start) {
        min(punctuation, BOUNDARY_PAUSE as int)
    } else {
        punctuation
    }
}

/// Whether the silence between a word and the one that starts at `next_start` is a real
/// pause.
pub fn pauses_after(word: &Utterance, next_start: i64) -> (answer: bool)
    ensures
        answer == is_pause(word@, next_start as int),
{
    let spoken = est_spoken_nanos(word.text.as_str());
    let over: i128 = next_start as i128 - word.start as i128 - spoken - PAUSE_MIN_NANOS as i128;
    if over > CLOSE_CALL_NANOS as i128 {
        return true;
    }
    if over < -(CLOSE_CALL_NANOS as i128) {
        return false;
    }
    let gap = round_to_float(ticks_of(next_start) - ticks_of(word.start));
    proof {
        lemma_rounded_bound(time_ticks(next_start as int) - time_ticks(word.start as int));
    }
    let spoken_ticks = est_spoken_ticks(word.text.as_str());
    round_to_float(gap - spoken_ticks) >= PAUSE_MIN_TICKS
}

/// The cost of ending a cue after `word`, given whether it is a function word.
pub fn boundary_cost_given(word: &Utterance, next_start: i64, function_word: bool) -> (cost: u64)
    ensures
        cost == boundary_price(word@, next_start as int, function_word),
{
    let last = last_char(word.text.as_str());
    let punctuation: u64 = if has_ellipsis(word.text.as_str()) || last == Some(',') {
        BOUNDARY_CLAUSE
    } else if last == Some(':') || last == Some(';') {
        BOUNDARY_COLON
    } else if function_word {
        BOUNDARY_NONE + FUNCTION_WORD_BREAK_PENALTY
    } else {
        BOUNDARY_NONE
    };
    if pauses_after(word, next_start) && punctuation > BOUNDARY_PAUSE {
        BOUNDARY_PAUSE
    } else {
        punctuation
    }
}

/// The cost of ending a cue after `word`, mid-sentence, where `next_start` is the start
/// time of the word that follows it.
pub fn boundary_cost(word: &Utterance, next_start: i64) -> (cost: u64)
    ensures
        cost == boundary_price(word@, next_start as int, introduces_phrase(word@.text)),
{
    boundary_cost_given(word, next_start, is_function_word(word.text.as_str()))
}

/// Every pause is one as a floating-point number, and every such pause is one, also where it
/// is no close call.
pub proof fn law_pauses_are_those_of_floats(word: Speech, next_start: int)
    requires
        i64::MIN <= word.start <= i64::MAX,
        i64::MIN <= next_start <= i64::MAX,
    ensures
        is_pause(word, next_start) == (silence_ticks(word, next_start) >= PAUSE_MIN_TICKS),
{
    let len = word.text.len() as int;
    let gap = time_ticks(next_start) - time_ticks(word.start);
    let letters = WORD_SPEECH_PER_CHAR_TICKS * as_float(len);
    let spoken = WORD_SPEECH_FLOOR_TICKS + as_float(letters);
    let silence = as_float(gap) - as_float(spoken);
    law_held_times_are_close(next_start);
    law_held_times_are_close(word.start);
    law_rounding_is_close(gap);
    law_rounding_is_close(len);
    law_rounding_is_close(letters);
    law_rounding_is_close(spoken);
    law_rounding_is_close(silence);
}

/// The text of the words `from..to`, joined by spaces.
fn join_words(words: &[Utterance], from: usize, to: usize) -> (text: String)
    requires
        from < to <= words@.len(),
    ensures
        text@ == joined(speeches(words@).subrange(from as int, to as int)),
{
    let ghost all = speeches(words@);
    let mut text = words[from].text.clone();
    assert(all.subrange(from as int, from + 1)[0] == words@[from as int]@);
    for k in from + 1..to
        invariant
            from < to <= words@.len(),
            all == speeches(words@),
            text@ == joined(all.subrange(from as int, k as int)),
    {
        text.push(' ');
        text.append(words[k].text.as_str());
        proof {
            let part = all.subrange(from as int, k + 1);
            assert(part.drop_last() =~= all.subrange(from as int, k as int));
            assert(part.last() == words@[k as int]@);
        }
    }
    text
}

/// Makes the cue of the words `j..i` of a sentence.
fn make_cue(
    words: &[Utterance],
    next_start: Option<i64>,
    j: usize,
    i: usize,
    Ghost(s): Ghost<Sentence>,
) -> (cue: Utterance)
    requires
        j < i <= words@.len(),
        s.words == speeches(words@),
        s.next_start == (match next_start {
            Some(t) => Some(t as int),
            None => None,
        }),
    ensures
        cue@ == s.cue(j as int, i as int),
{
    let start = words[j].start;
    let until = lingers_until(&words[i - 1]);
    assert(speeches(words@)[i - 1] == words@[i - 1]@);
    let readable: i128 = start as i128 + MIN_CUE_NANOS as i128;
    let wanted: i128 = if until >= readable {
        until
    } else {
        readable
    };
    let cap = display_cap(words, next_start, i);
    let end: i64 = if wanted <= cap as i128 {
        wanted as i64
    } else {
        cap
    };
    let text = join_words(words, j, i);
    Utterance { start, end, text }
}

/// Cuts one sentence into cues, given what it costs to end a cue after each word but the
/// last, and appends them to `cues`.
pub fn split_sentence_given(
    sentence: &[Utterance],
    next_start: Option<i64>,
    break_costs: &[u64],
    cues: &mut Vec<Utterance>,
)
    requires
        sentence@.len() <= MAX_WORDS,
        break_costs@.len() + 1 >= sentence@.len(),
    ensures
        speeches(final(cues)@) == speeches(old(cues)@) + sentence_of(
            sentence@,
            next_start,
            break_costs@,
        ).cues(),
{
    let ghost s = sentence_of(sentence@, next_start, break_costs@);
    let ghost n = sentence@.len() as int;
    let ghost earlier = speeches(cues@);
    let cuts = cheapest_cuts(sentence, next_start, break_costs);
    let ghost best = as_cuts(cuts@);
    assert(s.is_split(best, n));
    let mut k: usize = 0;
    assert(speeches(cues@) =~= earlier + s.cues_between(best).take(0));
    while k < cuts.len() - 1
        invariant
            k < cuts@.len(),
            n == sentence@.len(),
            s == sentence_of(sentence@, next_start, break_costs@),
            best == as_cuts(cuts@),
            s.is_split(best, n),
            speeches(cues@) == earlier + s.cues_between(best).take(k as int),
        decreases cuts@.len() - k,
    {
        assert(s.is_step(best, k as int));
        let ghost so_far = cues@;
        let cue = make_cue(sentence, next_start, cuts[k], cuts[k + 1], Ghost(s));
        assert(cue@ == s.cues_between(best)[k as int]);
        cues.push(cue);
        k += 1;
        assert(speeches(cues@) =~= speeches(so_far).push(cue@));
        assert(s.cues_between(best).take(k as int) =~= s.cues_between(best).take(k - 1).push(cue@));
        assert(speeches(cues@) =~= earlier + s.cues_between(best).take(k as int));
    }
    assert(s.cues_between(best).take(k as int) =~= s.cues_between(best));
}

/// What it costs to end a cue after each word of a sentence but the last.
pub open spec fn sentence_prices(words: Seq<Speech>) -> Seq<int> {
    Seq::new(
        if words.len() == 0 {
            0
        } else {
            (words.len() - 1) as nat
        },
        |k: int| boundary_price(words[k], words[k + 1].start, introduces_phrase(words[k].text)),
    )
}

/// What it costs to end a cue after each word but the last.
fn price_boundaries(words: &[Utterance]) -> (costs: Vec<u64>)
    ensures
        costs@.map_values(|c: u64| c as int) == sentence_prices(speeches(words@)),
{
    let mut costs: Vec<u64> = Vec::new();
    if words.len() == 0 {
        assert(costs@.map_values(|c: u64| c as int) =~= sentence_prices(speeches(words@)));
        return costs;
    }
    let mut k: usize = 0;
    while k < words.len() - 1
        invariant
            k < words@.len(),
            costs@.len() == k,
            forall|m: int|
                0 <= m < k ==> #[trigger] costs@[m] == sentence_prices(speeches(words@))[m],
        decreases words@.len() - k,
    {
        costs.push(boundary_cost(&words[k], words[k + 1].start));
        k += 1;
    }
    assert(costs@.map_values(|c: u64| c as int) =~= sentence_prices(speeches(words@)));
    costs
}

/// Split one sentence's words into cues, appending them to `cues`.
///
/// `next_start` is the start of the word after the sentence, if any: it caps how far the
/// sentence's final cue may linger on screen.
pub fn split_sentence_into_cues(
    sentence: &[Utterance],
    next_start: Option<i64>,
    cues: &mut Vec<Utterance>,
)
    requires
        sentence@.len() <= MAX_WORDS,
    ensures
        speeches(final(cues)@) == speeches(old(cues)@) + (Sentence {
            words: speeches(sentence@),
            next_start: match next_start {
                Some(t) => Some(t as int),
                None => None,
            },
            break_costs: sentence_prices(speeches(sentence@)),
        }).cues(),
{
    let costs = price_boundaries(sentence);
    assert(costs@.len() == sentence_prices(speeches(sentence@)).len()) by {
        assert(costs@.map_values(|c: u64| c as int).len() == costs@.len());
    }
    split_sentence_given(sentence, next_start, costs.as_slice(), cues);
}

/// A run of words with what is known about the boundaries between them.
pub struct Passage {
    pub words: Seq<Speech>,
    /// Whether a sentence ends after each word but the last.
    pub ends: Seq<bool>,
    /// What it costs to end a cue after each word but the last, in mid-sentence.
    pub costs: Seq<int>,
}

impl Passage {
    /// Whether a sentence ends after word `i`. The last word always terminates the final
    /// sentence, punctuated or not: hard cuts can leave unpunctuated tails.
    pub open spec fn ended(self, i: int) -> bool {
        i >= self.words.len() - 1 || self.ends[i]
    }

    /// Where the sentence that word `i` belongs to begins.
    pub open spec fn sentence_start(self, i: int) -> int
        decreases i,
    {
        if i <= 0 || self.ended(i - 1) {
            i
        } else {
            self.sentence_start(i - 1)
        }
    }

    /// The words `from..to` as a sentence.
    pub open spec fn sentence(self, from: int, to: int) -> Sentence {
        Sentence {
            words: self.words.subrange(from, to),
            next_start: if to < self.words.len() {
                Some(self.words[to].start)
            } else {
                None
            },
            break_costs: self.costs.subrange(from, to - 1),
        }
    }

    /// The cues of the sentences that end within the first `k` words.
    pub open spec fn cues_before(self, k: int) -> Seq<Speech>
        decreases k,
    {
        if k <= 0 {
            Seq::empty()
        } else if self.ended(k - 1) {
            self.cues_before(k - 1) + self.sentence(self.sentence_start(k - 1), k).cues()
        } else {
            self.cues_before(k - 1)
        }
    }

    /// The cues of the passage.
    pub open spec fn cues(self) -> Seq<Speech> {
        self.cues_before(self.words.len() as int)
    }
}

/// Whether a sentence ends after each word but the last.
pub open spec fn sentence_ends(words: Seq<Speech>) -> Seq<bool> {
    Seq::new(
        if words.len() == 0 {
            0
        } else {
            (words.len() - 1) as nat
        },
        |k: int| is_sentence_end(words[k].text, Some(words[k + 1].text)),
    )
}

/// The passage that some words form.
pub open spec fn passage_of(words: Seq<Speech>) -> Passage {
    Passage { words, ends: sentence_ends(words), costs: sentence_prices(words) }
}

/// Whether a sentence ends after each word but the last.
fn find_sentence_ends(words: &[Utterance]) -> (ends: Vec<bool>)
    ensures
        ends@ == sentence_ends(speeches(words@)),
{
    let mut ends: Vec<bool> = Vec::new();
    if words.len() == 0 {
        assert(ends@ =~= sentence_ends(speeches(words@)));
        return ends;
    }
    let mut k: usize = 0;
    while k < words.len() - 1
        invariant
            k < words@.len(),
            ends@.len() == k,
            forall|m: int| 0 <= m < k ==> #[trigger] ends@[m] == sentence_ends(speeches(words@))[m],
        decreases words@.len() - k,
    {
        let next = words[k + 1].text.as_str();
        ends.push(ends_sentence(words[k].text.as_str(), Some(next)));
        k += 1;
    }
    assert(ends@ =~= sentence_ends(speeches(words@)));
    ends
}

/// Re-groups words into cues, given whether a sentence ends after each word but the last,
/// and what it costs to end a cue there otherwise.
pub fn build_cues_given(words: &[Utterance], ends: &Vec<bool>, costs: &Vec<u64>) -> (cues: Vec<
    Utterance,
>)
    requires
        words@.len() <= MAX_WORDS,
        ends@.len() + 1 >= words@.len(),
        costs@.len() + 1 >= words@.len(),
    ensures
        speeches(cues@) == (Passage {
            words: speeches(words@),
            ends: ends@,
            costs: costs@.map_values(|c: u64| c as int),
        }).cues(),
{
    let mut cues: Vec<Utterance> = Vec::new();
    let mut start: usize = 0;
    let ghost p = Passage {
        words: speeches(words@),
        ends: ends@,
        costs: costs@.map_values(|c: u64| c as int),
    };
    assert(speeches(cues@) =~= p.cues_before(0));
    for i in 0..words.len()
        invariant
            words@.len() <= MAX_WORDS,
            ends@.len() + 1 >= words@.len(),
            costs@.len() + 1 >= words@.len(),
            p == (Passage {
                words: speeches(words@),
                ends: ends@,
                costs: costs@.map_values(|c: u64| c as int),
            }),
            start <= i,
            i < words@.len() ==> start == p.sentence_start(i as int),
            speeches(cues@) == p.cues_before(i as int),
    {
        let is_final = i == words.len() - 1;
        if is_final || ends[i] {
            let next_start = if is_final {
                None
            } else {
                Some(words[i + 1].start)
            };
            let sentence = slice_subrange(words, start, i + 1);
            let break_costs = slice_subrange(costs.as_slice(), start, i);
            proof {
                let s = sentence_of(sentence@, next_start, break_costs@);
                let t = p.sentence(start as int, i + 1);
                assert(s.words =~= t.words);
                assert(s.break_costs =~= t.break_costs);
                assert(s == t);
            }
            split_sentence_given(sentence, next_start, break_costs, &mut cues);
            start = i + 1;
        }
    }
    cues
}

/// Re-group word-level utterances into subtitle-sized cues.
///
/// Words are first split into sentences (a cue never spans a sentence boundary), and each
/// sentence is then segmented into cues that fit the subtitle envelope.
pub fn build_cues(words: &[Utterance]) -> (cues: Vec<Utterance>)
    requires
        words@.len() <= MAX_WORDS,
    ensures
        speeches(cues@) == passage_of(speeches(words@)).cues(),
{
    let ends = find_sentence_ends(words);
    let costs = price_boundaries(words);
    assert(costs@.len() == sentence_prices(speeches(words@)).len()) by {
        assert(costs@.map_values(|c: u64| c as int).len() == costs@.len());
    }
    build_cues_given(words, &ends, &costs)
}

} // verus!
