//! What holds of the cues of any passage.

use vstd::prelude::*;

use crate::cues::{
    boundary_price, is_pause, law_pauses_are_those_of_floats, passage_of, sentence_ends, Passage,
};
use crate::grammar::{introduces_phrase, lemma_final_punctuation, lemma_sentence_start};
use crate::layout::{balanced, broken_at, law_lines_fit_when_they_can, lines_fit, MAX_LINE_CHARS};
use crate::seconds::{
    as_float, law_held_times_are_close, law_held_times_keep_order, law_rounding_is_close,
    law_rounding_keeps_order, lemma_ticks_of_limits, time_ticks,
};
use crate::segmentation::{
    lingered, preferred, spoken_ticks, Sentence, MAX_CUE_NANOS, MIN_CUE_NANOS,
};
use crate::text::{is_letter_or_digit, is_number, is_upper};
use crate::utterance::{joined, Speech};

verus! {

impl Passage {
    /// All the words of the passage, as if they were one sentence.
    pub open spec fn whole(self) -> Sentence {
        self.sentence(0, self.words.len() as int)
    }

    /// Whether a cue may consist of the words `j..i`: no sentence ends inside it, and if
    /// it has more than one word it stays inside the subtitle envelope.
    pub open spec fn is_span(self, j: int, i: int) -> bool {
        &&& 0 <= j < i <= self.words.len()
        &&& forall|m: int| j <= m < i - 1 ==> !#[trigger] self.ended(m)
        &&& i > j + 1 ==> self.whole().within_limits(j, i)
    }

    /// Whether the words between the cuts `k` and `k + 1` may be a cue.
    pub open spec fn is_span_at(self, cuts: Seq<int>, k: int) -> bool {
        self.is_span(cuts[k], cuts[k + 1])
    }

    /// Whether `cuts` divides the first `n` words into runs that may be cues.
    pub open spec fn divides(self, cuts: Seq<int>, n: int) -> bool {
        &&& cuts.len() > 0
        &&& cuts[0] == 0
        &&& cuts.last() == n
        &&& forall|k: int| 0 <= k < cuts.len() - 1 ==> #[trigger] self.is_span_at(cuts, k)
    }

    /// Whether cue `k` consists of the words between the cuts `k` and `k + 1`.
    spec fn is_cue_at(self, cues: Seq<Speech>, cuts: Seq<int>, k: int) -> bool {
        &&& self.is_span(cuts[k], cuts[k + 1])
        &&& cues[k] == self.whole().cue(cuts[k], cuts[k + 1])
    }

    /// Whether words start one after the other.
    pub open spec fn starts_increase(self) -> bool {
        forall|a: int, b: int|
            0 <= a < b < self.words.len() ==> (#[trigger] self.words[a]).start < (
            #[trigger] self.words[b]).start
    }

    /// A part of the passage cuts and shows its words as the whole does.
    proof fn lemma_part(self, from: int, to: int, j: int, i: int)
        requires
            0 <= from <= j < i <= to <= self.words.len(),
        ensures
            self.sentence(from, to).cue(j - from, i - from) == self.whole().cue(j, i),
            self.sentence(from, to).within_limits(j - from, i - from)
                ==> self.whole().within_limits(j, i),
    {
        let part = self.sentence(from, to);
        let whole = self.whole();
        assert(whole.words =~= self.words);
        assert forall|a: int, b: int| from <= a <= b <= to implies #[trigger] part.cue_text(
            a - from,
            b - from,
        ) == whole.cue_text(a, b) by {
            assert(part.words.subrange(a - from, b - from) =~= whole.words.subrange(a, b));
        }
        assert(part.cue_text(j - from, i - from) == whole.cue_text(j, i));
        assert(part.display_cap(i - from) == whole.display_cap(i));
        if part.within_limits(j - from, i - from) && !(part.cue_text(j - from, i - from).len()
            <= MAX_LINE_CHARS) {
            let k = choose|k: int|
                j - from < k < i - from && #[trigger] part.fits_when_cut(j - from, k, i - from);
            assert(part.cue_text(j - from, (k + from) - from) == whole.cue_text(j, k + from));
            assert(part.cue_text((k + from) - from, i - from) == whole.cue_text(k + from, i));
            assert(whole.fits_when_cut(j, k + from, i));
        }
    }

    /// No sentence ends between its start and its end.
    proof fn lemma_sentence_start(self, i: int)
        requires
            0 <= i < self.words.len(),
        ensures
            0 <= self.sentence_start(i) <= i,
            self.sentence_start(i) == 0 || self.ended(self.sentence_start(i) - 1),
            forall|m: int| self.sentence_start(i) <= m < i ==> !#[trigger] self.ended(m),
            self.cues_before(i) == self.cues_before(self.sentence_start(i)),
        decreases i,
    {
        if i > 0 && !self.ended(i - 1) {
            self.lemma_sentence_start(i - 1);
        }
    }

    /// The runs of words that the cues of the first sentences are made of.
    proof fn lemma_cuts_before(self, n: int) -> (cuts: Seq<int>)
        requires
            0 <= n <= self.words.len(),
            n == 0 || self.ended(n - 1),
        ensures
            self.divides(cuts, n),
            self.cues_before(n) == self.whole().cues_between(cuts),
        decreases n,
    {
        if n == 0 {
            let cuts = seq![0int];
            assert(self.cues_before(0) =~= self.whole().cues_between(cuts));
            cuts
        } else {
            let from = self.sentence_start(n - 1);
            self.lemma_sentence_start(n - 1);
            let before = self.lemma_cuts_before(from);
            let s = self.sentence(from, n);
            s.law_best_cuts();
            let best = s.best_cuts(n - from);
            assert(s.words.len() == n - from);
            assert(s.is_split(best, n - from));
            let after = Seq::new((best.len() - 1) as nat, |k: int| best[k + 1] + from);
            let cuts = before + after;
            assert(best.len() >= 2);
            let cues = self.cues_before(n);
            assert(cues == self.cues_before(from) + s.cues());
            assert(s.cues() == s.cues_between(best));
            assert forall|k: int| 0 <= k < cuts.len() - 1 implies #[trigger] self.is_cue_at(
                cues,
                cuts,
                k,
            ) by {
                if k < before.len() - 1 {
                    assert(self.is_span_at(before, k));
                    assert(cues[k] == self.whole().cues_between(before)[k]);
                } else {
                    let m = k - (before.len() - 1);
                    assert(s.is_step(best, m));
                    let j = best[m];
                    let i = best[m + 1];
                    assert(cuts[k] == j + from);
                    assert(cuts[k + 1] == i + from);
                    self.lemma_part(from, n, j + from, i + from);
                    if i > j + 1 {
                        assert(s.within_limits(j, i));
                    }
                    assert(cues[k] == s.cues_between(best)[m]);
                }
            }
            assert forall|k: int| 0 <= k < cuts.len() - 1 implies #[trigger] self.is_span_at(
                cuts,
                k,
            ) by {
                assert(self.is_cue_at(cues, cuts, k));
            }
            let target = self.whole().cues_between(cuts);
            assert(cues.len() == target.len());
            assert forall|k: int| 0 <= k < cues.len() implies cues[k] == target[k] by {
                assert(self.is_cue_at(cues, cuts, k));
            }
            assert(cues =~= target);
            cuts
        }
    }

    /// The cues divide the words: each cue consists of consecutive words of one sentence,
    /// the first cue begins with the first word, each next one where the one before it
    /// ends, and the last one ends with the last word. A cue of more than one word stays
    /// inside the subtitle envelope.
    pub proof fn law_cues_divide_words(self)
        ensures
            exists|cuts: Seq<int>| #[trigger]
                self.divides(cuts, self.words.len() as int) && self.cues()
                    == self.whole().cues_between(cuts),
    {
        let cuts = self.lemma_cuts();
    }

    /// The runs of words that the cues are made of.
    proof fn lemma_cuts(self) -> (cuts: Seq<int>)
        ensures
            self.divides(cuts, self.words.len() as int),
            self.cues() == self.whole().cues_between(cuts),
            self.whole().words == self.words,
            cuts.len() == self.cues().len() + 1,
            forall|k: int|
                0 <= k < self.cues().len() ==> #[trigger] self.is_cue_at(self.cues(), cuts, k),
    {
        let cuts = self.lemma_cuts_before(self.words.len() as int);
        assert(self.whole().words =~= self.words);
        assert forall|k: int| 0 <= k < self.cues().len() implies #[trigger] self.is_cue_at(
            self.cues(),
            cuts,
            k,
        ) by {
            assert(self.is_span_at(cuts, k));
        }
        cuts
    }

    /// No word is dropped, duplicated or reordered: the texts of the cues, joined by
    /// spaces, are the texts of the words, joined by spaces.
    pub proof fn law_text_round_trips(self)
        ensures
            joined(self.cues()) == joined(self.words),
    {
        let cuts = self.lemma_cuts();
        let cues = self.cues();
        self.lemma_text_before(cuts, cues.len() as int);
        assert(cues.take(cues.len() as int) =~= cues);
        assert(self.words.take(self.words.len() as int) =~= self.words);
    }

    /// The texts of the first `k` cues are those of the words before the cut `k`.
    proof fn lemma_text_before(self, cuts: Seq<int>, k: int)
        requires
            self.divides(cuts, self.words.len() as int),
            self.cues() == self.whole().cues_between(cuts),
            0 <= k < cuts.len(),
        ensures
            0 <= cuts[k] <= self.words.len(),
            k > 0 ==> cuts[k] > 0,
            joined(self.cues().take(k)) == joined(self.words.take(cuts[k])),
        decreases k,
    {
        let cues = self.cues();
        assert(self.whole().words =~= self.words);
        if k == 0 {
            assert(cues.take(0) =~= Seq::<Speech>::empty());
            assert(self.words.take(0) =~= Seq::<Speech>::empty());
        } else {
            self.lemma_text_before(cuts, k - 1);
            assert(self.is_span_at(cuts, k - 1));
            let j = cuts[k - 1];
            let i = cuts[k];
            assert(cues.take(k).drop_last() =~= cues.take(k - 1));
            assert(cues.take(k).last() == self.whole().cue(j, i));
            if k == 1 {
                assert(self.words.take(i) =~= self.words.subrange(j, i));
            } else {
                lemma_joined_concat(self.words.take(j), self.words.subrange(j, i));
                assert(self.words.take(i) =~= self.words.take(j) + self.words.subrange(j, i));
            }
        }
    }

    /// The first cue starts with the first word.
    pub proof fn law_first_cue_starts_with_first_word(self)
        ensures
            self.words.len() == 0 <==> self.cues().len() == 0,
            self.words.len() > 0 ==> self.cues()[0].start == self.words[0].start,
    {
        let cuts = self.lemma_cuts();
        if self.words.len() == 0 {
            if cuts.len() >= 2 {
                assert(self.is_span_at(cuts, 0));
            }
        } else {
            assert(cuts.len() >= 2);
            assert(self.is_cue_at(self.cues(), cuts, 0));
        }
    }

    /// Where every word has text, every cue has.
    pub proof fn law_cues_have_text(self)
        requires
            forall|m: int| 0 <= m < self.words.len() ==> (#[trigger] self.words[m]).text.len() > 0,
        ensures
            forall|k: int|
                0 <= k < self.cues().len() ==> (#[trigger] self.cues()[k]).text.len() > 0,
    {
        let cuts = self.lemma_cuts();
        assert forall|k: int| 0 <= k < self.cues().len() implies (
        #[trigger] self.cues()[k]).text.len() > 0 by {
            assert(self.is_cue_at(self.cues(), cuts, k));
            let run = self.words.subrange(cuts[k], cuts[k + 1]);
            assert(run.last() == self.words[cuts[k + 1] - 1]);
        }
    }

    /// No cue is shown past the start of the next one, whatever the timestamps.
    pub proof fn law_cues_do_not_overlap(self)
        ensures
            forall|k: int|
                0 <= k < self.cues().len() - 1 ==> (#[trigger] self.cues()[k]).end
                    <= self.cues()[k + 1].start,
    {
        let cuts = self.lemma_cuts();
        assert forall|k: int| 0 <= k < self.cues().len() - 1 implies (
        #[trigger] self.cues()[k]).end <= self.cues()[k + 1].start by {
            assert(self.is_cue_at(self.cues(), cuts, k));
            assert(self.is_cue_at(self.cues(), cuts, k + 1));
        }
    }

    /// Where words start one after the other, cues do.
    pub proof fn law_cue_starts_increase(self)
        requires
            self.starts_increase(),
        ensures
            forall|k: int|
                0 <= k < self.cues().len() - 1 ==> (#[trigger] self.cues()[k]).start
                    < self.cues()[k + 1].start,
    {
        let cuts = self.lemma_cuts();
        assert forall|k: int| 0 <= k < self.cues().len() - 1 implies (
        #[trigger] self.cues()[k]).start < self.cues()[k + 1].start by {
            assert(self.is_cue_at(self.cues(), cuts, k));
            assert(self.is_cue_at(self.cues(), cuts, k + 1));
            assert(self.words[cuts[k]].start < self.words[cuts[k + 1]].start);
        }
    }

    /// Where words start one after the other and the last one ends after it starts, every
    /// cue is shown for some time.
    pub proof fn law_cues_have_positive_duration(self)
        requires
            self.starts_increase(),
            self.words.len() > 0 ==> self.words.last().start < self.words.last().end,
        ensures
            forall|k: int|
                0 <= k < self.cues().len() ==> (#[trigger] self.cues()[k]).start
                    < self.cues()[k].end,
    {
        let cuts = self.lemma_cuts();
        assert forall|k: int| 0 <= k < self.cues().len() implies (#[trigger] self.cues()[k]).start
            < self.cues()[k].end by {
            assert(self.is_cue_at(self.cues(), cuts, k));
            let j = cuts[k];
            let i = cuts[k + 1];
            let first = self.words[j];
            if i < self.words.len() {
                assert(first.start < self.words[i].start);
            } else if j < i - 1 {
                assert(first.start < self.words[i - 1].start);
            }
        }
    }

    /// A cue of more than one word is on screen for at most seven seconds and, wrapped,
    /// takes one fitting line or two. A cue of one word is its text and lasts no longer
    /// than the word takes to say and to linger, or the readability floor.
    pub proof fn law_cues_fit_envelope(self, k: int)
        requires
            0 <= k < self.cues().len(),
        ensures
            ({
                let cue = self.cues()[k];
                ||| exists|m: int|
                    {
                        &&& 0 <= m < self.words.len()
                        &&& cue.text == (#[trigger] self.words[m]).text
                        &&& cue.start == self.words[m].start
                        &&& cue.end <= lingered(self.words[m]) || cue.end <= cue.start
                            + MIN_CUE_NANOS
                    }
                ||| {
                    &&& cue.end - cue.start <= MAX_CUE_NANOS
                    &&& wraps_into_fitting_lines(cue.text)
                }
            }),
    {
        let cuts = self.lemma_cuts();
        let cue = self.cues()[k];
        assert(self.is_cue_at(self.cues(), cuts, k));
        let j = cuts[k];
        let i = cuts[k + 1];
        let whole = self.whole();
        if i == j + 1 {
            let run = self.words.subrange(j, i);
            assert(run[0] == self.words[j]);
            assert(cue.text == self.words[j].text);
        } else {
            lemma_span_wraps(whole, j, i);
        }
    }
}

/// Whether a cue's text, as it is shown, takes one line that fits or two lines that fit.
pub open spec fn wraps_into_fitting_lines(text: Seq<char>) -> bool {
    ||| text.len() <= MAX_LINE_CHARS && balanced(text) == text
    ||| exists|q: int|
        {
            &&& 0 <= q < text.len()
            &&& #[trigger] text[q] == ' '
            &&& lines_fit(text, q)
            &&& balanced(text) == broken_at(text, q)
        }
}

/// Words that can be laid out as two fitting lines are.
proof fn lemma_span_wraps(s: Sentence, j: int, i: int)
    requires
        0 <= j < i <= s.words.len(),
        s.fits_two_lines(j, i),
    ensures
        wraps_into_fitting_lines(s.cue_text(j, i)),
{
    let text = s.cue_text(j, i);
    if text.len() > MAX_LINE_CHARS {
        let k = choose|k: int| j < k < i && #[trigger] s.fits_when_cut(j, k, i);
        let first = s.words.subrange(j, k);
        let second = s.words.subrange(k, i);
        lemma_joined_concat(first, second);
        assert(s.words.subrange(j, i) =~= first + second);
        let p = joined(first).len() as int;
        assert(text[p] == ' ');
        law_lines_fit_when_they_can(text, p);
    }
}

/// Joining two runs of words puts one space between their joined texts, and a word alone is
/// joined to its own text.
pub proof fn law_words_are_joined_by_spaces(a: Seq<Speech>, b: Seq<Speech>)
    ensures
        a.len() > 0 && b.len() > 0 ==> joined(a + b) == joined(a) + seq![' '] + joined(b),
        a.len() == 1 ==> joined(a) == a[0].text,
        a.len() == 0 ==> joined(a).len() == 0,
{
    if a.len() > 0 && b.len() > 0 {
        lemma_joined_concat(a, b);
    }
}

/// Joining two runs of words joins their joined texts.
proof fn lemma_joined_concat(a: Seq<Speech>, b: Seq<Speech>)
    requires
        a.len() > 0,
        b.len() > 0,
    ensures
        joined(a + b) == joined(a) + seq![' '] + joined(b),
    decreases b.len(),
{
    let both = a + b;
    assert(both.last() == b.last());
    if b.len() == 1 {
        assert(both.drop_last() =~= a);
    } else {
        assert(both.drop_last() =~= a + b.drop_last());
        lemma_joined_concat(a, b.drop_last());
        assert(joined(both) =~= joined(a) + seq![' '] + joined(b));
    }
}

impl Sentence {
    /// Whether words start one after the other, or at the same time.
    pub open spec fn starts_in_order(self) -> bool {
        forall|a: int, b: int|
            0 <= a <= b < self.words.len() ==> (#[trigger] self.words[a]).start <= (
            #[trigger] self.words[b]).start
    }

    /// Shrinking a run of words that two fitting lines can hold leaves one that they can
    /// hold.
    pub proof fn law_shrinking_keeps_fit(self, j: int, i: int)
        requires
            0 <= j < i - 1,
            i <= self.words.len(),
            self.fits_two_lines(j, i),
        ensures
            self.fits_two_lines(j + 1, i),
    {
        self.lemma_shorter_text(j, i);
        if self.cue_text(j, i).len() > MAX_LINE_CHARS {
            let k = choose|k: int| j < k < i && #[trigger] self.fits_when_cut(j, k, i);
            if k > j + 1 {
                self.lemma_shorter_text(j, k);
                assert(self.fits_when_cut(j + 1, k, i));
            }
        }
    }

    /// Leaving out the first word makes a text shorter.
    proof fn lemma_shorter_text(self, j: int, i: int)
        requires
            0 <= j < i - 1,
            i <= self.words.len(),
        ensures
            self.cue_text(j + 1, i).len() < self.cue_text(j, i).len(),
    {
        let first = self.words.subrange(j, j + 1);
        let rest = self.words.subrange(j + 1, i);
        lemma_joined_concat(first, rest);
        assert(self.words.subrange(j, i) =~= first + rest);
    }

    /// Where words start in order, both limits only tighten as a cue grows towards the
    /// front: a run of words may be a cue exactly if it is a single word or stays inside
    /// the envelope itself.
    pub proof fn law_limits_are_monotone(self, j: int, i: int)
        requires
            self.starts_in_order(),
            0 <= j < i <= self.words.len(),
        ensures
            self.may_be_cue(j, i) <==> j == i - 1 || self.within_limits(j, i),
    {
        if j < i - 1 && self.within_limits(j, i) {
            assert forall|k: int| j <= k < i - 1 implies #[trigger] self.within_limits(k, i) by {
                self.lemma_limits_from(j, k, i);
            }
        }
    }

    proof fn lemma_limits_from(self, j: int, k: int, i: int)
        requires
            self.starts_in_order(),
            0 <= j <= k < i - 1,
            i <= self.words.len(),
            self.within_limits(j, i),
        ensures
            self.within_limits(k, i),
        decreases k,
    {
        if j < k {
            self.lemma_limits_from(j, k - 1, i);
            self.law_shrinking_keeps_fit(k - 1, i);
            assert(self.words[k - 1].start <= self.words[k].start);
            law_held_times_keep_order(self.words[k - 1].start, self.words[k].start);
            law_rounding_keeps_order(
                self.shown_until_ticks(i) - time_ticks(self.words[k].start),
                self.shown_until_ticks(i) - time_ticks(self.words[k - 1].start),
            );
        }
    }
}

impl Passage {
    /// The run of words between two cuts that holds word `m`.
    proof fn lemma_run_of(self, cuts: Seq<int>, m: int, from: int) -> (k: int)
        requires
            self.divides(cuts, self.words.len() as int),
            0 <= from < cuts.len(),
            cuts[from] <= m < self.words.len(),
        ensures
            from <= k < cuts.len() - 1,
            cuts[k] <= m < cuts[k + 1],
        decreases cuts.len() - from,
    {
        if cuts[from + 1] <= m {
            self.lemma_run_of(cuts, m, from + 1)
        } else {
            from
        }
    }

    /// A sentence's end is a cut.
    proof fn lemma_cut_at_sentence_end(self, cuts: Seq<int>, m: int) -> (k: int)
        requires
            self.divides(cuts, self.words.len() as int),
            0 <= m < self.words.len(),
            self.ended(m),
        ensures
            0 < k < cuts.len(),
            cuts[k] == m + 1,
    {
        let k = self.lemma_run_of(cuts, m, 0);
        assert(self.is_span_at(cuts, k));
        k + 1
    }

    /// The run of words that a cue is made of.
    proof fn lemma_run_of_cue(self, k: int) -> (run: (int, int))
        requires
            0 <= k < self.cues().len(),
        ensures
            self.is_span(run.0, run.1),
            self.whole().words == self.words,
            self.cues()[k] == self.whole().cue(run.0, run.1),
            k == 0 ==> run.0 == 0,
            k == self.cues().len() - 1 <==> run.1 == self.words.len(),
            k < self.cues().len() - 1 ==> self.cues()[k + 1].start == self.words[run.1].start,
    {
        let cuts = self.lemma_cuts();
        assert(self.is_cue_at(self.cues(), cuts, k));
        assert(self.is_span_at(cuts, k));
        if k < self.cues().len() - 1 {
            assert(self.is_cue_at(self.cues(), cuts, k + 1));
        }
        (cuts[k], cuts[k + 1])
    }

    /// The texts of the cues from the `k`-th on are those of the words from the cut `k` on.
    proof fn lemma_text_after(self, cuts: Seq<int>, k: int)
        requires
            self.divides(cuts, self.words.len() as int),
            self.cues() == self.whole().cues_between(cuts),
            0 < k < cuts.len() - 1,
        ensures
            0 < cuts[k] < self.words.len(),
            joined(self.cues().skip(k)) == joined(self.words.skip(cuts[k])),
    {
        let cues = self.cues();
        let words = self.words;
        self.lemma_text_before(cuts, k);
        self.law_text_round_trips();
        assert(self.is_span_at(cuts, k));
        let c = cuts[k];
        lemma_joined_concat(cues.take(k), cues.skip(k));
        lemma_joined_concat(words.take(c), words.skip(c));
        assert(cues.take(k) + cues.skip(k) =~= cues);
        assert(words.take(c) + words.skip(c) =~= words);
        let head = joined(cues.take(k)).len() as int + 1;
        let all = joined(cues);
        assert(joined(cues.skip(k)) =~= all.skip(head));
        assert(joined(words.skip(c)) =~= all.skip(head));
    }
}

/// A sentence ends after word `k`, whose text is `word`, exactly if one of `.`, `?` and `!`
/// stands in it with nothing but closing quotes and brackets after it, and the first letter
/// or digit of the text of word `k + 1`, which is `next`, is an uppercase letter or a number.
pub proof fn law_sentences_end_between_words(
    words: Seq<Speech>,
    k: int,
    word: Seq<char>,
    next: Seq<char>,
)
    requires
        0 <= k < words.len() - 1,
        words[k].text == word,
        words[k + 1].text == next,
    ensures
        passage_of(words).ended(k) <==> {
            &&& exists|e: int|
                {
                    &&& 0 <= e < word.len()
                    &&& #[trigger] word[e] == '.' || word[e] == '?' || word[e] == '!'
                    &&& forall|m: int|
                        e < m < word.len() ==> #[trigger] word[m] == '"' || word[m] == '\''
                            || word[m] == ')' || word[m] == '”' || word[m] == '’'
                }
            &&& exists|f: int|
                {
                    &&& 0 <= f < next.len()
                    &&& is_letter_or_digit(#[trigger] next[f])
                    &&& is_upper(next[f]) || is_number(next[f])
                    &&& forall|m: int| 0 <= m < f ==> !is_letter_or_digit(#[trigger] next[m])
                }
        },
{
    lemma_final_punctuation(word);
    lemma_sentence_start(next);
    assert(passage_of(words).ended(k) == sentence_ends(words)[k]);
}

/// No cue spans the end of a sentence: where the text of word `k` has `.`, `?` or `!` at `e`
/// and only closing quotes and brackets after it, and the first letter or digit of the text
/// of word `k + 1`, at `f`, is an uppercase letter or a number, a cue begins with word
/// `k + 1`. The cues before it have the texts of the words up to word `k`, and it and those
/// after it have the texts of the words from word `k + 1` on. So `k + 1` is one of the cuts
/// that divide the words into cues.
pub proof fn law_sentences_are_kept_apart(words: Seq<Speech>, k: int, e: int, f: int) -> (cuts: Seq<
    int,
>)
    requires
        0 <= k < words.len() - 1,
        0 <= e < words[k].text.len(),
        words[k].text[e] == '.' || words[k].text[e] == '?' || words[k].text[e] == '!',
        forall|m: int|
            e < m < words[k].text.len() ==> #[trigger] words[k].text[m] == '"' || words[k].text[m]
                == '\'' || words[k].text[m] == ')' || words[k].text[m] == '”' || words[k].text[m]
                == '’',
        0 <= f < words[k + 1].text.len(),
        is_letter_or_digit(words[k + 1].text[f]),
        is_upper(words[k + 1].text[f]) || is_number(words[k + 1].text[f]),
        forall|m: int| 0 <= m < f ==> !is_letter_or_digit(#[trigger] words[k + 1].text[m]),
    ensures
        passage_of(words).divides(cuts, words.len() as int),
        passage_of(words).cues() == passage_of(words).whole().cues_between(cuts),
        cuts.contains(k + 1),
        exists|c: int|
            {
                &&& 0 < c < passage_of(words).cues().len()
                &&& (#[trigger] passage_of(words).cues()[c]).start == words[k + 1].start
                &&& joined(passage_of(words).cues().take(c)) == joined(words.take(k + 1))
                &&& joined(passage_of(words).cues().skip(c)) == joined(words.skip(k + 1))
            },
{
    let p = passage_of(words);
    let word = words[k].text;
    let next = words[k + 1].text;
    law_sentences_end_between_words(words, k, word, next);
    assert(p.ended(k)) by {
        assert(word[e] == '.' || word[e] == '?' || word[e] == '!');
        assert(is_letter_or_digit(next[f]));
        assert forall|m: int| e < m < word.len() implies #[trigger] word[m] == '"' || word[m]
            == '\'' || word[m] == ')' || word[m] == '”' || word[m] == '’' by {
            assert(words[k].text[m] == word[m]);
        }
        assert forall|m: int| 0 <= m < f implies !is_letter_or_digit(#[trigger] next[m]) by {
            assert(words[k + 1].text[m] == next[m]);
        }
    }
    let cuts = p.lemma_cuts();
    let c = p.lemma_cut_at_sentence_end(cuts, k);
    assert(c < cuts.len() - 1);
    p.lemma_text_before(cuts, c);
    p.lemma_text_after(cuts, c);
    assert(p.is_cue_at(p.cues(), cuts, c));
    assert(p.cues()[c].start == words[k + 1].start);
    assert(cuts[c] == k + 1);
    cuts
}

/// What it costs to end a cue after word `k`, in mid-sentence: 4 at a pause of 0.8 seconds
/// after the word has been said, and otherwise 8 after a comma or three dots, 4 after a colon
/// or a semicolon, 40 after a function word and 30 after any other. A word takes a quarter
/// of a second to say and 0.09 seconds for each character of it. Up to 16 microseconds off
/// that pause it is one or the other. Costs are counted in billionths.
pub proof fn law_boundary_costs(words: Seq<Speech>, k: int)
    requires
        0 <= k < words.len() - 1,
    ensures
        ({
            let cost = passage_of(words).costs[k];
            let text = words[k].text;
            let n = text.len() as int;
            let silence = words[k + 1].start - words[k].start - 250_000_000 - 90_000_000 * n;
            let clause = n > 0 && text[n - 1] == ',' || (n >= 3 && text[n - 1] == '.' && text[n - 2]
                == '.' && text[n - 3] == '.');
            let colon = n > 0 && (text[n - 1] == ':' || text[n - 1] == ';');
            &&& silence > 800_016_000 ==> cost == 4_000_000_000
            &&& silence < 799_984_000 && clause ==> cost == 8_000_000_000
            &&& colon ==> cost == 4_000_000_000
            &&& silence < 799_984_000 && !clause && !colon && introduces_phrase(text) ==> cost
                == 40_000_000_000
            &&& silence < 799_984_000 && !clause && !colon && !introduces_phrase(text) ==> cost
                == 30_000_000_000
            &&& clause ==> cost == 4_000_000_000 || cost == 8_000_000_000
            &&& !clause && !colon && introduces_phrase(text) ==> cost == 4_000_000_000 || cost
                == 40_000_000_000
            &&& !clause && !colon && !introduces_phrase(text) ==> cost == 4_000_000_000 || cost
                == 30_000_000_000
        }),
{
    assert(passage_of(words).costs[k] == boundary_price(
        words[k],
        words[k + 1].start,
        introduces_phrase(words[k].text),
    ));
}

/// Where a cue comes from: it consists of the words `j..i`, starts with the first of them,
/// has their texts joined by spaces, and the next one starts with word `i`. It stays until
/// its last word has been said, by estimate, and half a second more, and for a second at
/// least, but never past the start of the next word, or past the end of the very last one.
/// If it has several words, they take at most two lines of 42 characters, and saying them
/// and the half second end within seven seconds of its start, or the next word starts then.
pub proof fn law_cue_times(words: Seq<Speech>, k: int) -> (run: (int, int))
    requires
        0 <= k < passage_of(words).cues().len(),
    ensures
        ({
            let cues = passage_of(words).cues();
            let cue = cues[k];
            let (j, i) = run;
            let said = words[i - 1].start + 250_000_000 + 90_000_000 * words[i - 1].text.len();
            let cap = if i < words.len() {
                words[i].start
            } else {
                words[i - 1].end
            };
            &&& 0 <= j < i <= words.len()
            &&& k == 0 ==> j == 0
            &&& k == cues.len() - 1 <==> i == words.len()
            &&& k < cues.len() - 1 ==> cues[k + 1].start == words[i].start
            &&& cue.start == words[j].start
            &&& cue.text == joined(words.subrange(j, i))
            &&& cue.end <= cap
            &&& cue.end < cap ==> cue.end >= said + 500_000_000 && cue.end >= cue.start
                + 1_000_000_000
            &&& cue.end == cap || cue.end == said + 500_000_000 || cue.end == cue.start
                + 1_000_000_000
            &&& i > j + 1 ==> said + 500_000_000 - cue.start <= 7_000_000_000 || cap - cue.start
                <= 7_000_000_000
            &&& i > j + 1 ==> cue.text.len() <= 42 || exists|b: int|
                j < b < i && (#[trigger] joined(words.subrange(run.0, b))).len() <= 42 && joined(
                    words.subrange(b, i),
                ).len() <= 42
        }),
{
    let p = passage_of(words);
    let run = p.lemma_run_of_cue(k);
    let (j, i) = run;
    let whole = p.whole();
    if i > j + 1 {
        whole.lemma_within_limits(j, i);
    }
    run
}

impl Sentence {
    /// The subtitle envelope, in numbers.
    proof fn lemma_within_limits(self, j: int, i: int)
        requires
            0 <= j < i <= self.words.len(),
            self.within_limits(j, i),
        ensures
            ({
                let said = self.words[i - 1].start + 250_000_000 + 90_000_000 * self.words[i
                    - 1].text.len();
                let cap = self.display_cap(i);
                ||| said + 500_000_000 - self.words[j].start <= 7_000_000_000
                ||| cap - self.words[j].start <= 7_000_000_000
            }),
            joined(self.words.subrange(j, i)).len() <= 42 || exists|b: int|
                j < b < i && (#[trigger] joined(self.words.subrange(j, b))).len() <= 42 && joined(
                    self.words.subrange(b, i),
                ).len() <= 42,
    {
        if self.cue_text(j, i).len() > 42 {
            let b = choose|b: int| j < b < i && #[trigger] self.fits_when_cut(j, b, i);
            assert(joined(self.words.subrange(j, b)).len() <= 42);
        }
    }

    /// What a cue of the words `j..i` costs: 25 for every second that it falls short of one
    /// second on the screen, 1 for every character that it falls short of 20, and what it
    /// costs to end it there, which is nothing at the end of the sentence. Costs are counted
    /// in billionths.
    pub proof fn law_cue_costs(self, j: int, i: int)
        requires
            0 <= j < i <= self.words.len(),
        ensures
            ({
                let last = self.words[i - 1];
                let said = last.start + 250_000_000 + 90_000_000 * last.text.len() + 500_000_000;
                let cap = if i < self.words.len() {
                    self.words[i].start
                } else {
                    match self.next_start {
                        Some(next) => next,
                        None => last.end,
                    }
                };
                let shown = if said <= cap {
                    said - self.words[j].start
                } else {
                    cap - self.words[j].start
                };
                let chars = joined(self.words.subrange(j, i)).len() as int;
                let hurry = if shown < 1_000_000_000 {
                    25 * (1_000_000_000 - shown)
                } else {
                    0
                };
                let crumb = if chars < 20 {
                    1_000_000_000 * (20 - chars)
                } else {
                    0
                };
                let ending = if i < self.words.len() {
                    self.break_costs[i - 1]
                } else {
                    0
                };
                self.price(j, i) == hurry + crumb + ending
            }),
    {
    }

    /// What several cues cost is what each of them costs.
    pub proof fn law_costs_add_up(self, cuts: Seq<int>, i: int)
        requires
            cuts.len() > 0,
        ensures
            self.total(cuts.push(i)) == self.total(cuts) + self.price(cuts.last(), i),
            cuts.len() == 1 ==> self.total(cuts) == 0,
    {
        assert(cuts.push(i).drop_last() =~= cuts);
    }

    /// Of the ways to cut a sentence that cost the least, the one is taken whose last cue is
    /// the shortest.
    pub proof fn law_shorter_last_cue_wins_ties(self, other: Seq<int>)
        requires
            self.words.len() > 0,
            self.is_cheapest(other, self.words.len() as int),
        ensures
            ({
                let best = self.best_cuts(self.words.len() as int);
                &&& best.len() >= 2
                &&& other.len() >= 2
                &&& self.total(best) == self.total(other)
                &&& best[best.len() - 2] >= other[other.len() - 2]
            }),
    {
        let n = self.words.len() as int;
        self.law_best_cuts();
        let best = self.best_cuts(n);
        assert(self.is_best(best, n));
        assert(preferred(best, other));
    }

    /// Costs are not negative where breaks cost something.
    proof fn lemma_total_is_positive(self, cuts: Seq<int>, i: int)
        requires
            self.is_split(cuts, i),
            i < self.words.len(),
            self.break_costs.len() >= self.words.len() - 1,
            forall|m: int| 0 <= m < self.words.len() - 1 ==> #[trigger] self.break_costs[m] > 0,
        ensures
            self.total(cuts) >= 0,
            i > 0 ==> self.total(cuts) > 0,
        decreases cuts.len(),
    {
        if cuts.len() >= 2 {
            let rest = cuts.drop_last();
            let j = cuts[cuts.len() - 2];
            assert(self.is_step(cuts, cuts.len() - 2));
            assert(self.may_be_cue(j, i));
            assert forall|k: int| 0 <= k < rest.len() - 1 implies #[trigger] self.is_step(
                rest,
                k,
            ) by {
                assert(self.is_step(cuts, k));
            }
            self.lemma_total_is_positive(rest, j);
            assert(self.break_costs[i - 1] > 0);
        }
    }

    /// A sentence that may be one cue is one.
    proof fn lemma_one_cue(self)
        requires
            self.words.len() > 0,
            self.starts_in_order(),
            self.within_limits(0, self.words.len() as int),
            self.break_costs.len() >= self.words.len() - 1,
            forall|m: int| 0 <= m < self.words.len() - 1 ==> #[trigger] self.break_costs[m] > 0,
        ensures
            self.cues().len() == 1,
            self.cues()[0] == self.cue(0, self.words.len() as int),
    {
        let n = self.words.len() as int;
        let one = seq![0, n];
        self.law_limits_are_monotone(0, n);
        assert forall|k: int| 0 <= k < one.len() - 1 implies #[trigger] self.is_step(one, k) by {
            assert(self.may_be_cue(0, n));
        }
        assert(self.is_split(one, n));
        self.law_best_cuts();
        let best = self.best_cuts(n);
        assert(self.is_split(best, n));
        assert(best.len() >= 2);
        let j = best[best.len() - 2];
        let rest = best.drop_last();
        assert(self.is_step(best, best.len() - 2));
        assert(self.may_be_cue(j, n));
        assert(one.drop_last() =~= seq![0int]);
        assert(self.total(seq![0int]) == 0);
        assert(self.total(one) == self.price(0, n));
        assert forall|k: int| 0 <= k < rest.len() - 1 implies #[trigger] self.is_step(rest, k) by {
            assert(self.is_step(best, k));
        }
        self.lemma_total_is_positive(rest, j);
        if j > 0 {
            lemma_joined_concat(self.words.subrange(0, j), self.words.subrange(j, n));
            assert(self.words.subrange(0, n) =~= self.words.subrange(0, j) + self.words.subrange(
                j,
                n,
            ));
            assert(self.words[0].start <= self.words[j].start);
            assert(self.price(j, n) >= self.price(0, n));
            assert(false);
        }
        if rest.len() >= 2 {
            assert(self.is_step(best, best.len() - 3));
            assert(self.may_be_cue(best[best.len() - 3], 0));
        }
        assert(best =~= one);
    }
}

/// A sentence that fits is not broken up: words that start in order, none of which but the
/// last ends a sentence, that take one line of 42 characters, or two with a break before
/// word `b`, and that leave the screen within seven seconds, less what rounding can make
/// of it, become one cue.
pub proof fn law_fitting_sentence_is_one_cue(words: Seq<Speech>, b: int)
    requires
        words.len() > 0,
        forall|x: int, y: int|
            0 <= x <= y < words.len() ==> (#[trigger] words[x]).start <= (#[trigger] words[y]).start,
        forall|k: int|
            0 <= k < words.len() - 1 ==> runs_on((#[trigger] words[k]).text, words[k + 1].text),
        joined(words).len() <= 42 || (0 < b < words.len() && joined(words.take(b)).len() <= 42
            && joined(words.skip(b)).len() <= 42),
        words.last().start + 750_000_000 + 90_000_000 * words.last().text.len() - words[0].start
            < 6_999_984_000 || words.last().end - words[0].start < 6_999_984_000,
    ensures
        ({
            let cues = passage_of(words).cues();
            let last = words.last();
            let said = last.start + 750_000_000 + 90_000_000 * last.text.len();
            &&& cues.len() == 1
            &&& cues[0].start == words[0].start
            &&& cues[0].text == joined(words)
            &&& cues[0].end <= last.end
            &&& cues[0].end < last.end ==> cues[0].end >= said && cues[0].end >= words[0].start
                + 1_000_000_000
            &&& cues[0].end == last.end || cues[0].end == said || cues[0].end == words[0].start
                + 1_000_000_000
        }),
{
    let s = passage_of(words).whole();
    let n = words.len() as int;
    assert(s.words =~= words);
    assert(passage_of(words).cues() == s.cues()) by {
        lemma_one_sentence(words);
    }
    assert(s.cues().len() == 1 && s.cues()[0] == s.cue(0, n)) by {
        lemma_costs_are_positive(words);
        lemma_fits(words, b);
        s.lemma_one_cue();
    }
    assert(words.subrange(0, n) =~= words);
}

/// Every break inside a sentence costs something.
proof fn lemma_costs_are_positive(words: Seq<Speech>)
    ensures
        forall|m: int|
            0 <= m < words.len() - 1 ==> #[trigger] passage_of(words).whole().break_costs[m] > 0,
{
    let s = passage_of(words).whole();
    assert forall|m: int| 0 <= m < words.len() - 1 implies #[trigger] s.break_costs[m] > 0 by {
        law_boundary_costs(words, m);
    }
}

/// Words that take two lines at most and do not take too long stay inside the envelope.
proof fn lemma_fits(words: Seq<Speech>, b: int)
    requires
        words.len() > 0,
        joined(words).len() <= 42 || (0 < b < words.len() && joined(words.take(b)).len() <= 42
            && joined(words.skip(b)).len() <= 42),
        words.last().start + 750_000_000 + 90_000_000 * words.last().text.len() - words[0].start
            < 6_999_984_000 || words.last().end - words[0].start < 6_999_984_000,
    ensures
        passage_of(words).whole().within_limits(0, words.len() as int),
{
    let s = passage_of(words).whole();
    let n = words.len() as int;
    assert(s.words =~= words);
    assert(words.subrange(0, n) =~= words);
    if joined(words).len() > 42 {
        assert(words.subrange(0, b) =~= words.take(b));
        assert(words.subrange(b, n) =~= words.skip(b));
        assert(s.fits_when_cut(0, b, n));
    }
    assert(s.shown_for(0, n) < 6_999_984_000);
}

/// Words that run on to one another are one sentence.
proof fn lemma_one_sentence(words: Seq<Speech>)
    requires
        words.len() > 0,
        forall|k: int|
            0 <= k < words.len() - 1 ==> runs_on((#[trigger] words[k]).text, words[k + 1].text),
    ensures
        passage_of(words).cues() == passage_of(words).whole().cues(),
{
    let p = passage_of(words);
    let n = words.len() as int;
    assert forall|m: int| 0 <= m < n - 1 implies !#[trigger] p.ended(m) by {
        lemma_runs_on(words, m);
    }
    p.lemma_sentence_start(n - 1);
    let from = p.sentence_start(n - 1);
    if from > 0 {
        assert(p.ended(from - 1));
    }
    assert(p.cues() =~= p.whole().cues());
}

proof fn lemma_runs_on(words: Seq<Speech>, k: int)
    requires
        0 <= k < words.len() - 1,
        runs_on(words[k].text, words[k + 1].text),
    ensures
        !passage_of(words).ended(k),
{
    law_sentences_end_between_words(words, k, words[k].text, words[k + 1].text);
}

/// Whether the text of a word has no sentence-final mark in it, or the text of the next word
/// no uppercase letter and no number.
pub open spec fn runs_on(text: Seq<char>, next: Seq<char>) -> bool {
    ||| forall|e: int|
        0 <= e < text.len() ==> #[trigger] text[e] != '.' && text[e] != '?' && text[e] != '!'
    ||| forall|f: int|
        0 <= f < next.len() ==> !is_upper(#[trigger] next[f]) && !is_number(next[f])
}

/// Whether there is a pause after a word is decided as 64-bit floating-point numbers of
/// seconds decide it: the next word starts at least 0.8 later than this one, less 0.25, and
/// less 0.09 for each character, every operation being rounded.
pub proof fn law_pauses_follow_floating_point(word: Speech, next_start: int)
    requires
        i64::MIN <= word.start <= i64::MAX,
        i64::MIN <= next_start <= i64::MAX,
    ensures
        is_pause(word, next_start) <==> as_float(
            as_float(time_ticks(next_start) - time_ticks(word.start)) - as_float(
                time_ticks(250_000_000) + as_float(
                    time_ticks(90_000_000) * as_float(word.text.len() as int),
                ),
            ),
        ) >= time_ticks(800_000_000),
{
    lemma_ticks_of_limits();
    law_pauses_are_those_of_floats(word, next_start);
}

impl Sentence {
    /// Whether a cue of the words `j..i` is shown for too long: for more than seven seconds,
    /// or for more than 7 as 64-bit floating-point numbers of seconds have it, every
    /// operation being rounded. It is shown until its last word has been said, which takes a
    /// quarter of a second and 0.09 for each character, and half a second more, but not past
    /// `cap`, where the next word starts or the last one ends.
    pub proof fn law_limit_follows_floating_point(self, j: int, i: int, cap: int)
        requires
            0 <= j < i <= self.words.len(),
            cap == (if i < self.words.len() {
                self.words[i].start
            } else if self.next_start is Some {
                self.next_start->0
            } else {
                self.words[i - 1].end
            }),
            i64::MIN <= cap <= i64::MAX,
            i64::MIN <= self.words[j].start <= i64::MAX,
            i64::MIN <= self.words[i - 1].start <= i64::MAX,
        ensures
            ({
                let start = self.words[j].start;
                let last = self.words[i - 1];
                let letters = last.text.len() as int;
                let said = last.start + 250_000_000 + 90_000_000 * letters + 500_000_000;
                let said_ticks = as_float(
                    as_float(
                        time_ticks(last.start) + as_float(
                            time_ticks(250_000_000) + as_float(
                                time_ticks(90_000_000) * as_float(letters),
                            ),
                        ),
                    ) + time_ticks(500_000_000),
                );
                let until_ticks = if said_ticks <= time_ticks(cap) {
                    said_ticks
                } else {
                    time_ticks(cap)
                };
                self.is_overlong(j, i) <==> {
                    ||| said - start > 7_000_000_000 && cap - start > 7_000_000_000
                    ||| as_float(until_ticks - time_ticks(start)) > time_ticks(7_000_000_000)
                }
            }),
    {
        let start = self.words[j].start;
        let last = self.words[i - 1];
        let letters = last.text.len() as int;
        let said = last.start + 250_000_000 + 90_000_000 * letters + 500_000_000;
        lemma_ticks_of_limits();
        let product = time_ticks(90_000_000) * as_float(letters);
        let spoken = time_ticks(250_000_000) + as_float(product);
        let over = time_ticks(last.start) + as_float(spoken);
        let lingering = as_float(over) + time_ticks(500_000_000);
        let said_ticks = as_float(lingering);
        assert(spoken_ticks(last.text) == as_float(spoken));
        lemma_said_is_close(last, said_ticks);
        law_held_times_are_close(cap);
        law_held_times_are_close(start);
        assert(self.display_cap(i) == cap);
        assert(lingered(last) == said);
        let until_ticks = if said_ticks <= time_ticks(cap) {
            said_ticks
        } else {
            time_ticks(cap)
        };
        assert(until_ticks == self.shown_until_ticks(i));
        let gap = until_ticks - time_ticks(start);
        law_rounding_is_close(gap);
    }
}

/// How large a number is, whatever its sign.
spec fn magnitude(x: int) -> int {
    if x < 0 {
        -x
    } else {
        x
    }
}

/// How close the end of a word comes to the exact one, every operation being rounded.
proof fn lemma_said_is_close(word: Speech, said_ticks: int)
    requires
        i64::MIN <= word.start <= i64::MAX,
        said_ticks == as_float(
            as_float(
                time_ticks(word.start) + as_float(
                    time_ticks(250_000_000) + as_float(
                        time_ticks(90_000_000) * as_float(word.text.len() as int),
                    ),
                ),
            ) + time_ticks(500_000_000),
        ),
    ensures
        ({
            let said = word.start + 250_000_000 + 90_000_000 * word.text.len() + 500_000_000;
            let off = 1_000_000_000 * said_ticks - said * 4_835_703_278_458_516_698_824_704;
            let slack = 0x2000_0000 * (magnitude(word.start) + 5 * (250_000_000 + 90_000_000
                * word.text.len()) + magnitude(said - 500_000_000) + magnitude(said)
                + 1_000_000_000);
            -slack <= off <= slack
        }),
{
    let letters = word.text.len() as int;
    lemma_ticks_of_limits();
    let product = time_ticks(90_000_000) * as_float(letters);
    let spoken = time_ticks(250_000_000) + as_float(product);
    let over = time_ticks(word.start) + as_float(spoken);
    let lingering = as_float(over) + time_ticks(500_000_000);
    assert(product == 435_213_295_061_266_486_788_096 * as_float(letters));
    law_held_times_are_close(word.start);
    law_rounding_is_close(letters);
    law_rounding_is_close(product);
    law_rounding_is_close(spoken);
    law_rounding_is_close(over);
    law_rounding_is_close(lingering);
}

/// Every sentence is cut on its own: where the words `from..to` are a sentence, the cues of
/// the words up to `to` are those of the words up to `from` and those of a sentence of these
/// words, before the word that follows them, with what it costs to end a cue between them.
/// And the cues of all words are those of the words up to the last one.
pub proof fn law_sentences_are_cut_on_their_own(words: Seq<Speech>, from: int, to: int)
    requires
        0 <= from < to <= words.len(),
        from == 0 || passage_of(words).ended(from - 1),
        to == words.len() || passage_of(words).ended(to - 1),
        forall|m: int| from <= m < to - 1 ==> !#[trigger] passage_of(words).ended(m),
    ensures
        passage_of(words).cues_before(0).len() == 0,
        passage_of(words).cues() == passage_of(words).cues_before(words.len() as int),
        passage_of(words).cues_before(to) == passage_of(words).cues_before(from) + (Sentence {
            words: words.subrange(from, to),
            next_start: if to < words.len() {
                Some(words[to].start)
            } else {
                None
            },
            break_costs: passage_of(words).costs.subrange(from, to - 1),
        }).cues(),
        passage_of(words).costs.len() == words.len() - 1,
{
    let p = passage_of(words);
    p.lemma_sentence_start(to - 1);
    let start = p.sentence_start(to - 1);
    if start < from {
        assert(!p.ended(from - 1));
    }
    if start > from {
        assert(p.ended(start - 1));
    }
    assert(p.ended(to - 1));
}

impl Sentence {
    /// A run of words may be a cue if it and every shorter tail of it of at least two words
    /// take one line of 42 characters, or two with a break between words, and are not shown
    /// for too long.
    pub proof fn law_what_may_be_a_cue(self, j: int, i: int)
        requires
            0 <= j < i <= self.words.len(),
        ensures
            self.may_be_cue(i - 1, i),
            self.may_be_cue(j, i) && j < i - 1 ==> self.may_be_cue(j + 1, i) && !self.is_overlong(
                j,
                i,
            ) && (joined(self.words.subrange(j, i)).len() <= 42 || exists|b: int|
                j < b < i && (#[trigger] joined(self.words.subrange(j, b))).len() <= 42 && joined(
                    self.words.subrange(b, i),
                ).len() <= 42),
            j < i - 1 && self.may_be_cue(j + 1, i) && !self.is_overlong(j, i) && (joined(
                self.words.subrange(j, i),
            ).len() <= 42 || exists|b: int|
                j < b < i && (#[trigger] joined(self.words.subrange(j, b))).len() <= 42 && joined(
                    self.words.subrange(b, i),
                ).len() <= 42) ==> self.may_be_cue(j, i),
    {
        if j < i - 1 {
            if self.may_be_cue(j, i) {
                assert(self.within_limits(j, i));
                self.lemma_within_limits(j, i);
            }
            if joined(self.words.subrange(j, i)).len() > 42 && exists|b: int|
                j < b < i && (#[trigger] joined(self.words.subrange(j, b))).len() <= 42 && joined(
                    self.words.subrange(b, i),
                ).len() <= 42 {
                let b = choose|b: int|
                    j < b < i && (#[trigger] joined(self.words.subrange(j, b))).len() <= 42
                        && joined(self.words.subrange(b, i)).len() <= 42;
                assert(self.fits_when_cut(j, b, i));
            }
        }
    }

    /// The cues of a sentence are what lies between the places where it is cut: cue `k` has
    /// the words between the places `k` and `k + 1`, the first place is the start of the
    /// sentence and the last one its end.
    pub proof fn law_cues_lie_between_cuts(self, k: int)
        requires
            0 <= k < self.cues().len(),
        ensures
            ({
                let cuts = self.best_cuts(self.words.len() as int);
                &&& self.cues().len() == cuts.len() - 1
                &&& cuts[0] == 0
                &&& cuts[cuts.len() - 1] == self.words.len()
                &&& 0 <= cuts[k] < cuts[k + 1] <= self.words.len()
                &&& self.cues()[k].start == self.words[cuts[k]].start
                &&& self.cues()[k].text == joined(self.words.subrange(cuts[k], cuts[k + 1]))
                &&& self.may_be_cue(cuts[k], cuts[k + 1])
            }),
    {
        self.law_best_cuts();
        let cuts = self.best_cuts(self.words.len() as int);
        assert(self.is_split(cuts, self.words.len() as int));
        assert(self.is_step(cuts, k));
    }
}

} // verus!
