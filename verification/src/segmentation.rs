//! Cutting one sentence into cues at the least cost.
//!
//! A Knuth-Plass-style minimum-cost segmentation over word boundaries. Compared to
//! greedily bisecting over-long sentences, the global optimum avoids shaving off awkward
//! single-word tail cues.
//!
//! Costs are whole numbers of billionths, so that a nanosecond of shortfall weighs a
//! whole number of them.

use vstd::prelude::*;

use crate::layout::MAX_LINE_CHARS;
use crate::seconds::{
    as_float, law_rounding_keeps_order, lemma_rounded_bound, lemma_small_is_exact, round_to_float,
    ticks_of, time_ticks, CLOSE_CALL_NANOS,
};
use crate::utterance::{joined, speeches, Speech, Utterance, SECOND};

verus! {

/// At most about this long on screen before a static cue reads as "stuck".
pub const MAX_CUE_NANOS: i64 = 7_000_000_000;

/// Below this, a cue "flashes" and can't be read. Shorter ones are penalized, not
/// forbidden: a lone "Cool." sentence has nowhere to go.
pub const MIN_CUE_NANOS: i64 = 1_000_000_000;

/// The cost of each nanosecond that a cue falls short of `MIN_CUE_NANOS`.
pub const SHORT_CUE_PENALTY_PER_NANO: i64 = 25;

/// A cue with just a word or two of text reads as a crumb.
pub const MIN_CUE_CHARS: usize = 20;

/// The cost of each character that a cue falls short of `MIN_CUE_CHARS`.
pub const SHORT_CUE_PENALTY_PER_CHAR: i64 = 1_000_000_000;

/// A deliberately generous (slow) estimate of how long a word takes to say: a fixed
/// overhead plus so much per character.
pub const WORD_SPEECH_FLOOR: i64 = 250_000_000;

/// See `WORD_SPEECH_FLOOR`.
pub const WORD_SPEECH_PER_CHAR: i64 = 90_000_000;

/// How long a cue lingers after its last word has (by estimate) been spoken, so trimmed
/// cues don't vanish the instant the voice stops.
pub const CUE_LINGER_NANOS: i64 = 500_000_000;

/// `MAX_CUE_NANOS` as a floating-point number, in ticks.
pub const MAX_CUE_TICKS: i128 = 33_849_922_949_209_616_891_772_928;

/// `WORD_SPEECH_FLOOR` as a floating-point number, in ticks.
pub const WORD_SPEECH_FLOOR_TICKS: i128 = 1_208_925_819_614_629_174_706_176;

/// `WORD_SPEECH_PER_CHAR` as a floating-point number, in ticks.
pub const WORD_SPEECH_PER_CHAR_TICKS: i128 = 435_213_295_061_266_486_788_096;

/// `CUE_LINGER_NANOS` as a floating-point number, in ticks.
pub const CUE_LINGER_TICKS: i128 = 2_417_851_639_229_258_349_412_352;

/// More words than any slice of them can hold: a word takes more than 32 bytes, and no
/// allocation exceeds `isize::MAX`.
pub const MAX_WORDS: u64 = 0x400_0000_0000_0000;

/// Estimated time to speak a text; a deliberate over-estimate.
pub open spec fn spoken_nanos(text: Seq<char>) -> int {
    WORD_SPEECH_FLOOR + WORD_SPEECH_PER_CHAR * text.len()
}

/// Estimated time to speak a text as a floating-point number, in ticks.
pub open spec fn spoken_ticks(text: Seq<char>) -> int {
    as_float(
        WORD_SPEECH_FLOOR_TICKS + as_float(WORD_SPEECH_PER_CHAR_TICKS * as_float(text.len() as int)),
    )
}

/// When a word has (by estimate) been spoken, and the cue that ends with it has lingered.
pub open spec fn lingered(word: Speech) -> int {
    word.start + spoken_nanos(word.text) + CUE_LINGER_NANOS
}

/// The smaller of two numbers.
pub open spec fn min(a: int, b: int) -> int {
    if a <= b {
        a
    } else {
        b
    }
}

/// The larger of two numbers.
pub open spec fn max(a: int, b: int) -> int {
    if a >= b {
        a
    } else {
        b
    }
}

/// A sentence to be cut into cues.
pub struct Sentence {
    pub words: Seq<Speech>,
    /// When the word after the sentence starts, if there is one.
    pub next_start: Option<int>,
    /// What it costs to end a cue after each word but the last.
    pub break_costs: Seq<int>,
}

/// How far the cue that ends before word `i` may be displayed: to the start of the word
/// that follows it, in the sentence or after it. The final word of the last sentence has
/// nothing after it; its own end is the conservative cap.
pub open spec fn display_cap_of(words: Seq<Speech>, next_start: Option<int>, i: int) -> int {
    if i < words.len() {
        words[i].start
    } else {
        match next_start {
            Some(t) => t,
            None => words.last().end,
        }
    }
}

/// Of two ways to cut the same words, whether `a` is to be taken over `b` when they cost
/// the same: the one whose last cue is the shorter, and if they agree on it, by the
/// same rule, the one to be taken for the words before it.
pub open spec fn preferred(a: Seq<int>, b: Seq<int>) -> bool
    decreases a.len(),
{
    if a.len() < 2 || b.len() < 2 {
        true
    } else {
        let x = a[a.len() - 2];
        let y = b[b.len() - 2];
        x > y || (x == y && preferred(a.drop_last(), b.drop_last()))
    }
}

impl Sentence {
    /// See `display_cap_of`.
    pub open spec fn display_cap(self, i: int) -> int {
        display_cap_of(self.words, self.next_start, i)
    }

    /// When the cue that ends before word `i` leaves the screen, readability aside.
    pub open spec fn shown_until(self, i: int) -> int {
        min(lingered(self.words[i - 1]), self.display_cap(i))
    }

    /// How long a cue of the words `j..i` is shown, readability aside.
    pub open spec fn shown_for(self, j: int, i: int) -> int {
        self.shown_until(i) - self.words[j].start
    }

    /// When the cue that ends before word `i` leaves the screen, readability aside, as a
    /// floating-point number, in ticks.
    pub open spec fn shown_until_ticks(self, i: int) -> int {
        let word = self.words[i - 1];
        let cap = self.display_cap(i);
        if lingered(word) > cap + SECOND {
            time_ticks(cap)
        } else {
            min(
                as_float(
                    as_float(time_ticks(word.start) + spoken_ticks(word.text)) + CUE_LINGER_TICKS,
                ),
                time_ticks(cap),
            )
        }
    }

    /// Whether a cue of the words `j..i` is shown for too long. Just below the limit, also
    /// if the time it is shown for exceeds the limit as a floating-point number.
    pub open spec fn is_overlong(self, j: int, i: int) -> bool {
        ||| self.shown_for(j, i) > MAX_CUE_NANOS
        ||| self.shown_for(j, i) >= MAX_CUE_NANOS - CLOSE_CALL_NANOS && as_float(
            self.shown_until_ticks(i) - time_ticks(self.words[j].start),
        ) > MAX_CUE_TICKS
    }

    /// The text of a cue of the words `j..i`.
    pub open spec fn cue_text(self, j: int, i: int) -> Seq<char> {
        joined(self.words.subrange(j, i))
    }

    /// Whether the words `j..i` can be laid out as at most two fitting lines.
    pub open spec fn fits_two_lines(self, j: int, i: int) -> bool {
        ||| self.cue_text(j, i).len() <= MAX_LINE_CHARS
        ||| exists|k: int| j < k < i && #[trigger] self.fits_when_cut(j, k, i)
    }

    /// Whether the words `j..k` and the words `k..i` are two fitting lines.
    pub open spec fn fits_when_cut(self, j: int, k: int, i: int) -> bool {
        &&& self.cue_text(j, k).len() <= MAX_LINE_CHARS
        &&& self.cue_text(k, i).len() <= MAX_LINE_CHARS
    }

    /// Whether a cue of the words `j..i` stays inside the subtitle envelope.
    pub open spec fn within_limits(self, j: int, i: int) -> bool {
        self.fits_two_lines(j, i) && !self.is_overlong(j, i)
    }

    /// Whether the words `j..i` may form a cue: they and every shorter tail of them of at
    /// least two words stay inside the envelope. A single word always may, since it
    /// cannot be split any further.
    pub open spec fn may_be_cue(self, j: int, i: int) -> bool {
        &&& 0 <= j < i <= self.words.len()
        &&& forall|k: int| j <= k < i - 1 ==> #[trigger] self.within_limits(k, i)
    }

    /// The cost of a cue of the words `j..i`.
    pub open spec fn price(self, j: int, i: int) -> int {
        SHORT_CUE_PENALTY_PER_NANO * max(MIN_CUE_NANOS - self.shown_for(j, i), 0)
            + SHORT_CUE_PENALTY_PER_CHAR * max(MIN_CUE_CHARS - self.cue_text(j, i).len(), 0) + (
        if i == self.words.len() {
            0
        } else {
            self.break_costs[i - 1]
        })
    }

    /// Whether the cue between the cuts `k` and `k + 1` may stand.
    pub open spec fn is_step(self, cuts: Seq<int>, k: int) -> bool {
        self.may_be_cue(cuts[k], cuts[k + 1])
    }

    /// Whether `cuts` cuts the first `i` words into cues: the places where the cues begin,
    /// in order, and `i` itself.
    pub open spec fn is_split(self, cuts: Seq<int>, i: int) -> bool {
        &&& cuts.len() > 0
        &&& cuts[0] == 0
        &&& cuts.last() == i
        &&& forall|k: int| 0 <= k < cuts.len() - 1 ==> #[trigger] self.is_step(cuts, k)
    }

    /// What all the cues between `cuts` cost.
    pub open spec fn total(self, cuts: Seq<int>) -> int
        decreases cuts.len(),
    {
        if cuts.len() < 2 {
            0
        } else {
            self.total(cuts.drop_last()) + self.price(cuts[cuts.len() - 2], cuts.last())
        }
    }

    /// Whether no other way to cut the first `i` words costs less.
    pub open spec fn is_cheapest(self, cuts: Seq<int>, i: int) -> bool {
        &&& self.is_split(cuts, i)
        &&& forall|other: Seq<int>| #[trigger]
            self.is_split(other, i) ==> self.total(cuts) <= self.total(other)
    }

    /// Whether `cuts` is the way to cut the first `i` words: the cheapest, and of those
    /// that cost the same the preferred one.
    pub open spec fn is_best(self, cuts: Seq<int>, i: int) -> bool {
        &&& self.is_cheapest(cuts, i)
        &&& forall|other: Seq<int>| #[trigger]
            self.is_cheapest(other, i) ==> preferred(cuts, other)
    }

    /// The way to cut the first `i` words.
    pub open spec fn best_cuts(self, i: int) -> Seq<int> {
        choose|cuts: Seq<int>| self.is_best(cuts, i)
    }

    /// The cue of the words `j..i` as it is emitted: it does not linger through the
    /// silence after its final word, but never falls below the readability floor and
    /// never passes the next word's start.
    pub open spec fn cue(self, j: int, i: int) -> Speech {
        let start = self.words[j].start;
        Speech {
            start,
            end: min(
                max(lingered(self.words[i - 1]), start + MIN_CUE_NANOS),
                self.display_cap(i),
            ),
            text: self.cue_text(j, i),
        }
    }

    /// The cues between `cuts`.
    pub open spec fn cues_between(self, cuts: Seq<int>) -> Seq<Speech> {
        Seq::new((cuts.len() - 1) as nat, |k: int| self.cue(cuts[k], cuts[k + 1]))
    }

    /// The cues of the sentence.
    pub open spec fn cues(self) -> Seq<Speech> {
        self.cues_between(self.best_cuts(self.words.len() as int))
    }

    /// A way to cut some words ends with one cue, and the rest is a way to cut the words
    /// before it.
    proof fn lemma_unpush(self, cuts: Seq<int>, i: int) -> (j: int)
        requires
            self.is_split(cuts, i),
            i != 0,
        ensures
            cuts.len() >= 2,
            j == cuts[cuts.len() - 2],
            j == cuts.drop_last().last(),
            self.is_split(cuts.drop_last(), j),
            self.may_be_cue(j, i),
            self.total(cuts) == self.total(cuts.drop_last()) + self.price(j, i),
    {
        let rest = cuts.drop_last();
        let j = cuts[cuts.len() - 2];
        assert(self.is_step(cuts, cuts.len() - 2));
        assert forall|k: int| 0 <= k < rest.len() - 1 implies #[trigger] self.is_step(rest, k) by {
            assert(self.is_step(cuts, k));
        }
        j
    }

    /// A way to cut some words and one more cue make a way to cut more words.
    proof fn lemma_push(self, cuts: Seq<int>, j: int, i: int)
        requires
            self.is_split(cuts, j),
            self.may_be_cue(j, i),
        ensures
            self.is_split(cuts.push(i), i),
            self.total(cuts.push(i)) == self.total(cuts) + self.price(j, i),
            cuts.push(i).drop_last() == cuts,
    {
        let more = cuts.push(i);
        assert(more.drop_last() =~= cuts);
        assert forall|k: int| 0 <= k < more.len() - 1 implies #[trigger] self.is_step(more, k) by {
            if k < cuts.len() - 1 {
                assert(self.is_step(cuts, k));
            }
        }
    }

    /// No words are cut in one way only.
    proof fn lemma_best_of_nothing(self)
        ensures
            self.is_best(seq![0], 0),
            self.total(seq![0]) == 0,
    {
        let none = seq![0int];
        assert forall|other: Seq<int>| #[trigger] self.is_split(other, 0) implies other
            == none by {
            if other.len() >= 2 {
                assert(self.is_step(other, other.len() - 2));
            }
            assert(other =~= none);
        }
    }

    /// The best way to cut `i` words, from the best ways to cut fewer words: if no start
    /// of the last cue beats `j`, the best way to cut `j` words and one more cue.
    proof fn lemma_best_step(self, best: Seq<Seq<int>>, i: int, j: int)
        requires
            0 < i <= self.words.len(),
            best.len() == i,
            forall|k: int| 0 <= k < i ==> self.is_best(#[trigger] best[k], k),
            self.may_be_cue(j, i),
            forall|k: int| #[trigger]
                self.may_be_cue(k, i) ==> {
                    ||| self.total(best[j]) + self.price(j, i) < self.total(best[k]) + self.price(
                        k,
                        i,
                    )
                    ||| self.total(best[j]) + self.price(j, i) == self.total(best[k]) + self.price(
                        k,
                        i,
                    ) && k <= j
                },
        ensures
            self.is_best(best[j].push(i), i),
            self.total(best[j].push(i)) == self.total(best[j]) + self.price(j, i),
    {
        let cuts = best[j].push(i);
        assert(self.is_best(best[j], j));
        self.lemma_push(best[j], j, i);
        assert forall|other: Seq<int>| #[trigger] self.is_split(other, i) implies self.total(cuts)
            <= self.total(other) by {
            let k = self.lemma_unpush(other, i);
            assert(self.is_best(best[k], k));
            assert(self.is_split(other.drop_last(), k));
        }
        assert forall|other: Seq<int>| #[trigger] self.is_cheapest(other, i) implies preferred(
            cuts,
            other,
        ) by {
            let k = self.lemma_unpush(other, i);
            let rest = other.drop_last();
            assert(self.is_best(best[k], k));
            assert(self.is_split(cuts, i));
            assert(self.total(other) == self.total(cuts));
            assert(self.total(best[k]) <= self.total(rest));
            assert(k <= j);
            if k == j {
                assert(self.is_cheapest(rest, k)) by {
                    assert forall|o: Seq<int>| #[trigger] self.is_split(o, k) implies self.total(
                        rest,
                    ) <= self.total(o) by {}
                }
                assert(preferred(best[j], rest));
            }
            assert(cuts[cuts.len() - 2] == j);
        }
    }

    /// There is at most one best way to cut some words.
    proof fn lemma_preferred_antisymmetric(self, a: Seq<int>, b: Seq<int>, i: int)
        requires
            self.is_split(a, i),
            self.is_split(b, i),
            preferred(a, b),
            preferred(b, a),
        ensures
            a == b,
        decreases a.len(),
    {
        if i == 0 {
            if a.len() >= 2 {
                assert(self.is_step(a, a.len() - 2));
            }
            if b.len() >= 2 {
                assert(self.is_step(b, b.len() - 2));
            }
            assert(a =~= b);
        } else {
            let x = self.lemma_unpush(a, i);
            let y = self.lemma_unpush(b, i);
            self.lemma_preferred_antisymmetric(a.drop_last(), b.drop_last(), x);
            assert(a =~= a.drop_last().push(i));
            assert(b =~= b.drop_last().push(i));
        }
    }

    /// Of the starts from `lo` on that the cue ending before word `i` may have, the one to
    /// be taken.
    proof fn lemma_pick_start(self, best: Seq<Seq<int>>, i: int, lo: int) -> (j: int)
        requires
            0 <= lo < i <= self.words.len(),
        ensures
            lo <= j < i,
            self.may_be_cue(j, i),
            forall|k: int|
                lo <= k && #[trigger] self.may_be_cue(k, i) ==> {
                    ||| self.total(best[j]) + self.price(j, i) < self.total(best[k]) + self.price(
                        k,
                        i,
                    )
                    ||| self.total(best[j]) + self.price(j, i) == self.total(best[k]) + self.price(
                        k,
                        i,
                    ) && k <= j
                },
        decreases i - lo,
    {
        if lo == i - 1 {
            lo
        } else {
            let j = self.lemma_pick_start(best, i, lo + 1);
            if self.may_be_cue(lo, i) && self.total(best[lo]) + self.price(lo, i) < self.total(
                best[j],
            ) + self.price(j, i) {
                lo
            } else {
                j
            }
        }
    }

    /// The best ways to cut the first 0, 1, .. and `i` words.
    proof fn lemma_best_prefixes(self, i: int) -> (best: Seq<Seq<int>>)
        requires
            0 <= i <= self.words.len(),
        ensures
            best.len() == i + 1,
            forall|k: int| 0 <= k <= i ==> self.is_best(#[trigger] best[k], k),
        decreases i,
    {
        if i == 0 {
            self.lemma_best_of_nothing();
            seq![seq![0int]]
        } else {
            let best = self.lemma_best_prefixes(i - 1);
            let j = self.lemma_pick_start(best, i, 0);
            self.lemma_best_step(best, i, j);
            best.push(best[j].push(i))
        }
    }

    /// A sentence can always be cut into cues, in exactly one best way, and no other way
    /// to cut it costs less.
    pub proof fn law_best_cuts(self)
        ensures
            self.is_best(self.best_cuts(self.words.len() as int), self.words.len() as int),
            forall|cuts: Seq<int>| #[trigger]
                self.is_best(cuts, self.words.len() as int) ==> cuts == self.best_cuts(
                    self.words.len() as int,
                ),
            forall|other: Seq<int>| #[trigger]
                self.is_split(other, self.words.len() as int) ==> self.total(
                    self.best_cuts(self.words.len() as int),
                ) <= self.total(other),
    {
        let n = self.words.len() as int;
        let best = self.lemma_best_prefixes(n);
        assert(self.is_best(best[n], n));
        let chosen = self.best_cuts(n);
        assert(self.is_best(chosen, n));
        assert forall|cuts: Seq<int>| #[trigger] self.is_best(cuts, n) implies cuts == chosen by {
            assert(self.is_cheapest(cuts, n));
            assert(self.is_cheapest(chosen, n));
            self.lemma_preferred_antisymmetric(cuts, chosen, n);
        }
    }
}

/// The characters of the first `k` words, without the spaces between them.
spec fn chars_upto(words: Seq<Speech>, k: int) -> int
    decreases k,
{
    if k <= 0 {
        0
    } else {
        chars_upto(words, k - 1) + words[k - 1].text.len()
    }
}

/// The length of a cue's text, from the characters before its ends.
proof fn lemma_cue_len(s: Sentence, j: int, i: int)
    requires
        0 <= j < i <= s.words.len(),
    ensures
        s.cue_text(j, i).len() == chars_upto(s.words, i) - chars_upto(s.words, j) + (i - j - 1),
    decreases i - j,
{
    let part = s.words.subrange(j, i);
    if i == j + 1 {
        assert(part[0] == s.words[j]);
    } else {
        lemma_cue_len(s, j, i - 1);
        assert(part.drop_last() =~= s.words.subrange(j, i - 1));
        assert(part.last() == s.words[i - 1]);
    }
}

/// Whether `before[k]` counts the characters of the first `k` words.
spec fn counts_chars(before: Seq<u128>, words: Seq<Speech>) -> bool {
    &&& before.len() == words.len() + 1
    &&& forall|k: int|
        0 <= k <= words.len() ==> {
            &&& #[trigger] before[k] == chars_upto(words, k)
            &&& before[k] <= k * 0xffff_ffff_ffff_ffff
        }
}

/// The sentence that some utterances form.
pub open spec fn sentence_of(
    words: Seq<Utterance>,
    next_start: Option<i64>,
    break_costs: Seq<u64>,
) -> Sentence {
    Sentence {
        words: speeches(words),
        next_start: match next_start {
            Some(t) => Some(t as int),
            None => None,
        },
        break_costs: break_costs.map_values(|c: u64| c as int),
    }
}

/// Cuts held as machine integers.
pub open spec fn as_cuts(cuts: Seq<usize>) -> Seq<int> {
    cuts.map_values(|c: usize| c as int)
}

/// Estimated time to speak `text`; a deliberate over-estimate.
pub fn est_spoken_nanos(text: &str) -> (nanos: i128)
    ensures
        nanos == spoken_nanos(text@),
        0 <= nanos <= 1_700_000_000_000_000_000_000_000_000,
{
    WORD_SPEECH_FLOOR as i128 + WORD_SPEECH_PER_CHAR as i128 * text.unicode_len() as i128
}

/// See `display_cap_of`.
pub fn display_cap(words: &[Utterance], next_start: Option<i64>, i: usize) -> (cap: i64)
    requires
        0 < words@.len(),
        i <= words@.len(),
    ensures
        cap == display_cap_of(
            speeches(words@),
            match next_start {
                Some(t) => Some(t as int),
                None => None,
            },
            i as int,
        ),
{
    if i < words.len() {
        words[i].start
    } else {
        match next_start {
            Some(t) => t,
            None => words[words.len() - 1].end,
        }
    }
}

/// See `lingered`.
pub fn lingers_until(word: &Utterance) -> (until: i128)
    ensures
        until == lingered(word@),
        i64::MIN <= until <= 1_800_000_000_000_000_000_000_000_000,
{
    word.start as i128 + est_spoken_nanos(word.text.as_str()) + CUE_LINGER_NANOS as i128
}

/// Estimated time to speak `text` as a floating-point number, in ticks.
pub fn est_spoken_ticks(text: &str) -> (ticks: i128)
    requires
        text@.len() <= 0x40_0000_0000,
    ensures
        ticks == spoken_ticks(text@),
        0 <= ticks <= 0x80_0000_0000_0000_0000_0000_0000_0000,
{
    let len: i128 = text.unicode_len() as i128;
    proof {
        lemma_small_is_exact(len as int);
        lemma_small_is_exact(0);
        law_rounding_keeps_order(0, WORD_SPEECH_PER_CHAR_TICKS * len);
        law_rounding_keeps_order(
            0,
            WORD_SPEECH_FLOOR_TICKS + as_float(WORD_SPEECH_PER_CHAR_TICKS * len),
        );
        lemma_rounded_bound(WORD_SPEECH_PER_CHAR_TICKS * len);
        lemma_rounded_bound(
            WORD_SPEECH_FLOOR_TICKS + as_float(WORD_SPEECH_PER_CHAR_TICKS * len),
        );
    }
    let letters = round_to_float(WORD_SPEECH_PER_CHAR_TICKS * len);
    round_to_float(WORD_SPEECH_FLOOR_TICKS + letters)
}

/// When the cue that ends before word `i` leaves the screen, readability aside, as a
/// floating-point number, in ticks.
fn until_ticks(
    words: &[Utterance],
    next_start: Option<i64>,
    i: usize,
    Ghost(s): Ghost<Sentence>,
) -> (ticks: i128)
    requires
        0 < i <= words@.len(),
        s.words == speeches(words@),
        s.next_start == (match next_start {
            Some(t) => Some(t as int),
            None => None,
        }),
    ensures
        ticks == s.shown_until_ticks(i as int),
        -0x400_0000_0000_0000_0000_0000_0000_0000 <= ticks,
        ticks <= 0x400_0000_0000_0000_0000_0000_0000_0000,
{
    let word = &words[i - 1];
    assert(speeches(words@)[i - 1] == word@);
    let cap = display_cap(words, next_start, i);
    let cap_ticks = ticks_of(cap);
    if lingers_until(word) > cap as i128 + SECOND as i128 {
        return cap_ticks;
    }
    let spoken = est_spoken_ticks(word.text.as_str());
    let start = ticks_of(word.start);
    proof {
        lemma_rounded_bound(time_ticks(word.start as int) + spoken);
    }
    let said = round_to_float(start + spoken);
    proof {
        lemma_rounded_bound(said + CUE_LINGER_TICKS);
    }
    let until = round_to_float(said + CUE_LINGER_TICKS);
    if until <= cap_ticks {
        until
    } else {
        cap_ticks
    }
}

/// Counts the characters before each word.
fn count_chars(words: &[Utterance]) -> (before: Vec<u128>)
    requires
        words@.len() <= MAX_WORDS,
    ensures
        counts_chars(before@, speeches(words@)),
{
    let mut before: Vec<u128> = Vec::new();
    before.push(0);
    let mut sum: u128 = 0;
    for k in 0..words.len()
        invariant
            words@.len() <= MAX_WORDS,
            before@.len() == k + 1,
            sum == before@[k as int],
            forall|m: int|
                0 <= m <= k ==> {
                    &&& #[trigger] before@[m] == chars_upto(speeches(words@), m)
                    &&& before@[m] <= m * 0xffff_ffff_ffff_ffff
                },
    {
        let len = words[k].text.as_str().unicode_len();
        assert(len <= 0xffff_ffff_ffff_ffff);
        assert(speeches(words@)[k as int].text.len() == len);
        sum = sum + len as u128;
        before.push(sum);
    }
    before
}

/// How long the text of a cue of the words `j..i` is.
fn cue_chars(before: &Vec<u128>, j: usize, i: usize, Ghost(s): Ghost<Sentence>) -> (len: u128)
    requires
        counts_chars(before@, s.words),
        s.words.len() <= MAX_WORDS,
        j < i <= s.words.len(),
    ensures
        len == s.cue_text(j as int, i as int).len(),
{
    proof {
        lemma_cue_len(s, j as int, i as int);
        assert(before@[j as int] == chars_upto(s.words, j as int));
        assert(before@[i as int] == chars_upto(s.words, i as int));
    }
    before[i] + (i - j - 1) as u128 - before[j]
}

/// Whether the words `j..i` can be laid out as at most two fitting lines.
fn fits_two_lines(before: &Vec<u128>, j: usize, i: usize, Ghost(s): Ghost<Sentence>) -> (fits: bool)
    requires
        counts_chars(before@, s.words),
        s.words.len() <= MAX_WORDS,
        j < i <= s.words.len(),
    ensures
        fits == s.fits_two_lines(j as int, i as int),
{
    if cue_chars(before, j, i, Ghost(s)) <= MAX_LINE_CHARS as u128 {
        return true;
    }
    for k in j + 1..i
        invariant
            counts_chars(before@, s.words),
            s.words.len() <= MAX_WORDS,
            j < i <= s.words.len(),
            forall|m: int| j < m < k ==> !#[trigger] s.fits_when_cut(j as int, m, i as int),
    {
        let first = cue_chars(before, j, k, Ghost(s));
        let second = cue_chars(before, k, i, Ghost(s));
        if first <= MAX_LINE_CHARS as u128 && second <= MAX_LINE_CHARS as u128 {
            assert(s.fits_when_cut(j as int, k as int, i as int));
            return true;
        }
    }
    false
}

/// The most that `k` cues can cost.
spec fn price_bound(k: int) -> int {
    k * 498_062_089_990_157_893_632
}

/// The cost of a cue of the words `j..i` that leaves the screen at `until`, if ending it
/// there costs `break_cost`.
fn price(
    words: &[Utterance],
    before: &Vec<u128>,
    j: usize,
    i: usize,
    until: i128,
    break_cost: u64,
    Ghost(s): Ghost<Sentence>,
) -> (cost: i128)
    requires
        s.words == speeches(words@),
        counts_chars(before@, s.words),
        s.words.len() <= MAX_WORDS,
        j < i <= s.words.len(),
        until == s.shown_until(i as int),
        i64::MIN <= until <= i64::MAX,
        i == s.words.len() ==> break_cost == 0,
        i < s.words.len() ==> break_cost == s.break_costs[i - 1],
    ensures
        cost == s.price(j as int, i as int),
        0 <= cost <= price_bound(1),
{
    let duration: i128 = until - words[j].start as i128;
    let mut cost: i128 = break_cost as i128;
    if duration < MIN_CUE_NANOS as i128 {
        cost += SHORT_CUE_PENALTY_PER_NANO as i128 * (MIN_CUE_NANOS as i128 - duration);
    }
    let chars = cue_chars(before, j, i, Ghost(s));
    if chars < MIN_CUE_CHARS as u128 {
        cost += SHORT_CUE_PENALTY_PER_CHAR as i128 * (MIN_CUE_CHARS as i128 - chars as i128);
    }
    cost
}

/// Whether `back[k]` says where the last cue of `ways[k]` begins.
spec fn traces(back: Seq<usize>, ways: Seq<Seq<int>>) -> bool {
    &&& back.len() == ways.len()
    &&& ways.len() > 0
    &&& ways[0] == seq![0int]
    &&& forall|k: int|
        0 < k < ways.len() ==> {
            &&& 0 <= #[trigger] back[k] < k
            &&& ways[k] == ways[back[k] as int].push(k)
        }
}

/// Whether `ways[k]` is the best way to cut the first `k` words, and `costs[k]` its cost.
spec fn are_best(s: Sentence, ways: Seq<Seq<int>>, costs: Seq<i128>) -> bool {
    &&& costs.len() == ways.len()
    &&& forall|k: int|
        0 <= k < ways.len() ==> {
            &&& s.is_best(#[trigger] ways[k], k)
            &&& costs[k] == s.total(ways[k])
            &&& 0 <= costs[k] <= price_bound(k)
        }
}

/// Whether no start from `lo` on of the last cue of the first `i` words is to be taken
/// over `start`, which leads to the cost `cost`.
spec fn beats_from(
    s: Sentence,
    ways: Seq<Seq<int>>,
    i: int,
    lo: int,
    start: int,
    cost: int,
) -> bool {
    &&& s.may_be_cue(start, i)
    &&& cost == s.total(ways[start]) + s.price(start, i)
    &&& forall|k: int|
        lo <= k && #[trigger] s.may_be_cue(k, i) ==> {
            ||| cost < s.total(ways[k]) + s.price(k, i)
            ||| cost == s.total(ways[k]) + s.price(k, i) && k <= start
        }
}

/// Finds where the last of the cues of the first `i` words begins, and what they cost.
fn best_start(
    words: &[Utterance],
    next_start: Option<i64>,
    break_cost: u64,
    before: &Vec<u128>,
    best: &Vec<i128>,
    i: usize,
    Ghost(s): Ghost<Sentence>,
    Ghost(ways): Ghost<Seq<Seq<int>>>,
) -> (found: (usize, i128))
    requires
        0 < i <= words@.len() <= MAX_WORDS,
        s.words == speeches(words@),
        s.next_start == (match next_start {
            Some(t) => Some(t as int),
            None => None,
        }),
        counts_chars(before@, s.words),
        ways.len() == i,
        are_best(s, ways, best@),
        i == s.words.len() ==> break_cost == 0,
        i < s.words.len() ==> break_cost == s.break_costs[i - 1],
    ensures
        found.0 < i,
        beats_from(s, ways, i as int, 0, found.0 as int, found.1 as int),
        0 <= found.1 <= price_bound(i as int),
{
    let until_said = lingers_until(&words[i - 1]);
    let cap = display_cap(words, next_start, i);
    // Measure candidate cues as they will be displayed: the silence trailing the final
    // word gets trimmed, so it must not count against the duration limit. Pauses inside
    // a candidate still count in full.
    let until: i128 = if until_said <= cap as i128 {
        until_said
    } else {
        cap as i128
    };
    assert(speeches(words@)[i - 1] == words@[i - 1]@);
    assert(until == s.shown_until(i as int));
    let mut j: usize = i - 1;
    assert(s.is_best(ways[j as int], j as int));
    let mut cost: i128 = best[j] + price(words, before, j, i, until, break_cost, Ghost(s));
    let mut start: usize = j;
    let mut open: bool = true;
    while open && j > 0
        invariant
            j <= start < i <= words@.len() <= MAX_WORDS,
            s.words == speeches(words@),
            s.next_start == (match next_start {
                Some(t) => Some(t as int),
                None => None,
            }),
            counts_chars(before@, s.words),
            until == s.shown_until(i as int),
            i64::MIN <= until <= i64::MAX,
            i == s.words.len() ==> break_cost == 0,
            i < s.words.len() ==> break_cost == s.break_costs[i - 1],
            ways.len() == i,
            are_best(s, ways, best@),
            s.may_be_cue(j as int, i as int),
            beats_from(s, ways, i as int, j as int, start as int, cost as int),
            0 <= cost <= price_bound(i as int),
            !open ==> j > 0 && !s.within_limits(j - 1, i as int),
        decreases j, (if open { 1int } else { 0int }),
    {
        let duration: i128 = until - words[j - 1].start as i128;
        assert(duration == s.shown_for(j - 1, i as int));
        let overlong = duration > MAX_CUE_NANOS as i128 || (duration >= MAX_CUE_NANOS as i128
            - CLOSE_CALL_NANOS as i128 && round_to_float(
            until_ticks(words, next_start, i, Ghost(s)) - ticks_of(words[j - 1].start),
        ) > MAX_CUE_TICKS);
        assert(overlong == s.is_overlong(j - 1, i as int));
        if !fits_two_lines(before, j - 1, i, Ghost(s)) || overlong {
            open = false;
        } else {
            j -= 1;
            assert(s.is_best(ways[j as int], j as int));
            let other: i128 = best[j] + price(words, before, j, i, until, break_cost, Ghost(s));
            if other < cost {
                cost = other;
                start = j;
            }
        }
    }
    assert forall|k: int| 0 <= k && #[trigger] s.may_be_cue(k, i as int) implies {
        ||| cost < s.total(ways[k]) + s.price(k, i as int)
        ||| cost == s.total(ways[k]) + s.price(k, i as int) && k <= start
    } by {
        if k < j {
            assert(s.within_limits(j - 1, i as int));
        }
    }
    (start, cost)
}

/// Walks the backpointers to recover the cuts.
fn walk_back(back: &Vec<usize>, Ghost(ways): Ghost<Seq<Seq<int>>>) -> (cuts: Vec<usize>)
    requires
        traces(back@, ways),
    ensures
        as_cuts(cuts@) == ways.last(),
{
    let ghost target = ways.last();
    let mut reversed: Vec<usize> = Vec::new();
    let mut at: usize = back.len() - 1;
    reversed.push(at);
    assert(target == ways[at as int]);
    assert(at > 0 ==> back@[at as int] < at);
    assert(at > 0 ==> target.last() == at);
    assert(target.take(target.len() as int) =~= target);
    while at > 0
        invariant
            traces(back@, ways),
            at < back@.len(),
            reversed@.len() >= 1,
            ways[at as int].len() >= 1,
            ways[at as int] == target.take(ways[at as int].len() as int),
            ways[at as int].len() + reversed@.len() - 1 == target.len(),
            forall|k: int|
                0 <= k < reversed@.len() ==> #[trigger] reversed@[k] == target[target.len() - 1
                    - k],
        decreases at,
    {
        let ghost whole = ways[at as int];
        let earlier = back[at];
        proof {
            let rest = ways[earlier as int];
            assert(whole == rest.push(at as int));
            assert(rest.len() >= 1 && rest.last() == earlier) by {
                if earlier > 0 {
                    assert(back@[earlier as int] < earlier);
                }
            }
            assert(rest =~= target.take(rest.len() as int)) by {
                assert forall|k: int| 0 <= k < rest.len() implies rest[k] == target[k] by {
                    assert(whole[k] == target[k]);
                }
            }
            assert(target[rest.len() - 1] == earlier);
        }
        at = earlier;
        reversed.push(at);
    }
    let mut cuts: Vec<usize> = Vec::new();
    let mut left: usize = reversed.len();
    while left > 0
        invariant
            left <= reversed@.len(),
            cuts@.len() + left == reversed@.len(),
            reversed@.len() == target.len(),
            forall|k: int|
                0 <= k < reversed@.len() ==> #[trigger] reversed@[k] == target[target.len() - 1
                    - k],
            forall|k: int| 0 <= k < cuts@.len() ==> #[trigger] cuts@[k] == target[k],
        decreases left,
    {
        left -= 1;
        cuts.push(reversed[left]);
    }
    assert(as_cuts(cuts@) =~= target);
    cuts
}

/// Finds where to cut a sentence into cues, given what it costs to end a cue after each
/// word but the last.
///
/// `best[i]` is the cost of the best way to cut the first `i` words, built up by
/// considering every last cue that may stand.
pub fn cheapest_cuts(words: &[Utterance], next_start: Option<i64>, break_costs: &[u64]) -> (cuts: Vec<
    usize,
>)
    requires
        words@.len() <= MAX_WORDS,
        break_costs@.len() + 1 >= words@.len(),
    ensures
        sentence_of(words@, next_start, break_costs@).is_best(as_cuts(cuts@), words@.len() as int),
        as_cuts(cuts@) == sentence_of(words@, next_start, break_costs@).best_cuts(
            words@.len() as int,
        ),
{
    let n = words.len();
    let ghost s = sentence_of(words@, next_start, break_costs@);
    let before = count_chars(words);
    let mut best: Vec<i128> = Vec::new();
    let mut back: Vec<usize> = Vec::new();
    best.push(0);
    back.push(0);
    let ghost mut ways: Seq<Seq<int>> = seq![seq![0int]];
    proof {
        s.lemma_best_of_nothing();
    }
    let mut i: usize = 0;
    while i < n
        invariant
            i <= n,
            n == words@.len(),
            n <= MAX_WORDS,
            break_costs@.len() + 1 >= n,
            s == sentence_of(words@, next_start, break_costs@),
            counts_chars(before@, s.words),
            ways.len() == i + 1,
            are_best(s, ways, best@),
            traces(back@, ways),
        decreases n - i,
    {
        i += 1;
        // Ending a cue at the sentence end is free: it's a mandatory break.
        let break_cost: u64 = if i == n {
            0
        } else {
            break_costs[i - 1]
        };
        let (start, cost) = best_start(
            words,
            next_start,
            break_cost,
            &before,
            &best,
            i,
            Ghost(s),
            Ghost(ways),
        );
        let ghost old_ways = ways;
        let ghost old_best = best@;
        proof {
            s.lemma_best_step(ways, i as int, start as int);
            ways = ways.push(ways[start as int].push(i as int));
        }
        best.push(cost);
        back.push(start);
        assert(are_best(s, ways, best@)) by {
            assert forall|k: int| 0 <= k < ways.len() implies {
                &&& s.is_best(#[trigger] ways[k], k)
                &&& best@[k] == s.total(ways[k])
                &&& 0 <= best@[k] <= price_bound(k)
            } by {
                if k < i {
                    assert(ways[k] == old_ways[k]);
                    assert(best@[k] == old_best[k]);
                }
            }
        }
    }
    assert(s.is_best(ways[n as int], n as int));
    proof {
        s.law_best_cuts();
    }
    walk_back(&back, Ghost(ways))
}

} // verus!
