//! Choosing where to end a transcription segment.

use vstd::prelude::*;

use crate::text::{ends_with_char, ends_with_ellipsis, has_ellipsis, last_char};
use crate::utterance::{speeches, Speech, Utterance};

verus! {

/// How many of the last cues are looked at.
pub const SPLIT_WINDOW: usize = 20;

/// How good a place the end of a text is to end a segment, in tenths: sentence
/// boundaries are best; `...` and `,` are acceptable, but less good, since the next
/// caption may then start with a capital letter.
pub open spec fn punctuation_score(text: Seq<char>) -> int {
    if ends_with_ellipsis(text) || ends_with_char(text, ',') {
        13
    } else if ends_with_char(text, '.') || ends_with_char(text, '?') || ends_with_char(text, '!')
        || ends_with_char(text, ':') {
        20
    } else {
        10
    }
}

/// The number of cues that are looked at.
pub open spec fn window(count: int) -> int {
    if count < SPLIT_WINDOW {
        count
    } else {
        SPLIT_WINDOW as int
    }
}

/// Whether floating-point rounding puts a cue that ends with `...` or `,` ahead of an
/// unpunctuated one whose score would otherwise be the same. With windows of other sizes it
/// does not, and such scores are the same.
pub open spec fn rounding_favors_clauses(window: int) -> bool {
    window == 9 || window == 15 || 17 <= window <= 20
}

/// The score of ending a segment after cue `i`: how good a place it is, times how recent,
/// which falls off evenly to one half at the far end of the window. Scores within one
/// window are compared; they are scaled by forty times its size, and what rounding adds
/// weighs less than any difference.
pub open spec fn split_score(cues: Seq<Speech>, i: int) -> int {
    let window = window(cues.len() as int);
    let offset = cues.len() - 1 - i;
    let worth = punctuation_score(cues[i].text);
    let rounding: int = if worth == 13 && rounding_favors_clauses(window) {
        1
    } else {
        0
    };
    2 * (worth * (2 * window - offset)) + rounding
}

/// Whether a segment may end after cue `i`: it lies in the window and is not the last
/// one.
pub open spec fn is_candidate(cues: Seq<Speech>, i: int) -> bool {
    cues.len() - window(cues.len() as int) <= i < cues.len() - 1
}

/// Whether cue `i` is the one to end the segment after: the candidate with the best
/// score, and the latest of those with the same score. A segment with a single cue
/// leaves no choice but the hard cut.
pub open spec fn is_best_split(cues: Seq<Speech>, i: int) -> bool {
    if cues.len() == 1 {
        i == 0
    } else {
        &&& is_candidate(cues, i)
        &&& forall|k: int| #[trigger]
            is_candidate(cues, k) ==> {
                ||| split_score(cues, i) > split_score(cues, k)
                ||| split_score(cues, i) == split_score(cues, k) && k <= i
            }
    }
}

fn score_text(text: &str) -> (score: u64)
    ensures
        score == punctuation_score(text@),
        10 <= score <= 20,
{
    let last = last_char(text);
    if has_ellipsis(text) || last == Some(',') {
        13
    } else if last == Some('.') || last == Some('?') || last == Some('!') || last == Some(':') {
        20
    } else {
        10
    }
}

/// The score of ending a segment after cue `i`, where `window` cues are looked at.
fn score_at(utterances: &[Utterance], i: usize, window: usize) -> (score: u64)
    requires
        window == self::window(utterances@.len() as int),
        is_candidate(speeches(utterances@), i as int),
    ensures
        score == split_score(speeches(utterances@), i as int),
{
    let worth = score_text(utterances[i].text.as_str());
    let offset: u64 = (utterances.len() - 1 - i) as u64;
    let recent: u64 = 2 * window as u64 - offset;
    assert(0 <= worth * recent <= 20 * 40) by (nonlinear_arith)
        requires
            0 <= worth <= 20,
            0 <= recent <= 40,
    ;
    let favored = worth == 13 && (window == 9 || window == 15 || (17 <= window && window <= 20));
    2 * (worth * recent) + if favored {
        1
    } else {
        0
    }
}

/// Pick the cue to end a transcription segment after, from the trailing window of
/// `utterances`. Returns an index into `utterances`.
///
/// We prefer breaking at natural sentence boundaries, as that reduces the likelihood that
/// the next transcription will start at a weird point in a sentence. The very last cue is
/// deliberately excluded: speech truncated by the hard cut is punctuated as if it were a
/// complete sentence, so its "sentence end" is often fabricated.
pub fn pick_split_index(utterances: &[Utterance]) -> (index: usize)
    requires
        utterances@.len() > 0,
    ensures
        index < utterances@.len(),
        is_best_split(speeches(utterances@), index as int),
{
    let count = utterances.len();
    let ghost cues = speeches(utterances@);
    let window: usize = if count < SPLIT_WINDOW {
        count
    } else {
        SPLIT_WINDOW
    };
    if count == 1 {
        return 0;
    }
    let mut best: usize = count - 2;
    let mut best_score: u64 = score_at(utterances, best, window);
    let mut offset: usize = 2;
    while offset < window
        invariant
            count == utterances@.len(),
            count >= 2,
            cues == speeches(utterances@),
            window == self::window(count as int),
            window <= SPLIT_WINDOW,
            2 <= offset <= window || (offset == 2 && window == 2),
            count - offset <= best < count - 1,
            best_score == split_score(cues, best as int),
            forall|k: int|
                count - offset <= k && #[trigger] is_candidate(cues, k) ==> {
                    ||| best_score > split_score(cues, k)
                    ||| best_score == split_score(cues, k) && k <= best
                },
        decreases window - offset,
    {
        let i = count - offset - 1;
        let score: u64 = score_at(utterances, i, window);
        if score > best_score {
            best = i;
            best_score = score;
        }
        offset += 1;
    }
    best
}

/// A segment has exactly one best place to end.
pub proof fn law_best_split_is_unique(cues: Seq<Speech>, a: int, b: int)
    requires
        is_best_split(cues, a),
        is_best_split(cues, b),
    ensures
        a == b,
{
    if cues.len() != 1 {
        assert(is_candidate(cues, a));
        assert(is_candidate(cues, b));
    }
}

/// The last cue is never the one to end a segment after, unless it is the only one.
pub proof fn law_never_splits_after_last_cue(cues: Seq<Speech>, i: int)
    requires
        is_best_split(cues, i),
        cues.len() > 1,
    ensures
        0 <= i < cues.len() - 1,
{
}

/// A segment ends after one of its last 20 cues but not the very last one, and after a single
/// cue if that is all it has.
pub proof fn law_segments_end_near_their_end(cues: Seq<Speech>, i: int)
    requires
        is_best_split(cues, i),
        cues.len() > 0,
    ensures
        cues.len() == 1 ==> i == 0,
        cues.len() > 1 ==> 0 <= i <= cues.len() - 2,
        cues.len() > 1 ==> i >= cues.len() - 20,
{
}

/// A sentence end anywhere among the last 20 cues is picked over any cue whose text ends
/// without punctuation, however recent: where the text of cue `a` ends with `.`, `?`, `!` or
/// `:` and not with three dots, and that of cue `b` with none of these nor with a comma, the
/// segment does not end after `b`.
pub proof fn law_sentence_ends_are_picked_over_plain_cues(cues: Seq<Speech>, a: int, b: int)
    requires
        0 <= a < cues.len() - 1,
        cues.len() - 20 <= a,
        0 <= b < cues.len() - 1,
        cues.len() - 20 <= b,
        cues[a].text.len() > 0,
        cues[a].text.last() == '.' || cues[a].text.last() == '?' || cues[a].text.last() == '!' || cues[a].text.last() == ':',
        !(cues[a].text.len() >= 3 && cues[a].text.last() == '.' && cues[a].text[cues[a].text.len() - 2] == '.'
            && cues[a].text[cues[a].text.len() - 3] == '.'),
        cues[b].text.len() == 0 || (cues[b].text.last() != '.' && cues[b].text.last() != '?' && cues[b].text.last()
            != '!' && cues[b].text.last() != ':' && cues[b].text.last() != ','),
    ensures
        !is_best_split(cues, b),
{
    assert(is_candidate(cues, a));
    assert(is_candidate(cues, b));
}

/// A sentence end at `a` weighs 20 to the 13 of a comma or three dots at `b`, each times how
/// recent the cue is.
pub proof fn law_sentence_ends_against_clause_ends(cues: Seq<Speech>, a: int, b: int)
    requires
        0 <= a < cues.len() - 1,
        cues.len() - 20 <= a,
        0 <= b < cues.len() - 1,
        cues.len() - 20 <= b,
        cues[a].text.len() > 0,
        cues[a].text.last() == '.' || cues[a].text.last() == '?' || cues[a].text.last() == '!' || cues[a].text.last() == ':',
        !(cues[a].text.len() >= 3 && cues[a].text.last() == '.' && cues[a].text[cues[a].text.len() - 2] == '.'
            && cues[a].text[cues[a].text.len() - 3] == '.'),
        cues[b].text.len() > 0,
        cues[b].text.last() == ',' || (cues[b].text.len() >= 3 && cues[b].text.last() == '.'
            && cues[b].text[cues[b].text.len() - 2] == '.' && cues[b].text[cues[b].text.len() - 3] == '.'),
    ensures
        ({
            let size = if cues.len() < 20 {
                cues.len() as int
            } else {
                20
            };
            let recency_a = 2 * size - (cues.len() - 1 - a);
            let recency_b = 2 * size - (cues.len() - 1 - b);
            &&& 20 * recency_a > 13 * recency_b ==> !is_best_split(cues, b)
            &&& 20 * recency_a < 13 * recency_b ==> !is_best_split(cues, a)
            &&& a > b ==> !is_best_split(cues, b)
        }),
{
    assert(is_candidate(cues, a));
    assert(is_candidate(cues, b));
}

/// A comma or three dots at `a` weigh 13 to the 10 of an unpunctuated cue at `b`, each times
/// how recent the cue is. If that comes to the same, the comma or the dots win with some
/// sizes of the window, and the unpunctuated cue, which is later, with the others.
pub proof fn law_clause_ends_against_plain_cues(cues: Seq<Speech>, a: int, b: int)
    requires
        0 <= a < cues.len() - 1,
        cues.len() - 20 <= a,
        0 <= b < cues.len() - 1,
        cues.len() - 20 <= b,
        cues[a].text.len() > 0,
        cues[a].text.last() == ',' || (cues[a].text.len() >= 3 && cues[a].text.last() == '.'
            && cues[a].text[cues[a].text.len() - 2] == '.' && cues[a].text[cues[a].text.len() - 3] == '.'),
        cues[b].text.len() == 0 || (cues[b].text.last() != '.' && cues[b].text.last() != '?' && cues[b].text.last()
            != '!' && cues[b].text.last() != ':' && cues[b].text.last() != ','),
    ensures
        ({
            let size = if cues.len() < 20 {
                cues.len() as int
            } else {
                20
            };
            let recency_a = 2 * size - (cues.len() - 1 - a);
            let recency_b = 2 * size - (cues.len() - 1 - b);
            &&& 13 * recency_a > 10 * recency_b ==> !is_best_split(cues, b)
            &&& 13 * recency_a < 10 * recency_b ==> !is_best_split(cues, a)
            &&& 13 * recency_a == 10 * recency_b ==> if size == 9 || size == 15 || size >= 17 {
                !is_best_split(cues, b)
            } else {
                !is_best_split(cues, a)
            }
            &&& a > b ==> !is_best_split(cues, b)
        }),
{
    assert(is_candidate(cues, a));
    assert(is_candidate(cues, b));
}

/// Of two sentence ends, the later one is picked.
pub proof fn law_later_of_two_sentence_ends(cues: Seq<Speech>, a: int, b: int)
    requires
        0 <= a < cues.len() - 1,
        cues.len() - 20 <= a,
        0 <= b < cues.len() - 1,
        cues.len() - 20 <= b,
        a < b,
        cues[a].text.len() > 0,
        cues[a].text.last() == '.' || cues[a].text.last() == '?' || cues[a].text.last() == '!' || cues[a].text.last() == ':',
        !(cues[a].text.len() >= 3 && cues[a].text.last() == '.' && cues[a].text[cues[a].text.len() - 2] == '.'
            && cues[a].text[cues[a].text.len() - 3] == '.'),
        cues[b].text.len() > 0,
        cues[b].text.last() == '.' || cues[b].text.last() == '?' || cues[b].text.last() == '!' || cues[b].text.last() == ':',
        !(cues[b].text.len() >= 3 && cues[b].text.last() == '.' && cues[b].text[cues[b].text.len() - 2] == '.'
            && cues[b].text[cues[b].text.len() - 3] == '.'),
    ensures
        !is_best_split(cues, a),
{
    assert(is_candidate(cues, b));
}

/// Of two cues that end with a comma or three dots, the later one is picked.
pub proof fn law_later_of_two_clause_ends(cues: Seq<Speech>, a: int, b: int)
    requires
        0 <= a < cues.len() - 1,
        cues.len() - 20 <= a,
        0 <= b < cues.len() - 1,
        cues.len() - 20 <= b,
        a < b,
        cues[a].text.len() > 0,
        cues[a].text.last() == ',' || (cues[a].text.len() >= 3 && cues[a].text.last() == '.'
            && cues[a].text[cues[a].text.len() - 2] == '.' && cues[a].text[cues[a].text.len() - 3] == '.'),
        cues[b].text.len() > 0,
        cues[b].text.last() == ',' || (cues[b].text.len() >= 3 && cues[b].text.last() == '.'
            && cues[b].text[cues[b].text.len() - 2] == '.' && cues[b].text[cues[b].text.len() - 3] == '.'),
    ensures
        !is_best_split(cues, a),
{
    assert(is_candidate(cues, b));
}

/// Of two cues that end without punctuation, the later one is picked.
pub proof fn law_later_of_two_plain_cues(cues: Seq<Speech>, a: int, b: int)
    requires
        0 <= a < cues.len() - 1,
        cues.len() - 20 <= a,
        0 <= b < cues.len() - 1,
        cues.len() - 20 <= b,
        a < b,
        cues[a].text.len() == 0 || (cues[a].text.last() != '.' && cues[a].text.last() != '?' && cues[a].text.last()
            != '!' && cues[a].text.last() != ':' && cues[a].text.last() != ','),
        cues[b].text.len() == 0 || (cues[b].text.last() != '.' && cues[b].text.last() != '?' && cues[b].text.last()
            != '!' && cues[b].text.last() != ':' && cues[b].text.last() != ','),
    ensures
        !is_best_split(cues, a),
{
    assert(is_candidate(cues, b));
}

/// A sentence end anywhere in the window beats unpunctuated cues, however recent.
pub proof fn law_sentence_end_beats_plain_cue(cues: Seq<Speech>, a: int, b: int)
    requires
        is_candidate(cues, a),
        is_candidate(cues, b),
        punctuation_score(cues[a].text) == 20,
        punctuation_score(cues[b].text) == 10,
    ensures
        split_score(cues, a) > split_score(cues, b),
        !is_best_split(cues, b),
{
}

/// Among equally good boundaries the later one is taken.
pub proof fn law_later_of_equal_boundaries(cues: Seq<Speech>, a: int, b: int)
    requires
        is_candidate(cues, a),
        is_candidate(cues, b),
        a < b,
        punctuation_score(cues[a].text) == punctuation_score(cues[b].text),
    ensures
        split_score(cues, a) < split_score(cues, b),
        !is_best_split(cues, a),
{
}

} // verus!
