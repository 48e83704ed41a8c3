//! Laying a cue's text out as lines.

use vstd::prelude::*;

use crate::grammar::{introduces_phrase, is_function_word};
use crate::text::{chars_of, string_of};

verus! {

/// The longest line that the standard subtitle envelope allows.
pub const MAX_LINE_CHARS: usize = 42;

/// Punctuation after which a line break reads naturally.
pub open spec fn is_clause_mark(c: char) -> bool {
    c == ',' || c == ';' || c == ':' || c == '.' || c == '?' || c == '!'
}

/// Where the word that ends before position `p` begins: after the nearest space
/// before `p`, or at the start of the text.
pub open spec fn word_start(text: Seq<char>, p: int) -> int
    decreases p,
{
    if p <= 0 {
        0
    } else if text[p - 1] == ' ' {
        p
    } else {
        word_start(text, p - 1)
    }
}

/// The word that ends before position `p`.
pub open spec fn word_before(text: Seq<char>, p: int) -> Seq<char> {
    text.subrange(word_start(text, p), p)
}

/// For each position of `text`, whether it is a space right after a function word.
pub open spec fn function_word_flags(text: Seq<char>) -> Seq<bool> {
    Seq::new(text.len(), |p: int| text[p] == ' ' && introduces_phrase(word_before(text, p)))
}

/// How long the first and the second line are when the space at `p` is broken.
pub open spec fn line_lengths(text: Seq<char>, p: int) -> (int, int) {
    (p, text.len() - p - 1)
}

/// Whether breaking the space at `p` leaves two lines that both fit.
pub open spec fn lines_fit(text: Seq<char>, p: int) -> bool {
    let (first, second) = line_lengths(text, p);
    first <= MAX_LINE_CHARS && second <= MAX_LINE_CHARS
}

/// The cost of breaking `text` at the space at `p`: how unequal the lines are, less a
/// discount after clause punctuation or plus a surcharge after a function word, and
/// far more if a line is over-long.
pub open spec fn break_cost(text: Seq<char>, after_function_word: Seq<bool>, p: int) -> int {
    let (first, second) = line_lengths(text, p);
    let imbalance = if first < second {
        second - first
    } else {
        first - second
    };
    let phrasing: int = if p > 0 && is_clause_mark(text[p - 1]) {
        -20
    } else if after_function_word[p] {
        15
    } else {
        0
    };
    let overflow: int = if lines_fit(text, p) {
        0
    } else {
        1000
    };
    imbalance + phrasing + overflow
}

/// Whether `p` is the place to break `text`: the cheapest of its spaces, and the
/// earliest of those that cost the same.
pub open spec fn is_best_break(text: Seq<char>, after_function_word: Seq<bool>, p: int) -> bool {
    &&& 0 <= p < text.len()
    &&& text[p] == ' '
    &&& forall|q: int|
        0 <= q < text.len() && #[trigger] text[q] == ' ' ==> {
            ||| break_cost(text, after_function_word, p) < break_cost(text, after_function_word, q)
            ||| break_cost(text, after_function_word, p) == break_cost(text, after_function_word, q)
                && p <= q
        }
}

/// Whether `text` has a space at all.
pub open spec fn has_space(text: Seq<char>) -> bool {
    exists|q: int| 0 <= q < text.len() && #[trigger] text[q] == ' '
}

/// `text` with the space at `p` turned into a line break.
pub open spec fn broken_at(text: Seq<char>, p: int) -> Seq<char> {
    text.take(p) + seq!['\n'] + text.skip(p + 1)
}

/// `text` as it is shown: untouched if it fits on one line or has no space, and
/// otherwise broken at its best space.
pub open spec fn balanced(text: Seq<char>) -> Seq<char> {
    if text.len() <= MAX_LINE_CHARS || !has_space(text) {
        text
    } else {
        broken_at(text, choose|p: int| is_best_break(text, function_word_flags(text), p))
    }
}

/// A text has no more than one best break.
proof fn lemma_best_break_unique(text: Seq<char>, flags: Seq<bool>, p: int, q: int)
    requires
        is_best_break(text, flags, p),
        is_best_break(text, flags, q),
    ensures
        p == q,
{
    assert(text[p] == ' ');
    assert(text[q] == ' ');
}

/// Finds the cheapest space to break at, given for each position whether the word
/// before it is a function word. Ties go to the earlier space, i.e. to the bottom-heavy
/// split, which is the conventional subtitle shape.
pub fn best_break(chars: &Vec<char>, after_function_word: &Vec<bool>) -> (found: Option<usize>)
    requires
        after_function_word@.len() == chars@.len(),
    ensures
        match found {
            Some(p) => is_best_break(chars@, after_function_word@, p as int),
            None => !has_space(chars@),
        },
{
    let total = chars.len();
    let mut best: Option<usize> = None;
    let mut best_cost: i128 = 0;
    for p in 0..total
        invariant
            total == chars@.len(),
            after_function_word@.len() == chars@.len(),
            match best {
                Some(b) => {
                    &&& b < p
                    &&& chars@[b as int] == ' '
                    &&& best_cost == break_cost(chars@, after_function_word@, b as int)
                    &&& forall|q: int|
                        0 <= q < p && #[trigger] chars@[q] == ' ' ==> {
                            ||| best_cost < break_cost(chars@, after_function_word@, q)
                            ||| best_cost == break_cost(chars@, after_function_word@, q) && b <= q
                        }
                },
                None => forall|q: int| 0 <= q < p ==> #[trigger] chars@[q] != ' ',
            },
    {
        if chars[p] == ' ' {
            let first: i128 = p as i128;
            let second: i128 = (total - p - 1) as i128;
            let mut cost: i128 = if first < second {
                second - first
            } else {
                first - second
            };
            if p > 0 && (chars[p - 1] == ',' || chars[p - 1] == ';' || chars[p - 1] == ':'
                || chars[p - 1] == '.' || chars[p - 1] == '?' || chars[p - 1] == '!') {
                cost -= 20;
            } else if after_function_word[p] {
                cost += 15;
            }
            if first > MAX_LINE_CHARS as i128 || second > MAX_LINE_CHARS as i128 {
                cost += 1000;
            }
            assert(cost == break_cost(chars@, after_function_word@, p as int));
            let better = match best {
                Some(_) => cost < best_cost,
                None => true,
            };
            if better {
                best = Some(p);
                best_cost = cost;
            }
        }
    }
    best
}

/// For each position, whether it is a space right after a function word.
fn flags_of(chars: &Vec<char>) -> (flags: Vec<bool>)
    ensures
        flags@ == function_word_flags(chars@),
{
    let mut flags: Vec<bool> = Vec::new();
    let mut start: usize = 0;
    for p in 0..chars.len()
        invariant
            flags@.len() == p,
            start == word_start(chars@, p as int),
            start <= p,
            forall|k: int| 0 <= k < p ==> flags@[k] == #[trigger] function_word_flags(chars@)[k],
    {
        if chars[p] == ' ' {
            let word = string_of(chars, start, p);
            flags.push(is_function_word(word.as_str()));
            start = p + 1;
        } else {
            flags.push(false);
        }
    }
    assert(flags@ =~= function_word_flags(chars@));
    flags
}

/// Wrap cue text into at most two lines of `MAX_LINE_CHARS`, breaking at the space that
/// best balances the lines, with a preference for breaking just after clause
/// punctuation near the middle. Text that fits on one line is returned untouched, and
/// so is one giant token: there is nothing sensible to do with it.
pub fn balance_lines(text: &str) -> (wrapped: String)
    ensures
        wrapped@ == balanced(text@),
{
    let chars = chars_of(text);
    let total = chars.len();
    if total <= MAX_LINE_CHARS {
        return string_of(&chars, 0, total);
    }
    let flags = flags_of(&chars);
    match best_break(&chars, &flags) {
        None => string_of(&chars, 0, total),
        Some(p) => {
            let mut wrapped = string_of(&chars, 0, p);
            wrapped.push('\n');
            let second = string_of(&chars, p + 1, total);
            wrapped.append(second.as_str());
            proof {
                assert(text@[p as int] == ' ');
                let chosen = choose|q: int| is_best_break(text@, function_word_flags(text@), q);
                lemma_best_break_unique(text@, function_word_flags(text@), p as int, chosen);
                assert(wrapped@ =~= broken_at(text@, p as int));
            }
            wrapped
        },
    }
}

/// Among finitely many spaces one is the best to break at.
proof fn lemma_best_break_exists(text: Seq<char>, flags: Seq<bool>, upto: int) -> (p: int)
    requires
        0 <= upto <= text.len(),
        exists|q: int| 0 <= q < upto && #[trigger] text[q] == ' ',
    ensures
        0 <= p < upto,
        text[p] == ' ',
        forall|q: int|
            0 <= q < upto && #[trigger] text[q] == ' ' ==> {
                ||| break_cost(text, flags, p) < break_cost(text, flags, q)
                ||| break_cost(text, flags, p) == break_cost(text, flags, q) && p <= q
            },
    decreases upto,
{
    let last = upto - 1;
    if exists|q: int| 0 <= q < last && #[trigger] text[q] == ' ' {
        let p = lemma_best_break_exists(text, flags, last);
        if text[last] == ' ' && break_cost(text, flags, last) < break_cost(text, flags, p) {
            last
        } else {
            p
        }
    } else {
        last
    }
}

/// The place where a text that must be broken is broken.
proof fn lemma_balanced_break(text: Seq<char>) -> (p: int)
    requires
        text.len() > MAX_LINE_CHARS,
        has_space(text),
    ensures
        is_best_break(text, function_word_flags(text), p),
        balanced(text) == broken_at(text, p),
{
    let flags = function_word_flags(text);
    let p = lemma_best_break_exists(text, flags, text.len() as int);
    assert(is_best_break(text, flags, p));
    choose|q: int| is_best_break(text, flags, q)
}

/// Wrapping does not alter words: it keeps every character, but for one space at most,
/// which becomes a line break.
pub proof fn law_wrapping_keeps_words(text: Seq<char>)
    ensures
        balanced(text) == text || exists|p: int|
            {
                &&& 0 <= p < text.len()
                &&& #[trigger] text[p] == ' '
                &&& balanced(text) == text.update(p, '\n')
            },
{
    if text.len() > MAX_LINE_CHARS && has_space(text) {
        let p = lemma_balanced_break(text);
        assert(broken_at(text, p) =~= text.update(p, '\n'));
        assert(text[p] == ' ');
    }
}

/// A text that some space splits into two fitting lines is broken into two fitting
/// lines.
pub proof fn law_lines_fit_when_they_can(text: Seq<char>, p: int)
    requires
        text.len() > MAX_LINE_CHARS,
        0 <= p < text.len(),
        text[p] == ' ',
        lines_fit(text, p),
    ensures
        exists|q: int|
            {
                &&& 0 <= q < text.len()
                &&& #[trigger] text[q] == ' '
                &&& lines_fit(text, q)
                &&& balanced(text) == broken_at(text, q)
            },
{
    let q = lemma_balanced_break(text);
    assert(text[q] == ' ');
}

/// The text of a caption that takes more than one line is broken at a space, if it has one,
/// and any other is left as it is.
pub proof fn law_long_texts_are_broken(text: Seq<char>)
    ensures
        text.len() <= 42 ==> balanced(text) == text,
        (forall|q: int| 0 <= q < text.len() ==> #[trigger] text[q] != ' ') ==> balanced(text)
            == text,
        text.len() > 42 && (exists|q: int| 0 <= q < text.len() && #[trigger] text[q] == ' ')
            ==> exists|p: int|
            0 <= p < text.len() && #[trigger] text[p] == ' ' && balanced(text) == text.update(
                p,
                '\n',
            ),
{
    if text.len() > 42 && has_space(text) {
        let p = lemma_balanced_break(text);
        assert(text[p] == ' ');
        assert(broken_at(text, p) =~= text.update(p, '\n'));
    }
}

/// The word before a space is what lies between it and the nearest space before it.
proof fn lemma_word_start(text: Seq<char>, w: int, q: int)
    requires
        0 <= w <= q <= text.len(),
        w == 0 || text[w - 1] == ' ',
        forall|m: int| w <= m < q ==> #[trigger] text[m] != ' ',
    ensures
        word_start(text, q) == w,
    decreases q - w,
{
    if w < q {
        assert(text[q - 1] != ' ');
        lemma_word_start(text, w, q - 1);
    }
}

/// Where a text is broken costs no more than any other space would.
proof fn lemma_break_beats(text: Seq<char>, p: int, q: int)
    requires
        text.len() > 42,
        0 <= p < text.len(),
        text[p] == ' ',
        balanced(text) == text.update(p, '\n'),
        0 <= q < text.len(),
        text[q] == ' ',
    ensures
        ({
            let flags = function_word_flags(text);
            ||| break_cost(text, flags, p) < break_cost(text, flags, q)
            ||| break_cost(text, flags, p) == break_cost(text, flags, q) && p <= q
        }),
{
    assert(has_space(text));
    let b = lemma_balanced_break(text);
    assert(broken_at(text, b) =~= text.update(b, '\n'));
    assert(text.update(p, '\n')[p] == '\n');
    assert(text.update(b, '\n')[p] == '\n');
    assert(p == b);
}

/// Wrapped lines are as equal as the text allows: where a text is broken at `p`, and `q` is
/// any space that leaves two fitting lines and follows neither clause punctuation nor a
/// function word (the word that begins at `w`), both lines fit, and they differ by no more
/// than they would at `q`, or by at most 20 more where `p` follows clause punctuation. Of
/// equally good spaces the earlier one is taken.
pub proof fn law_lines_are_balanced(text: Seq<char>, p: int, q: int, w: int)
    requires
        text.len() > 42,
        0 <= p < text.len(),
        text[p] == ' ',
        balanced(text) == text.update(p, '\n'),
        0 <= q < text.len(),
        text[q] == ' ',
        q <= 42,
        text.len() - q - 1 <= 42,
        q == 0 || (text[q - 1] != ',' && text[q - 1] != ';' && text[q - 1] != ':' && text[q - 1]
            != '.' && text[q - 1] != '?' && text[q - 1] != '!'),
        0 <= w <= q,
        w == 0 || text[w - 1] == ' ',
        forall|m: int| w <= m < q ==> #[trigger] text[m] != ' ',
        !introduces_phrase(text.subrange(w, q)),
    ensures
        p <= 42,
        text.len() - p - 1 <= 42,
        ({
            let n = text.len();
            let at_p = if 2 * p + 1 >= n {
                2 * p + 1 - n
            } else {
                n - 2 * p - 1
            };
            let at_q = if 2 * q + 1 >= n {
                2 * q + 1 - n
            } else {
                n - 2 * q - 1
            };
            let clause = p > 0 && (text[p - 1] == ',' || text[p - 1] == ';' || text[p - 1] == ':'
                || text[p - 1] == '.' || text[p - 1] == '?' || text[p - 1] == '!');
            &&& at_p <= at_q + 20
            &&& !clause ==> at_p <= at_q
            &&& !clause && at_p == at_q ==> p <= q
        }),
{
    lemma_break_beats(text, p, q);
    lemma_word_start(text, w, q);
}

/// A clause boundary beats pure balance: where a text is broken at `p`, which follows no
/// clause punctuation, every space `q` that leaves two fitting lines and does follow it
/// leaves lines that differ by at least 20 more.
pub proof fn law_clause_boundaries_are_preferred(text: Seq<char>, p: int, q: int)
    requires
        text.len() > 42,
        0 <= p < text.len(),
        text[p] == ' ',
        balanced(text) == text.update(p, '\n'),
        p == 0 || (text[p - 1] != ',' && text[p - 1] != ';' && text[p - 1] != ':' && text[p - 1]
            != '.' && text[p - 1] != '?' && text[p - 1] != '!'),
        0 < q < text.len(),
        text[q] == ' ',
        q <= 42,
        text.len() - q - 1 <= 42,
        text[q - 1] == ',' || text[q - 1] == ';' || text[q - 1] == ':' || text[q - 1] == '.'
            || text[q - 1] == '?' || text[q - 1] == '!',
    ensures
        ({
            let n = text.len();
            let at_p = if 2 * p + 1 >= n {
                2 * p + 1 - n
            } else {
                n - 2 * p - 1
            };
            let at_q = if 2 * q + 1 >= n {
                2 * q + 1 - n
            } else {
                n - 2 * q - 1
            };
            &&& at_q >= at_p + 20
            &&& at_q == at_p + 20 ==> p < q
        }),
{
    lemma_break_beats(text, p, q);
}

/// Of two clause boundaries that both leave fitting lines, the text is broken at the one that
/// balances them better, and of equally good ones at the earlier.
pub proof fn law_clause_boundaries_are_balanced(text: Seq<char>, p: int, q: int)
    requires
        text.len() > 42,
        0 < p < text.len(),
        text[p] == ' ',
        balanced(text) == text.update(p, '\n'),
        text[p - 1] == ',' || text[p - 1] == ';' || text[p - 1] == ':' || text[p - 1] == '.'
            || text[p - 1] == '?' || text[p - 1] == '!',
        0 < q < text.len(),
        text[q] == ' ',
        q <= 42,
        text.len() - q - 1 <= 42,
        text[q - 1] == ',' || text[q - 1] == ';' || text[q - 1] == ':' || text[q - 1] == '.'
            || text[q - 1] == '?' || text[q - 1] == '!',
    ensures
        ({
            let n = text.len();
            let at_p = if 2 * p + 1 >= n {
                2 * p + 1 - n
            } else {
                n - 2 * p - 1
            };
            let at_q = if 2 * q + 1 >= n {
                2 * q + 1 - n
            } else {
                n - 2 * q - 1
            };
            &&& at_p <= at_q
            &&& at_p == at_q ==> p <= q
        }),
{
    lemma_break_beats(text, p, q);
}

/// A line does not end on a function word if it can be helped: where a text is broken at
/// `p`, right after the function word that begins at `v`, every space `q` that leaves two
/// fitting lines leaves lines that differ by at least 15 more, or itself follows a function
/// word (the word before it begins at `w`) and leaves lines that differ no less.
pub proof fn law_lines_avoid_ending_on_function_words(
    text: Seq<char>,
    p: int,
    v: int,
    q: int,
    w: int,
)
    requires
        text.len() > 42,
        0 <= p < text.len(),
        text[p] == ' ',
        balanced(text) == text.update(p, '\n'),
        p == 0 || (text[p - 1] != ',' && text[p - 1] != ';' && text[p - 1] != ':' && text[p - 1]
            != '.' && text[p - 1] != '?' && text[p - 1] != '!'),
        0 <= v <= p,
        v == 0 || text[v - 1] == ' ',
        forall|m: int| v <= m < p ==> #[trigger] text[m] != ' ',
        introduces_phrase(text.subrange(v, p)),
        0 <= q < text.len(),
        text[q] == ' ',
        q <= 42,
        text.len() - q - 1 <= 42,
        0 <= w <= q,
        w == 0 || text[w - 1] == ' ',
        forall|m: int| w <= m < q ==> #[trigger] text[m] != ' ',
    ensures
        ({
            let n = text.len();
            let at_p = if 2 * p + 1 >= n {
                2 * p + 1 - n
            } else {
                n - 2 * p - 1
            };
            let at_q = if 2 * q + 1 >= n {
                2 * q + 1 - n
            } else {
                n - 2 * q - 1
            };
            ||| at_q >= at_p + 15
            ||| introduces_phrase(text.subrange(w, q)) && at_q >= at_p
        }),
{
    lemma_break_beats(text, p, q);
    lemma_word_start(text, v, p);
    lemma_word_start(text, w, q);
}

/// What a break weighs is how much the lines differ, less 20 after clause punctuation, or
/// plus 15 after a function word. Of the spaces that leave two fitting lines, or where there
/// are none of all spaces, the text is broken at the one that weighs least, and of those that
/// weigh the same at the first. The words before the spaces `p` and `q` begin at `v` and `w`.
pub proof fn law_lightest_break_is_taken(text: Seq<char>, p: int, v: int, q: int, w: int)
    requires
        text.len() > 42,
        0 <= p < text.len(),
        text[p] == ' ',
        balanced(text) == text.update(p, '\n'),
        0 <= v <= p,
        v == 0 || text[v - 1] == ' ',
        forall|m: int| v <= m < p ==> #[trigger] text[m] != ' ',
        0 <= q < text.len(),
        text[q] == ' ',
        0 <= w <= q,
        w == 0 || text[w - 1] == ' ',
        forall|m: int| w <= m < q ==> #[trigger] text[m] != ' ',
        q <= 42 && text.len() - q - 1 <= 42 || p > 42 || text.len() - p - 1 > 42,
    ensures
        ({
            let n = text.len();
            let at_p = if 2 * p + 1 >= n {
                2 * p + 1 - n
            } else {
                n - 2 * p - 1
            };
            let at_q = if 2 * q + 1 >= n {
                2 * q + 1 - n
            } else {
                n - 2 * q - 1
            };
            let clause_p = p > 0 && (text[p - 1] == ',' || text[p - 1] == ';' || text[p - 1] == ':'
                || text[p - 1] == '.' || text[p - 1] == '?' || text[p - 1] == '!');
            let clause_q = q > 0 && (text[q - 1] == ',' || text[q - 1] == ';' || text[q - 1] == ':'
                || text[q - 1] == '.' || text[q - 1] == '?' || text[q - 1] == '!');
            let weight_p = if clause_p {
                at_p - 20
            } else if introduces_phrase(text.subrange(v, p)) {
                at_p + 15
            } else {
                at_p
            };
            let weight_q = if clause_q {
                at_q - 20
            } else if introduces_phrase(text.subrange(w, q)) {
                at_q + 15
            } else {
                at_q
            };
            &&& p <= 42 && n - p - 1 <= 42 <==> q <= 42 && n - q - 1 <= 42
            &&& weight_p <= weight_q
            &&& weight_p == weight_q ==> p <= q
        }),
{
    lemma_break_beats(text, p, q);
    lemma_word_start(text, v, p);
    lemma_word_start(text, w, q);
}

} // verus!
