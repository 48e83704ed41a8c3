//! What a word says about sentence and phrase boundaries.

use vstd::prelude::*;

use crate::text::{
    ascii_upper, ascii_uppered, chars_of, ends_with_char, is_ascii_char, is_ascii_text,
    is_letter_or_digit, is_number, is_upper, lemma_lowering_uppered, lowered, same_text, string_of,
};

verus! {

/// The Unicode properties of a character that the boundary rules look at.
#[derive(Clone, Copy, Debug, PartialEq, Eq, Structural)]
pub struct CharKind {
    pub alphanumeric: bool,
    pub uppercase: bool,
    pub numeric: bool,
}

/// The properties of `c`.
pub open spec fn char_kind(c: char) -> CharKind {
    CharKind {
        alphanumeric: is_letter_or_digit(c),
        uppercase: is_upper(c),
        numeric: is_number(c),
    }
}

/// The properties of each character of `text`.
pub open spec fn char_kinds(text: Seq<char>) -> Seq<CharKind> {
    text.map_values(|c: char| char_kind(c))
}

/// The properties of each character of `chars`.
pub fn kinds_of(chars: &Vec<char>) -> (kinds: Vec<CharKind>)
    ensures
        kinds@ == char_kinds(chars@),
{
    let mut kinds: Vec<CharKind> = Vec::new();
    for i in 0..chars.len()
        invariant
            kinds@.len() == i,
            forall|k: int| 0 <= k < i ==> kinds@[k] == char_kind(#[trigger] chars@[k]),
    {
        let c = chars[i];
        kinds.push(
            CharKind {
                alphanumeric: c.is_alphanumeric(),
                uppercase: c.is_uppercase(),
                numeric: c.is_numeric(),
            },
        );
    }
    assert(kinds@ =~= char_kinds(chars@));
    kinds
}

/// Quotes and brackets that may follow sentence-final punctuation.
pub open spec fn is_closing_mark(c: char) -> bool {
    c == '"' || c == '\'' || c == ')' || c == '”' || c == '’'
}

/// `word` without the closing marks at its end.
pub open spec fn without_closing_marks(word: Seq<char>) -> Seq<char>
    decreases word.len(),
{
    if word.len() > 0 && is_closing_mark(word.last()) {
        without_closing_marks(word.drop_last())
    } else {
        word
    }
}

/// Whether `word` carries sentence-final punctuation, closing marks aside.
pub open spec fn has_final_punctuation(word: Seq<char>) -> bool {
    let bare = without_closing_marks(word);
    ends_with_char(bare, '.') || ends_with_char(bare, '?') || ends_with_char(bare, '!')
}

/// Whether a word whose characters are of these kinds looks like the start of a
/// sentence: its first letter or digit is an uppercase letter or a number.
pub open spec fn starts_sentence(kinds: Seq<CharKind>) -> bool {
    exists|i: int|
        {
            &&& 0 <= i < kinds.len()
            &&& (#[trigger] kinds[i]).alphanumeric
            &&& forall|k: int| 0 <= k < i ==> !(#[trigger] kinds[k]).alphanumeric
            &&& kinds[i].uppercase || kinds[i].numeric
        }
}

/// Whether `word` ends a sentence, given the word that follows it, if any.
pub open spec fn is_sentence_end(word: Seq<char>, next: Option<Seq<char>>) -> bool {
    &&& has_final_punctuation(word)
    &&& next matches Some(next) ==> starts_sentence(char_kinds(next))
}

/// Whether `word` carries sentence-final punctuation, closing marks aside.
pub fn ends_with_final_punctuation(word: &str) -> (answer: bool)
    ensures
        answer == has_final_punctuation(word@),
{
    let chars = chars_of(word);
    let mut end: usize = chars.len();
    assert(chars@.take(end as int) =~= word@);
    while end > 0 && (chars[end - 1] == '"' || chars[end - 1] == '\'' || chars[end - 1] == ')'
        || chars[end - 1] == '”' || chars[end - 1] == '’')
        invariant
            end <= chars@.len(),
            without_closing_marks(chars@.take(end as int)) == without_closing_marks(word@),
        decreases end,
    {
        assert(chars@.take(end as int).drop_last() =~= chars@.take(end - 1));
        end -= 1;
    }
    assert(end > 0 ==> chars@.take(end as int).last() == chars@[end - 1]);
    end > 0 && (chars[end - 1] == '.' || chars[end - 1] == '?' || chars[end - 1] == '!')
}

/// Whether a word whose characters are of these kinds looks like the start of a
/// sentence.
pub fn opens_sentence(kinds: &Vec<CharKind>) -> (answer: bool)
    ensures
        answer == starts_sentence(kinds@),
{
    for i in 0..kinds.len()
        invariant
            forall|k: int| 0 <= k < i ==> !(#[trigger] kinds@[k]).alphanumeric,
    {
        if kinds[i].alphanumeric {
            let answer = kinds[i].uppercase || kinds[i].numeric;
            assert(answer ==> starts_sentence(kinds@)) by {
                assert(kinds@[i as int].alphanumeric);
            }
            return answer;
        }
    }
    false
}

/// Does `word` end a sentence, given the word that follows it (if any)?
///
/// Sentence-final punctuation alone is not enough: abbreviations like "e.g." or "Dr."
/// also end with '.'. Requiring the next word to look like a sentence start filters
/// most of those out.
pub fn ends_sentence(word: &str, next: Option<&str>) -> (answer: bool)
    ensures
        answer == is_sentence_end(
            word@,
            match next {
                Some(next) => Some(next@),
                None => None,
            },
        ),
{
    if !ends_with_final_punctuation(word) {
        return false;
    }
    match next {
        Some(next) => opens_sentence(&kinds_of(&chars_of(next))),
        None => true,
    }
}

/// Closing marks after a word do not change whether it carries sentence-final punctuation.
pub proof fn law_closing_marks_are_looked_through(word: Seq<char>, marks: Seq<char>)
    requires
        forall|k: int| 0 <= k < marks.len() ==> is_closing_mark(#[trigger] marks[k]),
    ensures
        has_final_punctuation(word + marks) == has_final_punctuation(word),
    decreases marks.len(),
{
    if marks.len() > 0 {
        assert((word + marks).last() == marks[marks.len() - 1]);
        assert((word + marks).drop_last() =~= word + marks.drop_last());
        law_closing_marks_are_looked_through(word, marks.drop_last());
    } else {
        assert(word + marks =~= word);
    }
}

/// Marks before a word that are no letters or digits do not change whether it looks like the
/// start of a sentence.
pub proof fn law_leading_marks_are_looked_through(marks: Seq<char>, word: Seq<char>)
    requires
        forall|k: int| 0 <= k < marks.len() ==> !is_letter_or_digit(#[trigger] marks[k]),
    ensures
        starts_sentence(char_kinds(marks + word)) == starts_sentence(char_kinds(word)),
{
    let all = char_kinds(marks + word);
    let own = char_kinds(word);
    let n = marks.len() as int;
    assert forall|k: int| 0 <= k < n implies !(#[trigger] all[k]).alphanumeric by {
        assert(all[k] == char_kind(marks[k]));
    }
    assert forall|k: int| 0 <= k < own.len() implies #[trigger] own[k] == all[n + k] by {}
    if starts_sentence(all) {
        let i = choose|i: int|
            {
                &&& 0 <= i < all.len()
                &&& (#[trigger] all[i]).alphanumeric
                &&& forall|k: int| 0 <= k < i ==> !(#[trigger] all[k]).alphanumeric
                &&& all[i].uppercase || all[i].numeric
            };
        assert(own[i - n] == all[i]);
        assert forall|k: int| 0 <= k < i - n implies !(#[trigger] own[k]).alphanumeric by {
            assert(own[k] == all[n + k]);
        }
    }
    if starts_sentence(own) {
        let i = choose|i: int|
            {
                &&& 0 <= i < own.len()
                &&& (#[trigger] own[i]).alphanumeric
                &&& forall|k: int| 0 <= k < i ==> !(#[trigger] own[k]).alphanumeric
                &&& own[i].uppercase || own[i].numeric
            };
        assert(own[i] == all[n + i]);
        assert forall|k: int| 0 <= k < n + i implies !(#[trigger] all[k]).alphanumeric by {
            if k >= n {
                assert(own[k - n] == all[k]);
            }
        }
        assert(all[n + i].alphanumeric);
    }
}

/// How long the part of a word up to its last letter or digit is, from the kinds of
/// its characters.
pub open spec fn stem_len(kinds: Seq<CharKind>) -> int
    decreases kinds.len(),
{
    if kinds.len() > 0 && !kinds.last().alphanumeric {
        stem_len(kinds.drop_last())
    } else {
        kinds.len() as int
    }
}

/// How long the part of a word up to its last letter or digit is, from the kinds of
/// its characters.
pub fn stem_length(kinds: &Vec<CharKind>) -> (len: usize)
    ensures
        len == stem_len(kinds@),
        len <= kinds@.len(),
{
    let mut end: usize = kinds.len();
    assert(kinds@.take(end as int) =~= kinds@);
    while end > 0 && !kinds[end - 1].alphanumeric
        invariant
            end <= kinds@.len(),
            stem_len(kinds@.take(end as int)) == stem_len(kinds@),
        decreases end,
    {
        assert(kinds@.take(end as int).drop_last() =~= kinds@.take(end - 1));
        end -= 1;
    }
    assert(end > 0 ==> kinds@.take(end as int).last() == kinds@[end - 1]);
    end
}

/// Articles and conjunctions.
pub open spec fn is_article_or_conjunction(w: Seq<char>) -> bool {
    ||| w == "the"@
    ||| w == "a"@
    ||| w == "an"@
    ||| w == "and"@
    ||| w == "or"@
    ||| w == "but"@
    ||| w == "nor"@
    ||| w == "so"@
    ||| w == "yet"@
}

/// Prepositions.
pub open spec fn is_preposition(w: Seq<char>) -> bool {
    ||| w == "to"@
    ||| w == "of"@
    ||| w == "in"@
    ||| w == "on"@
    ||| w == "at"@
    ||| w == "by"@
    ||| w == "for"@
    ||| w == "with"@
    ||| w == "from"@
    ||| w == "into"@
    ||| w == "onto"@
    ||| w == "about"@
    ||| w == "over"@
    ||| w == "under"@
    ||| w == "between"@
}

/// Words that open a subordinate clause.
pub open spec fn is_subordinator(w: Seq<char>) -> bool {
    ||| w == "as"@
    ||| w == "if"@
    ||| w == "that"@
    ||| w == "which"@
    ||| w == "who"@
    ||| w == "whose"@
    ||| w == "whom"@
    ||| w == "what"@
    ||| w == "when"@
    ||| w == "where"@
    ||| w == "how"@
    ||| w == "why"@
    ||| w == "because"@
}

/// Auxiliary verbs.
pub open spec fn is_auxiliary(w: Seq<char>) -> bool {
    ||| w == "is"@
    ||| w == "are"@
    ||| w == "was"@
    ||| w == "were"@
    ||| w == "be"@
    ||| w == "been"@
    ||| w == "being"@
    ||| w == "am"@
    ||| w == "do"@
    ||| w == "does"@
    ||| w == "did"@
    ||| w == "will"@
    ||| w == "would"@
    ||| w == "can"@
    ||| w == "could"@
    ||| w == "should"@
    ||| w == "shall"@
    ||| w == "may"@
    ||| w == "might"@
    ||| w == "must"@
}

/// Pronouns.
pub open spec fn is_pronoun(w: Seq<char>) -> bool {
    ||| w == "i"@
    ||| w == "we"@
    ||| w == "you"@
    ||| w == "he"@
    ||| w == "she"@
    ||| w == "it"@
    ||| w == "they"@
    ||| w == "my"@
    ||| w == "our"@
    ||| w == "your"@
    ||| w == "his"@
    ||| w == "her"@
    ||| w == "its"@
    ||| w == "their"@
    ||| w == "this"@
    ||| w == "these"@
    ||| w == "those"@
}

/// Determiners and intensifiers.
pub open spec fn is_determiner(w: Seq<char>) -> bool {
    ||| w == "not"@
    ||| w == "no"@
    ||| w == "very"@
    ||| w == "really"@
    ||| w == "just"@
    ||| w == "quite"@
    ||| w == "some"@
    ||| w == "any"@
    ||| w == "each"@
    ||| w == "every"@
}

/// The function words, in lowercase.
pub open spec fn is_listed(w: Seq<char>) -> bool {
    ||| is_article_or_conjunction(w)
    ||| is_preposition(w)
    ||| is_subordinator(w)
    ||| is_auxiliary(w)
    ||| is_pronoun(w)
    ||| is_determiner(w)
}

/// Whether `word` introduces the phrase that follows it: up to its last letter or
/// digit and in lowercase, it is one of the function words.
pub open spec fn introduces_phrase(word: Seq<char>) -> bool {
    is_listed(lowered(word.take(stem_len(char_kinds(word)))))
}

fn names_article_or_conjunction(w: &str) -> (answer: bool)
    ensures
        answer == is_article_or_conjunction(w@),
{
    same_text(w, "the") || same_text(w, "a") || same_text(w, "an") || same_text(w, "and")
        || same_text(w, "or") || same_text(w, "but") || same_text(w, "nor") || same_text(w, "so")
        || same_text(w, "yet")
}

fn names_preposition(w: &str) -> (answer: bool)
    ensures
        answer == is_preposition(w@),
{
    same_text(w, "to") || same_text(w, "of") || same_text(w, "in") || same_text(w, "on")
        || same_text(w, "at") || same_text(w, "by") || same_text(w, "for") || same_text(w, "with")
        || same_text(w, "from") || same_text(w, "into") || same_text(w, "onto") || same_text(
        w,
        "about",
    ) || same_text(w, "over") || same_text(w, "under") || same_text(w, "between")
}

fn names_subordinator(w: &str) -> (answer: bool)
    ensures
        answer == is_subordinator(w@),
{
    same_text(w, "as") || same_text(w, "if") || same_text(w, "that") || same_text(w, "which")
        || same_text(w, "who") || same_text(w, "whose") || same_text(w, "whom") || same_text(
        w,
        "what",
    ) || same_text(w, "when") || same_text(w, "where") || same_text(w, "how") || same_text(w, "why")
        || same_text(w, "because")
}

fn names_auxiliary(w: &str) -> (answer: bool)
    ensures
        answer == is_auxiliary(w@),
{
    same_text(w, "is") || same_text(w, "are") || same_text(w, "was") || same_text(w, "were")
        || same_text(w, "be") || same_text(w, "been") || same_text(w, "being") || same_text(w, "am")
        || same_text(w, "do") || same_text(w, "does") || same_text(w, "did") || same_text(w, "will")
        || same_text(w, "would") || same_text(w, "can") || same_text(w, "could") || same_text(
        w,
        "should",
    ) || same_text(w, "shall") || same_text(w, "may") || same_text(w, "might") || same_text(
        w,
        "must",
    )
}

fn names_pronoun(w: &str) -> (answer: bool)
    ensures
        answer == is_pronoun(w@),
{
    same_text(w, "i") || same_text(w, "we") || same_text(w, "you") || same_text(w, "he")
        || same_text(w, "she") || same_text(w, "it") || same_text(w, "they") || same_text(w, "my")
        || same_text(w, "our") || same_text(w, "your") || same_text(w, "his") || same_text(w, "her")
        || same_text(w, "its") || same_text(w, "their") || same_text(w, "this") || same_text(
        w,
        "these",
    ) || same_text(w, "those")
}

fn names_determiner(w: &str) -> (answer: bool)
    ensures
        answer == is_determiner(w@),
{
    same_text(w, "not") || same_text(w, "no") || same_text(w, "very") || same_text(w, "really")
        || same_text(w, "just") || same_text(w, "quite") || same_text(w, "some") || same_text(
        w,
        "any",
    ) || same_text(w, "each") || same_text(w, "every")
}

/// Whether `lower`, a text in lowercase, is one of the function words.
pub fn is_listed_function_word(lower: &str) -> (answer: bool)
    ensures
        answer == is_listed(lower@),
{
    names_article_or_conjunction(lower) || names_preposition(lower) || names_subordinator(lower)
        || names_auxiliary(lower) || names_pronoun(lower) || names_determiner(lower)
}

/// Words that introduce the phrase that follows them: articles, prepositions,
/// conjunctions, pronouns, auxiliaries, and common intensifiers. A line or cue should
/// not end right after one of these.
pub fn is_function_word(word: &str) -> (answer: bool)
    ensures
        answer == introduces_phrase(word@),
{
    let chars = chars_of(word);
    let len = stem_length(&kinds_of(&chars));
    let stem = string_of(&chars, 0, len);
    assert(stem@ =~= word@.take(len as int));
    is_listed_function_word(stem.to_lowercase().as_str())
}

/// What follows the last letter or digit of a word makes no difference to how long the part
/// up to it is.
proof fn lemma_stem_of_prefix(kinds: Seq<CharKind>, more: Seq<CharKind>)
    requires
        forall|k: int| 0 <= k < more.len() ==> !(#[trigger] more[k]).alphanumeric,
    ensures
        stem_len(kinds + more) == stem_len(kinds),
        0 <= stem_len(kinds) <= kinds.len(),
    decreases kinds.len() + more.len(),
{
    if more.len() > 0 {
        assert((kinds + more).drop_last() =~= kinds + more.drop_last());
        assert((kinds + more).last() == more[more.len() - 1]);
        lemma_stem_of_prefix(kinds, more.drop_last());
    } else {
        assert(kinds + more =~= kinds);
        if kinds.len() > 0 && !kinds.last().alphanumeric {
            lemma_stem_of_prefix(kinds.drop_last(), Seq::empty());
        }
    }
}

/// Punctuation at the end of a word does not change whether it is a function word.
pub proof fn law_trailing_punctuation_is_ignored(word: Seq<char>, punctuation: Seq<char>)
    requires
        forall|k: int|
            0 <= k < punctuation.len() ==> !is_letter_or_digit(#[trigger] punctuation[k]),
    ensures
        introduces_phrase(word + punctuation) == introduces_phrase(word),
{
    let more = char_kinds(punctuation);
    assert forall|k: int| 0 <= k < more.len() implies !(#[trigger] more[k]).alphanumeric by {
        assert(more[k] == char_kind(punctuation[k]));
    }
    assert(char_kinds(word + punctuation) =~= char_kinds(word) + more);
    lemma_stem_of_prefix(char_kinds(word), more);
    let len = stem_len(char_kinds(word));
    assert((word + punctuation).take(len) =~= word.take(len));
}

/// How long the part up to the last letter or digit is depends on what is a letter or digit
/// alone.
proof fn lemma_same_stem(a: Seq<CharKind>, b: Seq<CharKind>)
    requires
        a.len() == b.len(),
        forall|k: int| 0 <= k < a.len() ==> (#[trigger] a[k]).alphanumeric == b[k].alphanumeric,
    ensures
        stem_len(a) == stem_len(b),
        0 <= stem_len(a) <= a.len(),
    decreases a.len(),
{
    if a.len() > 0 {
        assert(a[a.len() - 1].alphanumeric == b[b.len() - 1].alphanumeric);
        lemma_same_stem(a.drop_last(), b.drop_last());
    }
}

/// Writing an ASCII word in uppercase does not change whether it is a function word.
pub proof fn law_upper_case_is_ignored(word: Seq<char>)
    requires
        is_ascii_text(word),
    ensures
        introduces_phrase(ascii_uppered(word)) == introduces_phrase(word),
{
    let upper = ascii_uppered(word);
    let a = char_kinds(word);
    let b = char_kinds(upper);
    assert forall|k: int| 0 <= k < a.len() implies (#[trigger] a[k]).alphanumeric
        == b[k].alphanumeric by {
        assert(is_ascii_char(word[k]));
        assert(upper[k] == ascii_upper(word[k]));
        assert(a[k] == char_kind(word[k]));
        assert(b[k] == char_kind(upper[k]));
    }
    lemma_same_stem(a, b);
    let len = stem_len(a);
    let stem = word.take(len);
    assert forall|k: int| 0 <= k < stem.len() implies is_ascii_char(#[trigger] stem[k]) by {
        assert(stem[k] == word[k]);
    }
    assert(upper.take(len) =~= ascii_uppered(stem));
    lemma_lowering_uppered(stem);
}

/// A word ends a sentence exactly if one of `.`, `?` and `!` stands in it with nothing but
/// closing quotes and brackets after it, and the first letter or digit of the word that
/// follows, if there is one, is an uppercase letter or a number.
pub proof fn law_sentence_ends_by_their_characters(word: Seq<char>, next: Option<Seq<char>>)
    ensures
        is_sentence_end(word, next) <==> {
            &&& exists|i: int|
                {
                    &&& 0 <= i < word.len()
                    &&& #[trigger] word[i] == '.' || word[i] == '?' || word[i] == '!'
                    &&& forall|m: int|
                        i < m < word.len() ==> #[trigger] word[m] == '"' || word[m] == '\''
                            || word[m] == ')' || word[m] == '”' || word[m] == '’'
                }
            &&& next matches Some(after) ==> exists|j: int|
                {
                    &&& 0 <= j < after.len()
                    &&& is_letter_or_digit(#[trigger] after[j])
                    &&& is_upper(after[j]) || is_number(after[j])
                    &&& forall|m: int| 0 <= m < j ==> !is_letter_or_digit(#[trigger] after[m])
                }
        },
{
    lemma_final_punctuation(word);
    if let Some(after) = next {
        lemma_sentence_start(after);
    }
}

/// The start of a sentence, by the characters of a word.
pub(crate) proof fn lemma_sentence_start(after: Seq<char>)
    ensures
        starts_sentence(char_kinds(after)) <==> exists|j: int|
            {
                &&& 0 <= j < after.len()
                &&& is_letter_or_digit(#[trigger] after[j])
                &&& is_upper(after[j]) || is_number(after[j])
                &&& forall|m: int| 0 <= m < j ==> !is_letter_or_digit(#[trigger] after[m])
            },
{
    let kinds = char_kinds(after);
    assert forall|m: int| 0 <= m < after.len() implies #[trigger] kinds[m] == char_kind(
        after[m],
    ) by {}
    if starts_sentence(kinds) {
        let j = choose|j: int|
            {
                &&& 0 <= j < kinds.len()
                &&& (#[trigger] kinds[j]).alphanumeric
                &&& forall|k: int| 0 <= k < j ==> !(#[trigger] kinds[k]).alphanumeric
                &&& kinds[j].uppercase || kinds[j].numeric
            };
        assert(is_letter_or_digit(after[j]));
        assert forall|m: int| 0 <= m < j implies !is_letter_or_digit(#[trigger] after[m]) by {
            assert(!kinds[m].alphanumeric);
        }
    }
    if exists|j: int|
        {
            &&& 0 <= j < after.len()
            &&& is_letter_or_digit(#[trigger] after[j])
            &&& is_upper(after[j]) || is_number(after[j])
            &&& forall|m: int| 0 <= m < j ==> !is_letter_or_digit(#[trigger] after[m])
        } {
        let j = choose|j: int|
            {
                &&& 0 <= j < after.len()
                &&& is_letter_or_digit(#[trigger] after[j])
                &&& is_upper(after[j]) || is_number(after[j])
                &&& forall|m: int| 0 <= m < j ==> !is_letter_or_digit(#[trigger] after[m])
            };
        assert(kinds[j].alphanumeric);
        assert forall|k: int| 0 <= k < j implies !(#[trigger] kinds[k]).alphanumeric by {
            assert(!is_letter_or_digit(after[k]));
        }
    }
}

/// Sentence-final punctuation, by the characters of a word.
pub(crate) proof fn lemma_final_punctuation(word: Seq<char>)
    ensures
        has_final_punctuation(word) <==> exists|i: int|
            {
                &&& 0 <= i < word.len()
                &&& #[trigger] word[i] == '.' || word[i] == '?' || word[i] == '!'
                &&& forall|m: int|
                    i < m < word.len() ==> #[trigger] word[m] == '"' || word[m] == '\''
                        || word[m] == ')' || word[m] == '”' || word[m] == '’'
            },
    decreases word.len(),
{
    if word.len() > 0 && is_closing_mark(word.last()) {
        let rest = word.drop_last();
        lemma_final_punctuation(rest);
        if has_final_punctuation(rest) {
            let i = choose|i: int|
                {
                    &&& 0 <= i < rest.len()
                    &&& #[trigger] rest[i] == '.' || rest[i] == '?' || rest[i] == '!'
                    &&& forall|m: int|
                        i < m < rest.len() ==> #[trigger] rest[m] == '"' || rest[m] == '\''
                            || rest[m] == ')' || rest[m] == '”' || rest[m] == '’'
                };
            assert(word[i] == rest[i]);
            assert forall|m: int| i < m < word.len() implies #[trigger] word[m] == '"' || word[m]
                == '\'' || word[m] == ')' || word[m] == '”' || word[m] == '’' by {
                if m < rest.len() {
                    assert(rest[m] == word[m]);
                }
            }
        }
        if exists|i: int|
            {
                &&& 0 <= i < word.len()
                &&& #[trigger] word[i] == '.' || word[i] == '?' || word[i] == '!'
                &&& forall|m: int|
                    i < m < word.len() ==> #[trigger] word[m] == '"' || word[m] == '\''
                        || word[m] == ')' || word[m] == '”' || word[m] == '’'
            } {
            let i = choose|i: int|
                {
                    &&& 0 <= i < word.len()
                    &&& #[trigger] word[i] == '.' || word[i] == '?' || word[i] == '!'
                    &&& forall|m: int|
                        i < m < word.len() ==> #[trigger] word[m] == '"' || word[m] == '\''
                            || word[m] == ')' || word[m] == '”' || word[m] == '’'
                };
            assert(i < rest.len());
            assert(rest[i] == word[i]);
            assert forall|m: int| i < m < rest.len() implies #[trigger] rest[m] == '"' || rest[m]
                == '\'' || rest[m] == ')' || rest[m] == '”' || rest[m] == '’' by {
                assert(word[m] == rest[m]);
            }
        }
    } else if word.len() > 0 {
        assert(word.last() == word[word.len() - 1]);
    }
}

/// How long the part of a word up to its last letter or digit is, by its characters.
proof fn lemma_stem_len(word: Seq<char>, e: int)
    requires
        -1 <= e < word.len(),
        e >= 0 ==> is_letter_or_digit(word[e]),
        forall|m: int| e < m < word.len() ==> !is_letter_or_digit(#[trigger] word[m]),
    ensures
        stem_len(char_kinds(word)) == e + 1,
    decreases word.len(),
{
    let kinds = char_kinds(word);
    if word.len() > 0 {
        let n = word.len() - 1;
        assert(kinds.last() == char_kind(word[n]));
        if e < n {
            let rest = word.drop_last();
            assert(!is_letter_or_digit(word[n]));
            assert forall|m: int| e < m < rest.len() implies !is_letter_or_digit(
                #[trigger] rest[m],
            ) by {
                assert(rest[m] == word[m]);
            }
            lemma_stem_len(rest, e);
            assert(kinds.drop_last() =~= char_kinds(rest));
        }
    }
}

/// A text is a function word exactly if it is one of these, up to its last letter or digit,
/// which stands at `e`, and in lowercase, where it reads `word`. If it has no letter or digit,
/// `e` is -1 and `word` is empty.
pub proof fn law_function_words(text: Seq<char>, e: int, word: Seq<char>)
    requires
        -1 <= e < text.len(),
        e >= 0 ==> is_letter_or_digit(text[e]),
        forall|m: int| e < m < text.len() ==> !is_letter_or_digit(#[trigger] text[m]),
        lowered(text.take(e + 1)) == word,
    ensures
        introduces_phrase(text) <==> {
            ||| word == "a"@
            ||| word == "about"@
            ||| word == "am"@
            ||| word == "an"@
            ||| word == "and"@
            ||| word == "any"@
            ||| word == "are"@
            ||| word == "as"@
            ||| word == "at"@
            ||| word == "be"@
            ||| word == "because"@
            ||| word == "been"@
            ||| word == "being"@
            ||| word == "between"@
            ||| word == "but"@
            ||| word == "by"@
            ||| word == "can"@
            ||| word == "could"@
            ||| word == "did"@
            ||| word == "do"@
            ||| word == "does"@
            ||| word == "each"@
            ||| word == "every"@
            ||| word == "for"@
            ||| word == "from"@
            ||| word == "he"@
            ||| word == "her"@
            ||| word == "his"@
            ||| word == "how"@
            ||| word == "i"@
            ||| word == "if"@
            ||| word == "in"@
            ||| word == "into"@
            ||| word == "is"@
            ||| word == "it"@
            ||| word == "its"@
            ||| word == "just"@
            ||| word == "may"@
            ||| word == "might"@
            ||| word == "must"@
            ||| word == "my"@
            ||| word == "no"@
            ||| word == "nor"@
            ||| word == "not"@
            ||| word == "of"@
            ||| word == "on"@
            ||| word == "onto"@
            ||| word == "or"@
            ||| word == "our"@
            ||| word == "over"@
            ||| word == "quite"@
            ||| word == "really"@
            ||| word == "shall"@
            ||| word == "she"@
            ||| word == "should"@
            ||| word == "so"@
            ||| word == "some"@
            ||| word == "that"@
            ||| word == "the"@
            ||| word == "their"@
            ||| word == "these"@
            ||| word == "they"@
            ||| word == "this"@
            ||| word == "those"@
            ||| word == "to"@
            ||| word == "under"@
            ||| word == "very"@
            ||| word == "was"@
            ||| word == "we"@
            ||| word == "were"@
            ||| word == "what"@
            ||| word == "when"@
            ||| word == "where"@
            ||| word == "which"@
            ||| word == "who"@
            ||| word == "whom"@
            ||| word == "whose"@
            ||| word == "why"@
            ||| word == "will"@
            ||| word == "with"@
            ||| word == "would"@
            ||| word == "yet"@
            ||| word == "you"@
            ||| word == "your"@
        },
{
    lemma_stem_len(text, e);
}

} // verus!
