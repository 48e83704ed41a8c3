//! Character-level helpers shared by the other modules.

use vstd::prelude::*;

verus! {

/// What `char::is_alphanumeric` answers for a character.
pub uninterp spec fn char_is_alphanumeric(c: char) -> bool;

/// What `char::is_uppercase` answers for a character.
pub uninterp spec fn char_is_uppercase(c: char) -> bool;

/// What `char::is_numeric` answers for a character.
pub uninterp spec fn char_is_numeric(c: char) -> bool;

/// What `char::is_whitespace` answers for a character.
pub uninterp spec fn char_is_whitespace(c: char) -> bool;

/// What `str::to_lowercase` makes of a text.
pub uninterp spec fn lowercase_of(text: Seq<char>) -> Seq<char>;

/// Whether `c` is an ASCII character.
pub open spec fn is_ascii_char(c: char) -> bool {
    (c as int) < 128
}

/// Whether `c` is an ASCII letter or digit.
pub open spec fn is_ascii_letter_or_digit(c: char) -> bool {
    ||| 'A' <= c <= 'Z'
    ||| 'a' <= c <= 'z'
    ||| '0' <= c <= '9'
}

/// `c` in lowercase if it is an ASCII letter, and `c` itself otherwise.
pub open spec fn ascii_lower(c: char) -> char {
    if 'A' <= c <= 'Z' {
        (c as int + 32) as char
    } else {
        c
    }
}

/// `c` in uppercase if it is an ASCII letter, and `c` itself otherwise.
pub open spec fn ascii_upper(c: char) -> char {
    if 'a' <= c <= 'z' {
        (c as int - 32) as char
    } else {
        c
    }
}

/// Whether `text` consists of ASCII characters.
pub open spec fn is_ascii_text(text: Seq<char>) -> bool {
    forall|k: int| 0 <= k < text.len() ==> is_ascii_char(#[trigger] text[k])
}

/// `text` with its ASCII letters in lowercase.
pub open spec fn ascii_lowered(text: Seq<char>) -> Seq<char> {
    text.map_values(|c: char| ascii_lower(c))
}

/// `text` with its ASCII letters in uppercase.
pub open spec fn ascii_uppered(text: Seq<char>) -> Seq<char> {
    text.map_values(|c: char| ascii_upper(c))
}

/// Whether `c` is a letter or a digit.
pub open spec fn is_letter_or_digit(c: char) -> bool {
    if is_ascii_char(c) {
        is_ascii_letter_or_digit(c)
    } else {
        char_is_alphanumeric(c)
    }
}

/// Whether `c` is an uppercase letter.
pub open spec fn is_upper(c: char) -> bool {
    if is_ascii_char(c) {
        'A' <= c <= 'Z'
    } else {
        char_is_uppercase(c)
    }
}

/// Whether `c` is a number.
pub open spec fn is_number(c: char) -> bool {
    if is_ascii_char(c) {
        '0' <= c <= '9'
    } else {
        char_is_numeric(c)
    }
}

/// Whether `c` is whitespace.
pub open spec fn is_white(c: char) -> bool {
    if is_ascii_char(c) {
        is_ascii_white(c)
    } else {
        char_is_whitespace(c)
    }
}

/// Whether `c` is a space or one of the ASCII controls from tab to carriage return.
pub open spec fn is_ascii_white(c: char) -> bool {
    c == ' ' || '\t' <= c <= '\r'
}

/// `text` in lowercase.
pub open spec fn lowered(text: Seq<char>) -> Seq<char> {
    if is_ascii_text(text) {
        ascii_lowered(text)
    } else {
        lowercase_of(text)
    }
}

/// `char::is_alphanumeric`: the Unicode answer, which depends on the character alone. Of
/// the ASCII characters it is the letters and the digits.
pub assume_specification[ char::is_alphanumeric ](c: char) -> (answer: bool)
    ensures
        answer == char_is_alphanumeric(c),
        is_ascii_char(c) ==> answer == is_ascii_letter_or_digit(c),
;

/// `char::is_uppercase`: the Unicode answer, which depends on the character alone. Of the
/// ASCII characters it is the letters `A` to `Z`.
pub assume_specification[ char::is_uppercase ](c: char) -> (answer: bool)
    ensures
        answer == char_is_uppercase(c),
        is_ascii_char(c) ==> answer == ('A' <= c <= 'Z'),
;

/// `char::is_numeric`: the Unicode answer, which depends on the character alone. Of the
/// ASCII characters it is the digits.
pub assume_specification[ char::is_numeric ](c: char) -> (answer: bool)
    ensures
        answer == char_is_numeric(c),
        is_ascii_char(c) ==> answer == ('0' <= c <= '9'),
;

/// `char::is_whitespace`: the Unicode answer, which depends on the character alone. Of the
/// ASCII characters it is the space and those from tab to carriage return.
pub assume_specification[ char::is_whitespace ](c: char) -> (answer: bool)
    ensures
        answer == char_is_whitespace(c),
        is_ascii_char(c) ==> answer == is_ascii_white(c),
;

/// `str::to_lowercase`: the Unicode lowercase mapping, which depends on the text alone. Of
/// an ASCII text it changes the letters `A` to `Z`, to `a` to `z`, and nothing else.
pub assume_specification[ str::to_lowercase ](text: &str) -> (lower: String)
    ensures
        lower@ == lowercase_of(text@),
        is_ascii_text(text@) ==> lower@ == ascii_lowered(text@),
;

/// `String::push`: appends one character and leaves what was there before it.
pub assume_specification[ String::push ](s: &mut String, c: char)
    ensures
        final(s)@ == old(s)@.push(c),
;

/// The characters of `text`, in order.
pub fn chars_of(text: &str) -> (chars: Vec<char>)
    ensures
        chars@ == text@,
{
    let mut chars: Vec<char> = Vec::new();
    for c in it: text.chars()
        invariant
            it.seq() == text@,
            chars@ == text@.take(it.index() as int),
    {
        chars.push(c);
    }
    chars
}

/// A string made of `chars[from..to]`.
pub fn string_of(chars: &Vec<char>, from: usize, to: usize) -> (text: String)
    requires
        from <= to <= chars@.len(),
    ensures
        text@ == chars@.subrange(from as int, to as int),
{
    let mut text = String::new();
    for i in from..to
        invariant
            from <= to <= chars@.len(),
            text@ == chars@.subrange(from as int, i as int),
    {
        text.push(chars[i]);
    }
    text
}

/// Whether two texts hold the same characters.
pub fn same_text(a: &str, b: &str) -> (same: bool)
    ensures
        same == (a@ == b@),
{
    let left = chars_of(a);
    let right = chars_of(b);
    if left.len() != right.len() {
        return false;
    }
    for i in 0..left.len()
        invariant
            left@ == a@,
            right@ == b@,
            left@.len() == right@.len(),
            forall|k: int| 0 <= k < i ==> left@[k] == right@[k],
    {
        if left[i] != right[i] {
            return false;
        }
    }
    assert(left@ =~= right@);
    true
}

/// Whether `text` ends with the character `c`.
pub open spec fn ends_with_char(text: Seq<char>, c: char) -> bool {
    text.len() > 0 && text.last() == c
}

/// Whether `text` ends with three dots.
pub open spec fn ends_with_ellipsis(text: Seq<char>) -> bool {
    &&& text.len() >= 3
    &&& text[text.len() - 1] == '.'
    &&& text[text.len() - 2] == '.'
    &&& text[text.len() - 3] == '.'
}

/// The last character of `text`, if it has one.
pub fn last_char(text: &str) -> (last: Option<char>)
    ensures
        text@.len() == 0 ==> last is None,
        text@.len() > 0 ==> last == Some(text@.last()),
{
    let chars = chars_of(text);
    if chars.len() == 0 {
        None
    } else {
        Some(chars[chars.len() - 1])
    }
}

/// Whether `text` ends with three dots.
pub fn has_ellipsis(text: &str) -> (answer: bool)
    ensures
        answer == ends_with_ellipsis(text@),
{
    let chars = chars_of(text);
    let n = chars.len();
    n >= 3 && chars[n - 1] == '.' && chars[n - 2] == '.' && chars[n - 3] == '.'
}

/// `text` without the whitespace it starts with.
pub open spec fn trimmed_start(text: Seq<char>) -> Seq<char>
    decreases text.len(),
{
    if text.len() > 0 && is_white(text[0]) {
        trimmed_start(text.drop_first())
    } else {
        text
    }
}

/// `text` without the whitespace it ends with.
pub open spec fn trimmed_end(text: Seq<char>) -> Seq<char>
    decreases text.len(),
{
    if text.len() > 0 && is_white(text.last()) {
        trimmed_end(text.drop_last())
    } else {
        text
    }
}

/// `text` without the whitespace at its two ends.
pub open spec fn trimmed(text: Seq<char>) -> Seq<char> {
    trimmed_end(trimmed_start(text))
}

proof fn lemma_trimmed_start(text: Seq<char>, from: int)
    requires
        0 <= from <= text.len(),
        forall|k: int| 0 <= k < from ==> is_white(#[trigger] text[k]),
        from < text.len() ==> !is_white(text[from]),
    ensures
        trimmed_start(text) == text.skip(from),
    decreases from,
{
    if from > 0 {
        let rest = text.drop_first();
        assert forall|k: int| 0 <= k < from - 1 implies is_white(#[trigger] rest[k]) by {
            assert(rest[k] == text[k + 1]);
        }
        lemma_trimmed_start(rest, from - 1);
        assert(rest.skip(from - 1) =~= text.skip(from));
    } else {
        assert(text.skip(0) =~= text);
    }
}

proof fn lemma_trimmed_end(text: Seq<char>, to: int)
    requires
        0 <= to <= text.len(),
        forall|k: int| to <= k < text.len() ==> is_white(#[trigger] text[k]),
        to > 0 ==> !is_white(text[to - 1]),
    ensures
        trimmed_end(text) == text.take(to),
    decreases text.len(),
{
    if to < text.len() {
        let rest = text.drop_last();
        assert forall|k: int| to <= k < rest.len() implies is_white(
            #[trigger] rest[k],
        ) by {
            assert(rest[k] == text[k]);
        }
        lemma_trimmed_end(rest, to);
        assert(rest.take(to) =~= text.take(to));
    } else {
        assert(text.take(to) =~= text);
    }
}

/// Where the part between the leading and the trailing `true` flags begins and ends.
/// With no `false` flag at all, both are the length.
pub fn visible_range(white: &Vec<bool>) -> (range: (usize, usize))
    ensures
        range.0 <= range.1 <= white@.len(),
        forall|k: int| 0 <= k < range.0 ==> white@[k],
        range.0 < white@.len() ==> !white@[range.0 as int],
        forall|k: int| range.1 <= k < white@.len() ==> white@[k],
        range.0 < white@.len() ==> range.0 < range.1 && !white@[range.1 - 1],
{
    let mut from: usize = 0;
    while from < white.len() && white[from]
        invariant
            from <= white@.len(),
            forall|k: int| 0 <= k < from ==> white@[k],
        decreases white@.len() - from,
    {
        from += 1;
    }
    let mut to: usize = white.len();
    while to > from && white[to - 1]
        invariant
            from <= to <= white@.len(),
            from < white@.len() ==> !white@[from as int],
            forall|k: int| to <= k < white@.len() ==> white@[k],
        decreases to,
    {
        to -= 1;
    }
    (from, to)
}

/// `text` without the whitespace at its two ends.
pub fn trim(text: &str) -> (result: String)
    ensures
        result@ == trimmed(text@),
{
    let chars = chars_of(text);
    let mut white: Vec<bool> = Vec::new();
    for i in 0..chars.len()
        invariant
            white@.len() == i,
            forall|k: int| 0 <= k < i ==> white@[k] == is_white(#[trigger] chars@[k]),
    {
        white.push(chars[i].is_whitespace());
    }
    let (from, to) = visible_range(&white);
    proof {
        let all = chars@;
        assert forall|k: int| 0 <= k < from implies is_white(#[trigger] all[k]) by {
            assert(white@[k]);
        }
        lemma_trimmed_start(all, from as int);
        let rest = all.skip(from as int);
        assert forall|k: int| to - from <= k < rest.len() implies is_white(
            #[trigger] rest[k],
        ) by {
            assert(white@[k + from]);
            assert(rest[k] == all[k + from]);
        }
        lemma_trimmed_end(rest, to - from);
        assert(rest.take(to - from) =~= all.subrange(from as int, to as int));
    }
    string_of(&chars, from, to)
}

/// The decimal digit with value `d`.
pub open spec fn digit_char(d: int) -> char {
    (48 + d) as char
}

/// `n` written in decimal, without leading zeros.
pub open spec fn decimal(n: int) -> Seq<char>
    decreases n,
{
    if n < 10 {
        seq![digit_char(n)]
    } else {
        decimal(n / 10).push(digit_char(n % 10))
    }
}

/// `n` written in decimal, with zeros in front to fill at least `width` places.
pub open spec fn zero_padded(n: int, width: int) -> Seq<char> {
    let digits = decimal(n);
    if digits.len() < width {
        Seq::new((width - digits.len()) as nat, |i: int| '0') + digits
    } else {
        digits
    }
}

/// Appends `n` in decimal.
pub fn push_decimal(out: &mut String, n: u128)
    ensures
        final(out)@ == old(out)@ + decimal(n as int),
    decreases n,
{
    if n < 10 {
        out.push((48u8 + n as u8) as char);
    } else {
        push_decimal(out, n / 10);
        out.push((48u8 + (n % 10) as u8) as char);
    }
}

/// Appends `n` in decimal, as at least two digits.
pub fn push_two_digits(out: &mut String, n: u128)
    ensures
        final(out)@ == old(out)@ + zero_padded(n as int, 2),
{
    reveal_with_fuel(decimal, 2);
    let ghost before = out@;
    if n < 10 {
        out.push('0');
    }
    push_decimal(out, n);
    assert(out@ =~= before + zero_padded(n as int, 2)) by {
        assert(n >= 10 ==> decimal(n as int).len() >= 2) by {
            if n >= 10 {
                lemma_decimal_not_empty(n as int / 10);
            }
        }
    }
}

/// Appends `n` in decimal, as at least three digits.
pub fn push_three_digits(out: &mut String, n: u128)
    ensures
        final(out)@ == old(out)@ + zero_padded(n as int, 3),
{
    reveal_with_fuel(decimal, 3);
    let ghost before = out@;
    if n < 10 {
        out.push('0');
    }
    if n < 100 {
        out.push('0');
    }
    push_decimal(out, n);
    assert(out@ =~= before + zero_padded(n as int, 3)) by {
        assert(n >= 100 ==> decimal(n as int).len() >= 3) by {
            if n >= 100 {
                lemma_decimal_not_empty(n as int / 100);
                assert(n as int / 10 / 10 == n as int / 100);
            }
        }
    }
}

/// A number always has at least one digit.
pub proof fn lemma_decimal_not_empty(n: int)
    ensures
        decimal(n).len() >= 1,
    decreases n,
{
    if n >= 10 {
        lemma_decimal_not_empty(n / 10);
    }
}

/// Upper case does not outlast lowering: a text in uppercase lowers to what the text itself
/// does.
pub proof fn lemma_lowering_uppered(text: Seq<char>)
    requires
        is_ascii_text(text),
    ensures
        is_ascii_text(ascii_uppered(text)),
        lowered(ascii_uppered(text)) == lowered(text),
{
    let upper = ascii_uppered(text);
    assert forall|k: int| 0 <= k < upper.len() implies is_ascii_char(#[trigger] upper[k]) by {
        assert(is_ascii_char(text[k]));
    }
    assert(ascii_lowered(upper) =~= ascii_lowered(text)) by {
        assert forall|k: int| 0 <= k < text.len() implies ascii_lower(ascii_upper(text[k]))
            == ascii_lower(#[trigger] text[k]) by {
            assert(is_ascii_char(text[k]));
        }
    }
}

/// Trimming takes whitespace off the two ends of a text and nothing else: what is left is the
/// part between some `from` and `to`, everything outside it is whitespace, and it neither
/// begins nor ends with whitespace.
pub proof fn law_trimming_removes_outer_whitespace(text: Seq<char>) -> (part: (int, int))
    ensures
        0 <= part.0 <= part.1 <= text.len(),
        trimmed(text) == text.subrange(part.0, part.1),
        forall|k: int| 0 <= k < part.0 ==> is_white(#[trigger] text[k]),
        forall|k: int| part.1 <= k < text.len() ==> is_white(#[trigger] text[k]),
        part.0 < part.1 ==> !is_white(text[part.0]) && !is_white(text[part.1 - 1]),
{
    let from = lemma_start_of(text);
    let rest = text.skip(from);
    let to = lemma_end_of(rest);
    assert(rest.take(to) =~= text.subrange(from, from + to));
    assert forall|k: int| from + to <= k < text.len() implies is_white(#[trigger] text[k]) by {
        assert(rest[k - from] == text[k]);
    }
    (from, from + to)
}

proof fn lemma_start_of(text: Seq<char>) -> (from: int)
    ensures
        0 <= from <= text.len(),
        trimmed_start(text) == text.skip(from),
        forall|k: int| 0 <= k < from ==> is_white(#[trigger] text[k]),
        from < text.len() ==> !is_white(text[from]),
    decreases text.len(),
{
    if text.len() > 0 && is_white(text[0]) {
        let rest = text.drop_first();
        let from = lemma_start_of(rest);
        assert(rest.skip(from) =~= text.skip(from + 1));
        assert forall|k: int| 0 <= k < from + 1 implies is_white(#[trigger] text[k]) by {
            if k > 0 {
                assert(rest[k - 1] == text[k]);
            }
        }
        from + 1
    } else {
        assert(text.skip(0) =~= text);
        0
    }
}

proof fn lemma_end_of(text: Seq<char>) -> (to: int)
    ensures
        0 <= to <= text.len(),
        trimmed_end(text) == text.take(to),
        forall|k: int| to <= k < text.len() ==> is_white(#[trigger] text[k]),
        to > 0 ==> !is_white(text[to - 1]),
    decreases text.len(),
{
    if text.len() > 0 && is_white(text.last()) {
        let rest = text.drop_last();
        let to = lemma_end_of(rest);
        assert(rest.take(to) =~= text.take(to));
        assert forall|k: int| to <= k < text.len() implies is_white(#[trigger] text[k]) by {
            if k < rest.len() {
                assert(rest[k] == text[k]);
            }
        }
        to
    } else {
        assert(text.take(text.len() as int) =~= text);
        text.len() as int
    }
}

/// The number that decimal digits stand for.
pub open spec fn read_decimal(digits: Seq<char>) -> int
    decreases digits.len(),
{
    if digits.len() == 0 {
        0
    } else {
        10 * read_decimal(digits.drop_last()) + (digits.last() as int - 48)
    }
}

/// A number in decimal is made of digits, does not begin with a zero unless it is zero, and
/// is read back as the number.
pub proof fn law_decimals_are_read_back(n: int)
    requires
        n >= 0,
    ensures
        read_decimal(decimal(n)) == n,
        decimal(n).len() >= 1,
        n > 0 ==> decimal(n)[0] != '0',
        forall|k: int| 0 <= k < decimal(n).len() ==> '0' <= #[trigger] decimal(n)[k] <= '9',
        n < 10 ==> decimal(n).len() == 1,
        n < 100 ==> decimal(n).len() <= 2,
        n < 1000 ==> decimal(n).len() <= 3,
    decreases n,
{
    reveal_with_fuel(read_decimal, 2);
    if n < 10 {
        let digits = decimal(n);
        assert(digits.drop_last() =~= Seq::<char>::empty());
        assert(digits.last() as int == 48 + n);
    } else {
        law_decimals_are_read_back(n / 10);
        let digits = decimal(n);
        assert(digits.drop_last() =~= decimal(n / 10));
        assert(digits.last() as int == 48 + n % 10);
    }
}

/// Zeros in front do not change what digits stand for.
proof fn lemma_leading_zeros(count: nat, digits: Seq<char>)
    ensures
        read_decimal(Seq::new(count, |i: int| '0') + digits) == read_decimal(digits),
    decreases count + digits.len(),
{
    let zeros = Seq::new(count, |i: int| '0');
    let all = zeros + digits;
    if digits.len() > 0 {
        lemma_leading_zeros(count, digits.drop_last());
        assert(all.drop_last() =~= zeros + digits.drop_last());
    } else if count > 0 {
        let fewer = (count - 1) as nat;
        lemma_leading_zeros(fewer, digits);
        assert(all.drop_last() =~= Seq::new(fewer, |i: int| '0') + digits);
    }
}

/// A padded number is made of digits and is read back as the number. It takes as many places
/// as it is to fill, and more only if the number does not begin with a zero.
pub proof fn law_padded_numbers_are_read_back(n: int, width: int)
    requires
        n >= 0,
    ensures
        read_decimal(zero_padded(n, width)) == n,
        zero_padded(n, width).len() >= width,
        zero_padded(n, width).len() >= 1,
        zero_padded(n, width).len() > width && n > 0 ==> zero_padded(n, width)[0] != '0',
        forall|k: int|
            0 <= k < zero_padded(n, width).len() ==> '0' <= #[trigger] zero_padded(n, width)[k]
                <= '9',
        n < 100 ==> zero_padded(n, 2).len() == 2,
        n < 1000 ==> zero_padded(n, 3).len() == 3,
{
    law_decimals_are_read_back(n);
    let digits = decimal(n);
    if digits.len() < width {
        lemma_leading_zeros((width - digits.len()) as nat, digits);
        assert forall|k: int| 0 <= k < zero_padded(n, width).len() implies '0'
            <= #[trigger] zero_padded(n, width)[k] <= '9' by {
            let front = width - digits.len();
            if k >= front {
                assert(zero_padded(n, width)[k] == digits[k - front]);
            }
        }
    }
}

/// What the ASCII characters are, by their codes: the digits are 48 to 57, the uppercase
/// letters 65 to 90, the lowercase letters 97 to 122, and whitespace is 32 and 9 to 13. What
/// the others are is up to Unicode.
pub proof fn law_characters(c: char)
    ensures
        (c as int) < 128 ==> {
            &&& is_number(c) <==> 48 <= c as int <= 57
            &&& is_upper(c) <==> 65 <= c as int <= 90
            &&& is_letter_or_digit(c) <==> 48 <= c as int <= 57 || 65 <= c as int <= 90 || 97
                <= c as int <= 122
            &&& is_white(c) <==> c as int == 32 || 9 <= c as int <= 13
        },
        (c as int) >= 128 ==> {
            &&& is_number(c) <==> char_is_numeric(c)
            &&& is_upper(c) <==> char_is_uppercase(c)
            &&& is_letter_or_digit(c) <==> char_is_alphanumeric(c)
            &&& is_white(c) <==> char_is_whitespace(c)
        },
{
}

/// Lowering a text that is not all ASCII is up to Unicode.
pub proof fn law_other_lowering(text: Seq<char>, k: int)
    requires
        0 <= k < text.len(),
        (text[k] as int) >= 128,
    ensures
        lowered(text) == lowercase_of(text),
{
    assert(!is_ascii_char(text[k]));
}

/// Lowering an ASCII text keeps its length, moves the uppercase letters up by 32 and leaves
/// every other character.
pub proof fn law_ascii_lowering(text: Seq<char>, k: int)
    requires
        forall|m: int| 0 <= m < text.len() ==> (#[trigger] text[m]) as int <= 127,
        0 <= k < text.len(),
    ensures
        lowered(text).len() == text.len(),
        65 <= text[k] as int <= 90 ==> lowered(text)[k] as int == text[k] as int + 32,
        !(65 <= text[k] as int <= 90) ==> lowered(text)[k] == text[k],
{
    assert(is_ascii_text(text));
}

} // verus!
