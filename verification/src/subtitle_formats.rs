//! The subtitle file formats.

use vstd::prelude::*;

use crate::layout::{balance_lines, balanced};
use crate::seconds::{
    held_time, hold, law_held_times_keep_order, law_times_are_held_to_the_nearest_unit,
    lemma_nearest, lemma_nearest_is, lemma_nearest_ordered, lemma_scaled, lemma_ticks_per_unit,
    lemma_units, nearest, round_to_even, time_ticks, units_per_second, FULL_PRECISION,
    TICKS_PER_SECOND,
};
use crate::text::{
    ascii_lower, ascii_lowered, ascii_upper, decimal, is_ascii_char,
    law_padded_numbers_are_read_back, lowered, push_decimal, push_three_digits, push_two_digits,
    read_decimal, same_text, zero_padded,
};
use crate::utterance::{speeches, Speech, Utterance, SECOND};

verus! {

/// Subtitle format enum to specify the desired output format for subtitles.
#[derive(Clone, Copy, Debug, PartialEq, Eq, Structural)]
pub enum SubtitleFormat {
    /// SRT (SubRip Subtitle) format
    Srt,
    /// VTT (Web Video Text Tracks) format
    Vtt,
}

/// The name of a subtitle format that is not supported, as it was given.
#[derive(Debug)]
pub struct UnsupportedFormat {
    pub name: String,
}

impl UnsupportedFormat {
    /// What to tell the user.
    pub fn message(&self) -> (message: String)
        ensures
            message@ == "unsupported subtitle format: "@ + self.name@,
    {
        let mut message = "unsupported subtitle format: ".to_owned();
        message.append(self.name.as_str());
        message
    }
}

/// The format that a name in lowercase stands for.
pub open spec fn format_of(lower: Seq<char>) -> Option<SubtitleFormat> {
    if lower == "srt"@ {
        Some(SubtitleFormat::Srt)
    } else if lower == "vtt"@ {
        Some(SubtitleFormat::Vtt)
    } else {
        None
    }
}

/// The format that a name in lowercase stands for.
pub fn format_named(lower: &str) -> (format: Option<SubtitleFormat>)
    ensures
        format == format_of(lower@),
{
    if same_text(lower, "srt") {
        Some(SubtitleFormat::Srt)
    } else if same_text(lower, "vtt") {
        Some(SubtitleFormat::Vtt)
    } else {
        None
    }
}

/// The file extension of a format.
pub open spec fn extension_of(format: SubtitleFormat) -> Seq<char> {
    match format {
        SubtitleFormat::Srt => "srt"@,
        SubtitleFormat::Vtt => "vtt"@,
    }
}

/// The character between the seconds and the milliseconds of a timestamp.
pub open spec fn millis_separator(format: SubtitleFormat) -> char {
    match format {
        SubtitleFormat::Srt => ',',
        SubtitleFormat::Vtt => '.',
    }
}

/// A fraction of a second in whole milliseconds, where a second has `unit` parts: the
/// nearest, and of two equally near ones the even one, but never a full second.
pub open spec fn rounded_millis(fraction: int, unit: int) -> int {
    let millis = nearest(1000 * fraction, unit);
    if millis > 999 {
        999
    } else {
        millis
    }
}

/// Whole seconds and milliseconds as a timestamp: hours, minutes, seconds and milliseconds.
pub open spec fn timestamp_parts(format: SubtitleFormat, seconds: int, millis: int) -> Seq<char> {
    zero_padded(seconds / 3600, 2) + seq![':'] + zero_padded(seconds / 60 % 60, 2) + seq![':']
        + zero_padded(seconds % 60, 2) + seq![millis_separator(format)] + zero_padded(millis, 3)
}

/// The timestamp of a time as a 64-bit floating-point number of seconds holds it.
pub open spec fn held_timestamp(format: SubtitleFormat, nanos: int) -> Seq<char> {
    let unit = units_per_second(nanos);
    timestamp_parts(
        format,
        held_time(nanos) / unit,
        rounded_millis(held_time(nanos) % unit, unit),
    )
}

/// Whether a time is more than two microseconds away from the middle between milliseconds
/// and from the end of its second, so that no floating-point number of seconds mistakes it.
pub open spec fn is_clear(nanos: int) -> bool {
    &&& nanos % 1_000_000 <= 498_000 || nanos % 1_000_000 >= 502_000
    &&& nanos % 1_000_000_000 <= 999_998_000
}

/// A time in nanoseconds as a timestamp, to the nearest millisecond. Where that is a close
/// call, it is made as a 64-bit floating-point number of seconds holds the time.
pub open spec fn timestamp(format: SubtitleFormat, nanos: int) -> Seq<char> {
    if is_clear(nanos) {
        timestamp_parts(
            format,
            nanos / SECOND as int,
            rounded_millis(nanos % SECOND as int, SECOND as int),
        )
    } else {
        held_timestamp(format, nanos)
    }
}

/// A time as it is written: a negative one, which should never occur, counts as zero.
pub open spec fn written_time(nanos: int) -> int {
    if nanos < 0 {
        0
    } else {
        nanos
    }
}

/// The timing line and the wrapped text of a cue.
pub open spec fn cue_body(format: SubtitleFormat, cue: Speech) -> Seq<char> {
    timestamp(format, written_time(cue.start)) + " --> "@ + timestamp(
        format,
        written_time(cue.end),
    ) + seq!['\n'] + balanced(cue.text) + seq!['\n']
}

/// A caption block. VTT cues need no number, so it is omitted there.
pub open spec fn caption_block(format: SubtitleFormat, cue: Speech, number: int) -> Seq<char> {
    match format {
        SubtitleFormat::Srt => decimal(number) + seq!['\n'] + cue_body(format, cue) + seq!['\n'],
        SubtitleFormat::Vtt => cue_body(format, cue) + seq!['\n'],
    }
}

/// The caption blocks of `cues`, numbered from 1.
pub open spec fn caption_blocks(format: SubtitleFormat, cues: Seq<Speech>) -> Seq<char>
    decreases cues.len(),
{
    if cues.len() == 0 {
        Seq::empty()
    } else {
        caption_blocks(format, cues.drop_last()) + caption_block(
            format,
            cues.last(),
            cues.len() as int,
        )
    }
}

/// What stands before the first caption block.
pub open spec fn file_header(format: SubtitleFormat) -> Seq<char> {
    match format {
        SubtitleFormat::Srt => Seq::empty(),
        SubtitleFormat::Vtt => "WEBVTT\n\n"@,
    }
}

/// A whole subtitle file.
pub open spec fn subtitle_file(format: SubtitleFormat, cues: Seq<Speech>) -> Seq<char> {
    file_header(format) + caption_blocks(format, cues)
}

/// The entry of cue number `number` in an SRT file that separates entries by blank lines.
pub open spec fn srt_entry(cue: Speech, number: int) -> Seq<char> {
    (if number != 1 {
        seq!['\n']
    } else {
        Seq::empty()
    }) + decimal(number) + seq!['\n'] + cue_body(SubtitleFormat::Srt, cue)
}

/// An SRT file that separates entries by blank lines, and ends with the last entry.
pub open spec fn srt_entries(cues: Seq<Speech>) -> Seq<char>
    decreases cues.len(),
{
    if cues.len() == 0 {
        Seq::empty()
    } else {
        srt_entries(cues.drop_last()) + srt_entry(cues.last(), cues.len() as int)
    }
}

/// Appends the timing line and the wrapped text of a cue.
fn push_cue_body(out: &mut String, format: SubtitleFormat, cue: &Utterance)
    ensures
        final(out)@ == old(out)@ + cue_body(format, cue@),
{
    let ghost before = out@;
    let start = format.format_timestamp(cue.start);
    let end = format.format_timestamp(cue.end);
    let text = balance_lines(cue.text.as_str());
    out.append(start.as_str());
    out.append(" --> ");
    out.append(end.as_str());
    out.push('\n');
    out.append(text.as_str());
    out.push('\n');
    assert(out@ =~= before + cue_body(format, cue@));
}

impl SubtitleFormat {
    /// The format that `name` stands for, in whatever case it is written.
    pub fn from_name(name: &str) -> (format: Result<SubtitleFormat, UnsupportedFormat>)
        ensures
            match format {
                Ok(format) => format_of(lowered(name@)) == Some(format),
                Err(error) => format_of(lowered(name@)) is None && error.name@ == name@,
            },
    {
        match format_named(name.to_lowercase().as_str()) {
            Some(format) => Ok(format),
            None => Err(UnsupportedFormat { name: name.to_owned() }),
        }
    }

    /// Get the file extension associated with the subtitle format.
    pub fn extension(&self) -> (extension: &'static str)
        ensures
            extension@ == extension_of(*self),
    {
        match self {
            Self::Srt => "srt",
            Self::Vtt => "vtt",
        }
    }

    /// Format a timestamp in nanoseconds into the SRT or VTT format string (HH:MM:SS,mmm
    /// or HH:MM:SS.mmm). A fraction that would round up to a full second is written as
    /// 999 milliseconds.
    ///
    /// Negative timestamps should never occur: they would indicate a bug in the
    /// calculation of timestamps. They are written as zero.
    pub fn format_timestamp(&self, nanos: i64) -> (text: String)
        ensures
            text@ == timestamp(
                *self,
                if nanos < 0 {
                    0
                } else {
                    nanos as int
                },
            ),
    {
        let nanos: i64 = if nanos < 0 {
            0
        } else {
            nanos
        };
        let (time, unit) = hold(nanos as u64);
        let seconds: u128 = time / unit;
        let fraction: u128 = time % unit;
        let mut millis: u128 = round_to_even(1000 * fraction, unit);
        if millis > 999 {
            // 0.9995 would round to 1.000
            millis = 999;
        }
        let separator = match self {
            Self::Srt => ',',
            Self::Vtt => '.',
        };
        let mut text = String::new();
        push_two_digits(&mut text, seconds / 3600);
        text.push(':');
        push_two_digits(&mut text, seconds / 60 % 60);
        text.push(':');
        push_two_digits(&mut text, seconds % 60);
        text.push(separator);
        push_three_digits(&mut text, millis);
        assert(text@ =~= held_timestamp(*self, nanos as int));
        proof {
            law_clear_times_are_held_clearly(*self, nanos as int);
        }
        text
    }

    /// Format a single caption block for the given utterance and cue number.
    ///
    /// Cue text is kept single-line internally; the two-line wrapping happens only here,
    /// at serialization, where a '\n' inside the text block simply becomes the cue's
    /// second line.
    pub fn format_caption_block(&self, utterance: &Utterance, cue: usize) -> (block: String)
        ensures
            block@ == caption_block(*self, utterance@, cue as int),
    {
        let mut block = String::new();
        match self {
            Self::Srt => {
                push_decimal(&mut block, cue as u128);
                block.push('\n');
            },
            Self::Vtt => {},
        }
        push_cue_body(&mut block, *self, utterance);
        block.push('\n');
        assert(block@ =~= caption_block(*self, utterance@, cue as int));
        block
    }

    /// Write the file format.
    ///
    /// An [`Utterance`] is a single caption block, and the cue number is automatically
    /// generated based on the order of the utterances in the slice. The file is appended
    /// to `out`.
    pub fn write_out(&self, captions: &[Utterance], out: &mut String)
        ensures
            final(out)@ == old(out)@ + subtitle_file(*self, speeches(captions@)),
    {
        let ghost before = out@;
        let ghost cues = speeches(captions@);
        match self {
            Self::Srt => {},
            Self::Vtt => {
                out.append("WEBVTT\n\n");
            },
        }
        assert(cues.take(0) =~= Seq::<Speech>::empty());
        assert(out@ =~= before + subtitle_file(*self, cues.take(0)));
        for i in 0..captions.len()
            invariant
                cues == speeches(captions@),
                out@ == before + subtitle_file(*self, cues.take(i as int)),
        {
            let block = self.format_caption_block(&captions[i], i + 1);
            out.append(block.as_str());
            assert(cues.take(i + 1).drop_last() =~= cues.take(i as int));
            assert(cues.take(i + 1).last() == captions@[i as int]@);
            assert(out@ =~= before + subtitle_file(*self, cues.take(i + 1)));
        }
        assert(cues.take(cues.len() as int) =~= cues);
    }
}

impl std::str::FromStr for SubtitleFormat {
    type Err = UnsupportedFormat;

    /// The format that `s` stands for, in whatever case it is written.
    fn from_str(s: &str) -> (format: Result<Self, Self::Err>)
        ensures
            match format {
                Ok(format) => format_of(lowered(s@)) == Some(format),
                Err(error) => format_of(lowered(s@)) is None && error.name@ == s@,
            },
    {
        SubtitleFormat::from_name(s)
    }
}

/// Format a timestamp in nanoseconds for an SRT file.
pub fn format_srt_timestamp(nanos: i64) -> (text: String)
    ensures
        text@ == timestamp(
            SubtitleFormat::Srt,
            if nanos < 0 {
                0
            } else {
                nanos as int
            },
        ),
{
    SubtitleFormat::Srt.format_timestamp(nanos)
}

/// The SRT file of some captions, its entries separated by blank lines.
pub fn srt_file(captions: &[Utterance]) -> (file: String)
    ensures
        file@ == srt_entries(speeches(captions@)),
{
    let mut file = String::new();
    let ghost cues = speeches(captions@);
    assert(cues.take(0) =~= Seq::<Speech>::empty());
    for i in 0..captions.len()
        invariant
            cues == speeches(captions@),
            file@ == srt_entries(cues.take(i as int)),
    {
        if i != 0 {
            file.push('\n');
        }
        push_decimal(&mut file, i as u128 + 1);
        file.push('\n');
        push_cue_body(&mut file, SubtitleFormat::Srt, &captions[i]);
        proof {
            let more = cues.take(i + 1);
            assert(more.drop_last() =~= cues.take(i as int));
            assert(more.last() == captions@[i as int]@);
            assert(file@ =~= srt_entries(more));
        }
    }
    assert(cues.take(cues.len() as int) =~= cues);
    file
}

/// The parts of a timestamp make up the time, to the millisecond: the hours, minutes and
/// seconds are exactly the whole seconds, minutes and seconds stay below sixty, and the
/// milliseconds are off by at most half a millisecond, or at the end of a second by less
/// than one.
pub proof fn law_timestamp_parts(nanos: int)
    requires
        nanos >= 0,
    ensures
        ({
            let unit = units_per_second(nanos);
            let seconds = held_time(nanos) / unit;
            let fraction = held_time(nanos) % unit;
            let millis = rounded_millis(fraction, unit);
            &&& seconds / 3600 * 3600 + seconds / 60 % 60 * 60 + seconds % 60 == seconds
            &&& 0 <= seconds / 60 % 60 < 60
            &&& 0 <= seconds % 60 < 60
            &&& 0 <= millis <= 999
            &&& 2 * (millis * unit - 1000 * fraction) <= unit
            &&& 1000 * fraction - millis * unit < unit
            &&& millis < 999 ==> 2 * (1000 * fraction - millis * unit) <= unit
        }),
{
    lemma_units(nanos);
    let unit = units_per_second(nanos);
    let seconds = held_time(nanos) / unit;
    assert(seconds / 3600 == seconds / 60 / 60);
    lemma_millis(held_time(nanos) % unit, unit);
}

/// How far off rounded milliseconds are.
proof fn lemma_millis(fraction: int, unit: int)
    requires
        0 <= fraction < unit,
    ensures
        0 <= rounded_millis(fraction, unit) <= 999,
        2 * (rounded_millis(fraction, unit) * unit - 1000 * fraction) <= unit,
        1000 * fraction - rounded_millis(fraction, unit) * unit < unit,
        rounded_millis(fraction, unit) < 999 ==> 2 * (1000 * fraction - rounded_millis(
            fraction,
            unit,
        ) * unit) <= unit,
{
    let n = nearest(1000 * fraction, unit);
    lemma_nearest(1000 * fraction, unit);
    assert(0 <= n <= 1000) by (nonlinear_arith)
        requires
            0 <= fraction < unit,
            2 * (n * unit - 1000 * fraction) <= unit,
            2 * (1000 * fraction - n * unit) <= unit,
    ;
    if n == 1000 {
        assert(1000 * unit == 999 * unit + unit);
    }
}

/// A time that is not too near to the middle between two milliseconds is written to the
/// nearest one, and one near the end of a second to the last one of that second. So a time
/// of whole milliseconds is written exactly.
pub proof fn law_nearest_millisecond_is_written(millis: int, off: int)
    requires
        0 <= millis,
        millis * 1_000_000 + off <= i64::MAX,
        -498_000 <= off,
        off <= if millis % 1000 == 999 {
            998_000
        } else {
            498_000int
        },
        millis % 1000 == 0 ==> off >= 0,
    ensures
        ({
            let nanos = millis * 1_000_000 + off;
            let unit = units_per_second(nanos);
            &&& held_time(nanos) / unit == millis / 1000
            &&& rounded_millis(held_time(nanos) % unit, unit) == millis % 1000
        }),
{
    let nanos = millis * 1_000_000 + off;
    let unit = units_per_second(nanos);
    let time = held_time(nanos);
    let s = millis / 1000;
    let r = millis % 1000;
    law_times_are_held_to_the_nearest_unit(nanos);
    lemma_units(nanos);
    if nanos == 0 {
        assert(time == 0);
        assert(0int / 1 == 0 && 0int % 1 == 0);
    } else {
        assert(unit > 480_000) by (nonlinear_arith)
            requires
                0 < nanos <= i64::MAX,
                nanos * unit >= FULL_PRECISION,
        ;
        let f = time - s * unit;
        assert(nanos * unit == 1_000_000_000 * (s * unit) + 1_000_000 * (r * unit) + off * unit)
            by (nonlinear_arith)
            requires
                nanos == 1_000_000 * (1000 * s + r) + off,
        ;
        let whole = r * unit;
        let part = off * unit;
        assert(2 * (1_000_000_000 * f - 1_000_000 * whole - part) <= 1_000_000_000);
        assert(2 * (1_000_000 * whole + part - 1_000_000_000 * f) <= 1_000_000_000);
        assert(-498_000 * unit <= part) by (nonlinear_arith)
            requires
                -498_000 <= off,
                part == off * unit,
                unit > 0,
        ;
        assert(part <= (if r == 999 {
            998_000
        } else {
            498_000int
        }) * unit) by (nonlinear_arith)
            requires
                off <= if r == 999 {
                    998_000
                } else {
                    498_000int
                },
                part == off * unit,
                unit > 0,
        ;
        assert(whole <= 999 * unit && (r >= 1 ==> whole >= unit)) by (nonlinear_arith)
            requires
                0 <= r <= 999,
                whole == r * unit,
                unit > 0,
        ;
        if r == 0 {
            assert(part >= 0) by (nonlinear_arith)
                requires
                    off >= 0,
                    part == off * unit,
                    unit > 0,
            ;
            assert(whole == 0);
        }
        assert(0 <= f < unit);
        assert(time == s * unit + f);
        vstd::arithmetic::div_mod::lemma_fundamental_div_mod_converse(time, unit, s, f);
        if r == 999 {
            assert(whole == 999 * unit);
            lemma_millis(f, unit);
            let shown = rounded_millis(f, unit);
            assert(shown == 999) by (nonlinear_arith)
                requires
                    shown <= 999,
                    2 * (1000 * f - 999 * unit) > -unit,
                    shown < 999 ==> 2 * (1000 * f - shown * unit) <= unit,
                    unit > 0,
            ;
        } else {
            lemma_nearest_is(1000 * f, unit, r);
        }
    }
}

/// The whole seconds and the nearest milliseconds of a time that lies `off` nanoseconds
/// after a millisecond.
proof fn lemma_exact_parts(millis: int, off: int)
    requires
        0 <= millis,
        -498_000 <= off,
        off <= if millis % 1000 == 999 {
            998_000
        } else {
            498_000int
        },
        millis % 1000 == 0 ==> off >= 0,
    ensures
        ({
            let nanos = millis * 1_000_000 + off;
            &&& nanos / SECOND as int == millis / 1000
            &&& rounded_millis(nanos % SECOND as int, SECOND as int) == millis % 1000
        }),
{
    let nanos = millis * 1_000_000 + off;
    let s = millis / 1000;
    let r = millis % 1000;
    let fraction = r * 1_000_000 + off;
    assert(nanos == s * 1_000_000_000 + fraction);
    assert(0 <= fraction < 1_000_000_000);
    assert(nanos / 1_000_000_000 == s && nanos % 1_000_000_000 == fraction);
    if r == 999 {
        lemma_millis(fraction, SECOND as int);
    } else {
        lemma_nearest_is(1000 * fraction, SECOND as int, r);
    }
}

/// Every time is written as a 64-bit floating-point number of seconds holds it, also where
/// the nearest millisecond is clear.
pub proof fn law_clear_times_are_held_clearly(format: SubtitleFormat, nanos: int)
    requires
        0 <= nanos <= i64::MAX,
    ensures
        timestamp(format, nanos) == held_timestamp(format, nanos),
{
    lemma_clear_parts(nanos);
}

/// The parts that a clear time is written with are those of the time as it is held.
proof fn lemma_clear_parts(nanos: int)
    requires
        0 <= nanos <= i64::MAX,
    ensures
        ({
            let unit = units_per_second(nanos);
            shown_parts(nanos) == (
                held_time(nanos) / unit,
                rounded_millis(held_time(nanos) % unit, unit),
            )
        }),
{
    if is_clear(nanos) {
        let below = nanos / 1_000_000;
        let rest = nanos % 1_000_000;
        assert(below % 1000 == 999 ==> rest <= 998_000);
        if rest <= 498_000 || below % 1000 == 999 {
            assert(nanos == below * 1_000_000 + rest);
            lemma_exact_parts(below, rest);
            law_nearest_millisecond_is_written(below, rest);
        } else {
            assert(nanos == (below + 1) * 1_000_000 + (rest - 1_000_000));
            lemma_exact_parts(below + 1, rest - 1_000_000);
            law_nearest_millisecond_is_written(below + 1, rest - 1_000_000);
        }
    }
}

/// The whole seconds and the milliseconds that a time is written with.
pub open spec fn shown_parts(nanos: int) -> (int, int) {
    if is_clear(nanos) {
        (nanos / SECOND as int, rounded_millis(nanos % SECOND as int, SECOND as int))
    } else {
        let unit = units_per_second(nanos);
        (held_time(nanos) / unit, rounded_millis(held_time(nanos) % unit, unit))
    }
}

/// The parts that a time is written with, from its ticks.
proof fn lemma_parts_of_ticks(nanos: int)
    requires
        0 <= nanos <= i64::MAX,
    ensures
        shown_parts(nanos) == (
            time_ticks(nanos) / TICKS_PER_SECOND as int,
            rounded_millis(time_ticks(nanos) % TICKS_PER_SECOND as int, TICKS_PER_SECOND as int),
        ),
{
    lemma_clear_parts(nanos);
    let unit = units_per_second(nanos);
    let held = held_time(nanos);
    let q = lemma_ticks_per_unit(nanos);
    lemma_scaled(held, unit, q);
    lemma_scaled(1000 * (held % unit), unit, q);
    assert(1000 * ((held % unit) * q) == (1000 * (held % unit)) * q) by (nonlinear_arith);
}

/// Timestamps keep order: a later time is never written as an earlier one.
pub proof fn law_timestamps_keep_order(x: int, y: int)
    requires
        0 <= x <= y <= i64::MAX,
    ensures
        ({
            let (x_seconds, x_millis) = shown_parts(x);
            let (y_seconds, y_millis) = shown_parts(y);
            x_seconds < y_seconds || (x_seconds == y_seconds && x_millis <= y_millis)
        }),
        forall|format: SubtitleFormat| #[trigger]
            timestamp(format, x) == timestamp_parts(format, shown_parts(x).0, shown_parts(x).1),
{
    let a = time_ticks(x);
    let b = time_ticks(y);
    let unit = TICKS_PER_SECOND as int;
    lemma_parts_of_ticks(x);
    lemma_parts_of_ticks(y);
    law_held_times_keep_order(x, y);
    vstd::arithmetic::div_mod::lemma_div_is_ordered(a, b, unit);
    vstd::arithmetic::div_mod::lemma_fundamental_div_mod(a, unit);
    vstd::arithmetic::div_mod::lemma_fundamental_div_mod(b, unit);
    if a / unit == b / unit {
        law_millis_keep_order(a % unit, b % unit, unit);
    }
}

/// Within a second, a later time is never written with fewer milliseconds.
pub proof fn law_millis_keep_order(a: int, b: int, unit: int)
    requires
        0 <= a <= b < unit,
    ensures
        rounded_millis(a, unit) <= rounded_millis(b, unit),
{
    lemma_nearest_ordered(1000 * a, 1000 * b, unit);
}

/// The two ways to write an SRT file differ by the blank line after the last entry alone.
pub proof fn law_srt_files_agree(cues: Seq<Speech>)
    ensures
        cues.len() == 0 ==> subtitle_file(SubtitleFormat::Srt, cues) == srt_entries(cues),
        cues.len() > 0 ==> subtitle_file(SubtitleFormat::Srt, cues) == srt_entries(cues).push('\n'),
    decreases cues.len(),
{
    if cues.len() > 0 {
        law_srt_files_agree(cues.drop_last());
        assert(subtitle_file(SubtitleFormat::Srt, cues) =~= srt_entries(cues).push('\n'));
    }
}

/// Whether `text` is `lower` in any mix of upper and lower case.
pub open spec fn is_case_mix(text: Seq<char>, lower: Seq<char>) -> bool {
    &&& text.len() == lower.len()
    &&& forall|k: int|
        0 <= k < text.len() ==> #[trigger] text[k] == lower[k] || text[k] == ascii_upper(lower[k])
}

/// The extension of a format, in any mix of upper and lower case, names the format.
pub proof fn law_extension_names_format(format: SubtitleFormat, name: Seq<char>)
    requires
        is_case_mix(name, extension_of(format)),
    ensures
        format_of(lowered(name)) == Some(format),
{
    let extension = extension_of(format);
    reveal_strlit("srt");
    reveal_strlit("vtt");
    assert("srt"@[0] != "vtt"@[0]);
    assert forall|k: int| 0 <= k < name.len() implies is_ascii_char(#[trigger] name[k])
        && ascii_lower(name[k]) == extension[k] by {
        assert('a' <= extension[k] <= 'z');
    }
    assert(ascii_lowered(name) =~= extension);
}

/// The text of a timestamp says what it is made of: after `h` digits for the hours, two at
/// least, come two digits for the minutes and two for the seconds, both less than sixty, each
/// after a colon, and then three digits for the milliseconds, after a comma in an SRT file
/// and after a dot in a VTT file. Read as numbers, they are the time.
pub proof fn law_timestamps_are_read_back(
    format: SubtitleFormat,
    seconds: int,
    millis: int,
) -> (h: int)
    requires
        seconds >= 0,
        0 <= millis <= 999,
    ensures
        ({
            let text = timestamp_parts(format, seconds, millis);
            let hours = read_decimal(text.take(h));
            let minutes = read_decimal(text.subrange(h + 1, h + 3));
            let rest = read_decimal(text.subrange(h + 4, h + 6));
            &&& text.len() == h + 10
            &&& h >= 2
            &&& h > 2 ==> text[0] != '0'
            &&& text[h] == ':'
            &&& text[h + 3] == ':'
            &&& format is Srt ==> text[h + 6] == ','
            &&& format is Vtt ==> text[h + 6] == '.'
            &&& hours * 3600 + minutes * 60 + rest == seconds
            &&& 0 <= minutes < 60
            &&& 0 <= rest < 60
            &&& read_decimal(text.skip(h + 7)) == millis
        }),
{
    let hours = zero_padded(seconds / 3600, 2);
    let minutes = zero_padded(seconds / 60 % 60, 2);
    let rest = zero_padded(seconds % 60, 2);
    let thousandths = zero_padded(millis, 3);
    law_padded_numbers_are_read_back(seconds / 3600, 2);
    law_padded_numbers_are_read_back(seconds / 60 % 60, 2);
    law_padded_numbers_are_read_back(seconds % 60, 2);
    law_padded_numbers_are_read_back(millis, 3);
    let h = hours.len() as int;
    let text = timestamp_parts(format, seconds, millis);
    assert(text.take(h) =~= hours);
    assert(text.subrange(h + 1, h + 3) =~= minutes);
    assert(text.subrange(h + 4, h + 6) =~= rest);
    assert(text.skip(h + 7) =~= thousandths);
    assert(seconds / 3600 == seconds / 60 / 60);
    if h > 2 {
        assert(text[0] == hours[0]);
        if seconds / 3600 == 0 {
            assert(zero_padded(0, 2).len() == 2);
        }
    }
    h
}

/// A time is written to the nearest millisecond, but never as the next full second: what is
/// written is at most half a millisecond off, or one at the end of a second, and two
/// microseconds more where that is a close call. Its whole seconds are exact but for a close
/// call at the end of a second.
pub proof fn law_written_times_are_near(format: SubtitleFormat, nanos: int) -> (parts: (int, int))
    requires
        0 <= nanos <= i64::MAX,
    ensures
        ({
            let (seconds, millis) = parts;
            let late = nanos - 1_000_000 * (1000 * seconds + millis);
            &&& timestamp(format, nanos) == timestamp_parts(format, seconds, millis)
            &&& seconds >= 0
            &&& 0 <= millis <= 999
            &&& -502_000 <= late < 1_002_000
            &&& millis < 999 ==> late <= 502_000
            &&& nanos % 1_000_000_000 < 999_998_000 && !(498_000 < nanos % 1_000_000 < 502_000)
                ==> seconds == nanos / 1_000_000_000 && -500_000 <= late < 1_000_000 && (millis
                < 999 ==> late <= 500_000)
        }),
{
    let (seconds, millis) = shown_parts(nanos);
    law_timestamps_keep_order(nanos, nanos);
    lemma_held_parts_are_near(nanos);
    lemma_clear_parts(nanos);
    if is_clear(nanos) {
        lemma_millis(nanos % 1_000_000_000, 1_000_000_000);
    }
    (seconds, millis)
}

/// How far off the parts of a time are as it is held.
proof fn lemma_held_parts_are_near(nanos: int)
    requires
        0 <= nanos <= i64::MAX,
    ensures
        ({
            let unit = units_per_second(nanos);
            let seconds = held_time(nanos) / unit;
            let millis = rounded_millis(held_time(nanos) % unit, unit);
            let late = nanos - 1_000_000 * (1000 * seconds + millis);
            &&& seconds >= 0
            &&& 0 <= millis <= 999
            &&& -502_000 <= late < 1_002_000
            &&& millis < 999 ==> late <= 502_000
        }),
{
    let unit = units_per_second(nanos);
    let held = held_time(nanos);
    let seconds = held / unit;
    let fraction = held % unit;
    let millis = rounded_millis(fraction, unit);
    let late = nanos - 1_000_000 * (1000 * seconds + millis);
    law_times_are_held_to_the_nearest_unit(nanos);
    lemma_units(nanos);
    lemma_millis(fraction, unit);
    vstd::arithmetic::div_mod::lemma_fundamental_div_mod(held, unit);
    if nanos == 0 {
        assert(0 * unit == 0);
        lemma_nearest_is(0, SECOND as int, 0);
        assert(held == 0);
        assert(0int / 1 == 0 && 0int % 1 == 0);
        lemma_nearest_is(0, 1, 0);
    } else {
        assert(unit > 480_000) by (nonlinear_arith)
            requires
                0 < nanos <= i64::MAX,
                nanos * unit >= FULL_PRECISION,
        ;
        let whole = seconds * unit;
        let part = millis * unit;
        assert(held == whole + fraction) by (nonlinear_arith)
            requires
                held == unit * seconds + fraction,
                whole == seconds * unit,
        ;
        assert(held >= 0) by (nonlinear_arith)
            requires
                2 * (nanos * unit - held * 1_000_000_000) <= 1_000_000_000,
                nanos > 0,
                nanos * unit >= FULL_PRECISION,
        ;
        assert(seconds >= 0) by (nonlinear_arith)
            requires
                held == unit * seconds + fraction,
                fraction < unit,
                held >= 0,
                unit > 0,
        ;
        let off = late * unit;
        assert(off == nanos * unit - 1_000_000_000 * whole - 1_000_000 * part) by (nonlinear_arith)
            requires
                late == nanos - 1_000_000 * (1000 * seconds + millis),
                off == late * unit,
                whole == seconds * unit,
                part == millis * unit,
        ;
        let close = nanos * unit - held * 1_000_000_000;
        assert(off == close + 1_000_000 * (1000 * fraction - part));
        assert(off >= -500_000 * unit - 500_000_000);
        assert(off < 1_000_000 * unit + 500_000_000);
        assert(-502_000 <= late < 1_002_000) by (nonlinear_arith)
            requires
                off == late * unit,
                off >= -500_000 * unit - 500_000_000,
                off < 1_000_000 * unit + 500_000_000,
                unit > 480_000,
        ;
        if millis < 999 {
            assert(off <= 500_000 * unit + 500_000_000);
            assert(late <= 502_000) by (nonlinear_arith)
                requires
                    off == late * unit,
                    off <= 500_000 * unit + 500_000_000,
                    unit > 480_000,
            ;
        }
    }
}

/// A subtitle file grows by one block for each cue. A block of an SRT file is the number of
/// the cue, counted from 1, on a line of its own, and then as in a VTT file the times on a
/// line, the text and an empty line. Only a VTT file begins with a header.
pub proof fn law_files_grow_by_blocks(format: SubtitleFormat, cues: Seq<Speech>, cue: Speech)
    ensures
        subtitle_file(SubtitleFormat::Srt, Seq::empty()) == Seq::<char>::empty(),
        subtitle_file(SubtitleFormat::Vtt, Seq::empty()) == "WEBVTT\n\n"@,
        ({
            let number = if format is Srt {
                decimal(cues.len() as int + 1) + seq!['\n']
            } else {
                Seq::empty()
            };
            let start = timestamp(format, if cue.start < 0 {
                0
            } else {
                cue.start
            });
            let end = timestamp(format, if cue.end < 0 {
                0
            } else {
                cue.end
            });
            subtitle_file(format, cues.push(cue)) == subtitle_file(format, cues) + number + start
                + seq![' ', '-', '-', '>', ' '] + end + seq!['\n'] + balanced(cue.text) + seq![
                '\n',
                '\n',
            ]
        }),
{
    reveal_strlit(" --> ");
    let arrow = seq![' ', '-', '-', '>', ' '];
    assert(" --> "@ =~= arrow);
    assert(cues.push(cue).drop_last() =~= cues);
    assert(subtitle_file(SubtitleFormat::Srt, Seq::empty()) =~= Seq::<char>::empty());
    assert(subtitle_file(SubtitleFormat::Vtt, Seq::empty()) =~= "WEBVTT\n\n"@);
    let number = if format is Srt {
        decimal(cues.len() as int + 1) + seq!['\n']
    } else {
        Seq::empty()
    };
    lemma_block(
        file_header(format),
        caption_blocks(format, cues),
        number,
        timestamp(format, written_time(cue.start)),
        arrow,
        timestamp(format, written_time(cue.end)),
        balanced(cue.text),
    );
    let body = cue_body(format, cue);
    assert(caption_block(format, cue, cues.len() as int + 1) == number + body + seq!['\n']) by {
        assert(Seq::<char>::empty() + body =~= body);
    }
}

/// The parts of a block, put together one by one.
proof fn lemma_block(
    header: Seq<char>,
    blocks: Seq<char>,
    number: Seq<char>,
    start: Seq<char>,
    arrow: Seq<char>,
    end: Seq<char>,
    text: Seq<char>,
)
    ensures
        header + (blocks + (number + (start + arrow + end + seq!['\n'] + text + seq!['\n']) + seq![
            '\n',
        ])) == header + blocks + number + start + arrow + end + seq!['\n'] + text + seq![
            '\n',
            '\n',
        ],
{
    let line = start + arrow + end;
    let tail = seq!['\n'] + text + seq!['\n', '\n'];
    assert(line + seq!['\n'] + text + seq!['\n'] + seq!['\n'] =~= line + tail);
    assert(number + (line + seq!['\n'] + text + seq!['\n']) + seq!['\n'] =~= number + (line + seq![
        '\n',
    ] + text + seq!['\n'] + seq!['\n']));
    let file = header + blocks + number;
    assert(header + (blocks + (number + (line + tail))) =~= file + line + tail);
    assert(file + line =~= file + start + arrow + end);
    assert(file + line + tail =~= file + line + seq!['\n'] + text + seq!['\n', '\n']);
}

/// A name stands for a format exactly if its lowercase letters are `s`, `r` and `t`, or `v`,
/// `t` and `t`, which are the extension of the format too.
pub proof fn law_format_names(name: Seq<char>)
    ensures
        format_of(lowered(name)) == Some(SubtitleFormat::Srt) <==> lowered(name) == seq![
            's',
            'r',
            't',
        ],
        format_of(lowered(name)) == Some(SubtitleFormat::Vtt) <==> lowered(name) == seq![
            'v',
            't',
            't',
        ],
        extension_of(SubtitleFormat::Srt) == seq!['s', 'r', 't'],
        extension_of(SubtitleFormat::Vtt) == seq!['v', 't', 't'],
{
    reveal_strlit("srt");
    reveal_strlit("vtt");
    assert("srt"@ =~= seq!['s', 'r', 't']);
    assert("vtt"@ =~= seq!['v', 't', 't']);
    assert("srt"@[0] != "vtt"@[0]);
}

/// Close calls follow floating point: a time is written with the whole seconds of the 64-bit
/// floating-point number of seconds that is nearest to it, and with the milliseconds that are
/// nearest to its fraction, of two equally near ones the even one, but never a full second.
/// A second has 2^82 ticks.
pub proof fn law_close_calls_follow_floating_point(
    format: SubtitleFormat,
    nanos: int,
) -> (parts: (int, int))
    requires
        0 <= nanos <= i64::MAX,
    ensures
        ({
            let (seconds, millis) = parts;
            let second: int = 4_835_703_278_458_516_698_824_704;
            let fraction = time_ticks(nanos) - second * seconds;
            let over = 1000 * fraction - second * millis;
            &&& timestamp(format, nanos) == timestamp_parts(format, seconds, millis)
            &&& 0 <= fraction < second
            &&& 0 <= millis <= 999
            &&& -second <= 2 * over
            &&& millis < 999 ==> 2 * over <= second
            &&& 2 * over == second || 2 * over == -second ==> millis % 2 == 0 || millis == 999
        }),
{
    let parts = shown_parts(nanos);
    let unit = TICKS_PER_SECOND as int;
    let ticks = time_ticks(nanos);
    law_timestamps_keep_order(nanos, nanos);
    lemma_parts_of_ticks(nanos);
    vstd::arithmetic::div_mod::lemma_fundamental_div_mod(ticks, unit);
    let fraction = ticks % unit;
    lemma_millis(fraction, unit);
    let a = 1000 * fraction;
    vstd::arithmetic::div_mod::lemma_fundamental_div_mod(a, unit);
    parts
}

} // verus!
