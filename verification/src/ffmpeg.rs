//! The arguments that make ffmpeg emit the raw samples of a segment's audio.
//!
//! The model wants 16 kHz mono samples, so ffmpeg does the resampling and downmixing and
//! emits raw samples; no container is needed, since the sample format is known on both
//! sides of the pipe. The audio is re-encoded, not copied: only that allows extracting
//! exact times.

use vstd::prelude::*;

use crate::stitch::SegmentPlan;
use crate::text::{
    decimal, digit_char, law_decimals_are_read_back, push_decimal, read_decimal,
};
use crate::utterance::views;

verus! {

/// The digits of a fraction, `unit` being the worth of the first of them, up to the last
/// one that is not zero.
pub open spec fn fraction_digits(fraction: int, unit: int) -> Seq<char>
    decreases unit,
{
    if fraction <= 0 || unit <= 0 {
        Seq::empty()
    } else {
        seq![digit_char(fraction / unit)] + fraction_digits(fraction % unit, unit / 10)
    }
}

/// A time in nanoseconds as decimal seconds, with no more digits than it takes.
pub open spec fn seconds_text(nanos: int) -> Seq<char> {
    let fraction = nanos % 1_000_000_000;
    decimal(nanos / 1_000_000_000) + (if fraction == 0 {
        Seq::empty()
    } else {
        seq!['.'] + fraction_digits(fraction, 100_000_000)
    })
}

/// A time in nanoseconds as decimal seconds.
pub fn format_seconds(nanos: u128) -> (text: String)
    ensures
        text@ == seconds_text(nanos as int),
{
    let mut text = String::new();
    push_decimal(&mut text, nanos / 1_000_000_000);
    let whole: u128 = nanos % 1_000_000_000;
    let mut fraction: u128 = whole;
    if fraction != 0 {
        text.push('.');
        let mut unit: u128 = 100_000_000;
        let ghost before = text@;
        let ghost goal = before + fraction_digits(whole as int, 100_000_000);
        while fraction != 0 && unit != 0
            invariant
                goal == text@ + fraction_digits(fraction as int, unit as int),
                unit == 0 ==> fraction == 0,
                fraction < 10 * unit || fraction == 0,
                unit <= 100_000_000,
                unit == 100_000_000 || unit == 10_000_000 || unit == 1_000_000 || unit == 100_000
                    || unit == 10_000 || unit == 1_000 || unit == 100 || unit == 10 || unit == 1
                    || unit == 0,
            decreases unit,
        {
            let ghost so_far = text@;
            let ghost rest = fraction_digits((fraction % unit) as int, (unit / 10) as int);
            let digit: u8 = (fraction / unit) as u8;
            assert(fraction / unit < 10) by (nonlinear_arith)
                requires
                    fraction < 10 * unit,
                    unit > 0,
            ;
            text.push((48u8 + digit) as char);
            assert(fraction_digits(fraction as int, unit as int) == seq![
                digit_char(fraction as int / unit as int),
            ] + rest);
            assert(goal =~= text@ + rest);
            fraction = fraction % unit;
            unit = unit / 10;
        }
        assert(text@ =~= goal);
        assert(text@ =~= seconds_text(nanos as int));
    } else {
        assert(text@ =~= seconds_text(nanos as int));
    }
    text
}

/// What comes before the path of the video.
pub open spec fn input_args(start: int) -> Seq<Seq<char>> {
    seq!["-ss"@, seconds_text(start), "-i"@]
}

/// The sample format, and what keeps ffmpeg quiet.
pub open spec fn format_args() -> Seq<Seq<char>> {
    seq![
        "-vn"@,
        "-ac"@,
        "1"@,
        "-ar"@,
        "16000"@,
        "-c:a"@,
        "pcm_f32le"@,
        "-f"@,
        "f32le"@,
        "-nostdin"@,
        "-hide_banner"@,
        "-loglevel"@,
        "error"@,
    ]
}

/// The padding of the first segment for the audio start delay, in whole milliseconds, if
/// there is any delay. `all=1` delays every channel: the downmix would otherwise blend the
/// first channel with the undelayed others.
pub open spec fn delay_args(index: int, delay: int) -> Seq<Seq<char>> {
    if delay != 0 && index == 0 {
        seq!["-af"@, "adelay="@ + decimal(delay / 1_000_000) + ":all=1"@]
    } else {
        Seq::empty()
    }
}

/// How much to extract, if it is limited.
pub open spec fn limit_args(limit: Option<u128>) -> Seq<Seq<char>> {
    match limit {
        Some(limit) => seq!["-t"@, seconds_text(limit as int)],
        None => Seq::empty(),
    }
}

/// What comes after the path of the video.
pub open spec fn output_args(plan: SegmentPlan, delay: int) -> Seq<Seq<char>> {
    format_args() + delay_args(plan.index as int, delay) + limit_args(plan.limit) + seq!["-"@]
}

/// Appends an argument.
fn push_arg(args: &mut Vec<String>, arg: &str)
    ensures
        views(final(args)@) == views(old(args)@).push(arg@),
{
    let ghost before = args@;
    args.push(arg.to_owned());
    assert(views(args@) =~= views(before).push(arg@));
}

/// The arguments before the path of the video.
pub fn args_before_path(plan: &SegmentPlan) -> (args: Vec<String>)
    ensures
        views(args@) == input_args(plan.start as int),
{
    let mut args: Vec<String> = Vec::new();
    assert(views(args@) =~= Seq::<Seq<char>>::empty());
    push_arg(&mut args, "-ss");
    let start = format_seconds(plan.start);
    push_arg(&mut args, start.as_str());
    push_arg(&mut args, "-i");
    assert(views(args@) =~= input_args(plan.start as int));
    args
}

/// The arguments after the path of the video, whose audio starts `delay` nanoseconds late.
pub fn args_after_path(plan: &SegmentPlan, delay: u128) -> (args: Vec<String>)
    ensures
        views(args@) == output_args(*plan, delay as int),
{
    let mut args: Vec<String> = Vec::new();
    assert(views(args@) =~= Seq::<Seq<char>>::empty());
    push_arg(&mut args, "-vn");
    push_arg(&mut args, "-ac");
    push_arg(&mut args, "1");
    push_arg(&mut args, "-ar");
    push_arg(&mut args, "16000");
    push_arg(&mut args, "-c:a");
    push_arg(&mut args, "pcm_f32le");
    push_arg(&mut args, "-f");
    push_arg(&mut args, "f32le");
    push_arg(&mut args, "-nostdin");
    push_arg(&mut args, "-hide_banner");
    push_arg(&mut args, "-loglevel");
    push_arg(&mut args, "error");
    assert(views(args@) =~= format_args());
    if delay != 0 && plan.index == 0 {
        push_arg(&mut args, "-af");
        let mut filter = "adelay=".to_owned();
        push_decimal(&mut filter, delay / 1_000_000);
        filter.append(":all=1");
        push_arg(&mut args, filter.as_str());
    }
    assert(views(args@) =~= format_args() + delay_args(plan.index as int, delay as int));
    if let Some(limit) = plan.limit {
        push_arg(&mut args, "-t");
        let limit = format_seconds(limit);
        push_arg(&mut args, limit.as_str());
    }
    assert(views(args@) =~= format_args() + delay_args(plan.index as int, delay as int)
        + limit_args(plan.limit));
    push_arg(&mut args, "-");
    assert(views(args@) =~= output_args(*plan, delay as int));
    args
}

/// Ten to the power of `count`.
spec fn power_of_ten(count: nat) -> int
    decreases count,
{
    if count == 0 {
        1
    } else {
        10 * power_of_ten((count - 1) as nat)
    }
}

/// What digits stand for, from the first of them and the others.
proof fn lemma_first_digit(digits: Seq<char>)
    requires
        digits.len() > 0,
    ensures
        read_decimal(digits) == (digits[0] as int - 48) * power_of_ten((digits.len() - 1) as nat)
            + read_decimal(digits.drop_first()),
    decreases digits.len(),
{
    reveal_with_fuel(read_decimal, 2);
    if digits.len() == 1 {
        assert(digits.drop_last() =~= Seq::<char>::empty());
        assert(digits.drop_first() =~= Seq::<char>::empty());
        assert((digits[0] as int - 48) * 1 == digits[0] as int - 48);
    } else {
        let rest = digits.drop_last();
        lemma_first_digit(rest);
        assert(rest.drop_first() =~= digits.drop_first().drop_last());
        let first = digits[0] as int - 48;
        let scale = power_of_ten((digits.len() - 2) as nat);
        assert(10 * (first * scale) == first * (10 * scale)) by (nonlinear_arith);
    }
}

/// Zeros stand for nothing.
proof fn lemma_zeros(count: nat)
    ensures
        read_decimal(Seq::new(count, |i: int| '0')) == 0,
    decreases count,
{
    if count > 0 {
        let fewer = (count - 1) as nat;
        lemma_zeros(fewer);
        assert(Seq::new(count, |i: int| '0').drop_last() =~= Seq::new(fewer, |i: int| '0'));
    }
}

/// The digits of a fraction of `count` places, filled up with zeros, are the fraction.
proof fn lemma_fraction(fraction: int, count: nat)
    requires
        count > 0,
        0 < fraction < power_of_ten(count),
    ensures
        ({
            let digits = fraction_digits(fraction, power_of_ten((count - 1) as nat));
            &&& 0 < digits.len() <= count
            &&& digits.last() != '0'
            &&& forall|k: int| 0 <= k < digits.len() ==> '0' <= #[trigger] digits[k] <= '9'
            &&& read_decimal(
                digits + Seq::new((count - digits.len()) as nat, |i: int| '0'),
            ) == fraction
        }),
    decreases count,
{
    let fewer = (count - 1) as nat;
    let unit = power_of_ten(fewer);
    lemma_power_positive(fewer);
    let first = fraction / unit;
    let rest = fraction % unit;
    vstd::arithmetic::div_mod::lemma_fundamental_div_mod(fraction, unit);
    assert(0 <= first <= 9) by (nonlinear_arith)
        requires
            fraction == unit * first + rest,
            0 <= rest < unit,
            0 < fraction < 10 * unit,
    ;
    assert(first * unit == unit * first) by (nonlinear_arith);
    let digits = fraction_digits(fraction, unit);
    let more = fraction_digits(rest, unit / 10);
    assert(digits == seq![digit_char(first)] + more);
    let filled = digits + Seq::new((count - digits.len()) as nat, |i: int| '0');
    if rest == 0 {
        assert(more =~= Seq::<char>::empty());
        assert(digits.len() == 1);
        assert(filled.drop_first() =~= Seq::new(fewer, |i: int| '0'));
        lemma_zeros(fewer);
        lemma_first_digit(filled);
        assert(first != 0) by (nonlinear_arith)
            requires
                fraction == unit * first + rest,
                rest == 0,
                fraction > 0,
        ;
    } else {
        assert(fewer > 0);
        lemma_fraction(rest, fewer);
        assert(unit / 10 == power_of_ten((fewer - 1) as nat));
        assert(filled.drop_first() =~= more + Seq::new((fewer - more.len()) as nat, |i: int| '0'));
        lemma_first_digit(filled);
        assert(digits.last() == more.last());
        assert forall|k: int| 0 <= k < digits.len() implies '0' <= #[trigger] digits[k]
            <= '9' by {
            if k > 0 {
                assert(digits[k] == more[k - 1]);
            }
        }
    }
}

proof fn lemma_power_positive(count: nat)
    ensures
        power_of_ten(count) > 0,
    decreases count,
{
    if count > 0 {
        lemma_power_positive((count - 1) as nat);
    }
}

/// A time as decimal seconds is read back exactly: it begins with `h` digits for the whole
/// seconds. If it has a fraction, a dot and up to nine digits follow, the last of which is
/// not zero, and filled up with zeros to nine they are its nanoseconds.
pub proof fn law_seconds_are_read_back(nanos: int) -> (h: int)
    requires
        nanos >= 0,
    ensures
        ({
            let text = seconds_text(nanos);
            let digits = text.len() - h - 1;
            &&& 0 < h <= text.len()
            &&& read_decimal(text.take(h)) == nanos / 1_000_000_000
            &&& nanos % 1_000_000_000 == 0 ==> text.len() == h
            &&& nanos % 1_000_000_000 != 0 ==> {
                &&& text.len() > h + 1
                &&& text[h] == '.'
                &&& digits <= 9
                &&& text.last() != '0'
                &&& read_decimal(
                    text.skip(h + 1) + Seq::new((9 - digits) as nat, |i: int| '0'),
                ) == nanos % 1_000_000_000
            }
        }),
{
    let whole = decimal(nanos / 1_000_000_000);
    let fraction = nanos % 1_000_000_000;
    law_decimals_are_read_back(nanos / 1_000_000_000);
    let h = whole.len() as int;
    let text = seconds_text(nanos);
    assert(text.take(h) =~= whole);
    if fraction != 0 {
        reveal_with_fuel(power_of_ten, 10);
        assert(power_of_ten(9) == 1_000_000_000);
        assert(power_of_ten(8) == 100_000_000);
        lemma_fraction(fraction, 9);
        let digits = fraction_digits(fraction, 100_000_000);
        assert(text.skip(h + 1) =~= digits);
    }
    h
}

/// What ffmpeg is told: to seek to the start of the segment before it opens the file, to
/// leave out the video, to emit one channel of 16000 little-endian 32-bit samples a second,
/// to pad the first segment for the audio start delay, counted in milliseconds, to extract
/// as much as the segment may have if it is limited, and to write to its standard output.
pub proof fn law_extraction_arguments(plan: SegmentPlan, delay: int)
    ensures
        input_args(plan.start as int) == seq!["-ss"@, seconds_text(plan.start as int), "-i"@],
        ({
            let args = output_args(plan, delay);
            let n = args.len() as int;
            let padded = plan.index == 0 && delay != 0;
            &&& args.take(13) == seq![
                "-vn"@,
                "-ac"@,
                "1"@,
                "-ar"@,
                "16000"@,
                "-c:a"@,
                "pcm_f32le"@,
                "-f"@,
                "f32le"@,
                "-nostdin"@,
                "-hide_banner"@,
                "-loglevel"@,
                "error"@,
            ]
            &&& args[n - 1] == "-"@
            &&& n == 14 + (if padded {
                2int
            } else {
                0
            }) + (if plan.limit is Some {
                2int
            } else {
                0
            })
            &&& padded ==> args[13] == "-af"@ && args[14] == "adelay="@ + decimal(delay / 1_000_000)
                + ":all=1"@
            &&& plan.limit matches Some(limit) ==> args[n - 3] == "-t"@ && args[n - 2]
                == seconds_text(limit as int)
        }),
{
    let args = output_args(plan, delay);
    assert(args.take(13) =~= format_args());
}

} // verus!
