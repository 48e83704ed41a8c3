//! What the user is told while a video is transcribed.

use vstd::prelude::*;

use crate::stitch::{Ending, PrevSegment, SegmentPlan};
use crate::text::{decimal, push_decimal};

verus! {

/// What is being done with a segment.
#[derive(Clone, Copy, Debug, PartialEq, Eq, Structural)]
pub enum Activity {
    Extracting,
    Transcribing,
}

/// How many segments a video is estimated to have: those before, and as many as it takes
/// to cover what remains, at least one, and at most as many as 64 bits can count.
pub open spec fn estimated_total(index: int, remaining: int, segment_length: int) -> int {
    let needed = (remaining + segment_length - 1) / segment_length;
    index + if needed < 1 {
        1
    } else if needed > u64::MAX {
        u64::MAX as int
    } else {
        needed
    }
}

/// The number of segments as it is shown: exact on the last segment, and otherwise an
/// estimate, since split-point slippage can add segments.
pub open spec fn total_text(
    index: int,
    is_last: bool,
    remaining: int,
    segment_length: int,
) -> Seq<char> {
    if is_last {
        decimal(index + 1)
    } else {
        seq!['~'] + decimal(estimated_total(index, remaining, segment_length))
    }
}

/// The title of a video's progress: its name, which segment it is at, and of how many.
pub open spec fn progress_text(
    name: Seq<char>,
    index: int,
    is_last: bool,
    remaining: int,
    segment_length: int,
) -> Seq<char> {
    name + " ["@ + decimal(index + 1) + "/"@ + total_text(index, is_last, remaining, segment_length)
        + "]"@
}

/// What is being done with a segment, and after what it comes.
pub open spec fn activity_text(activity: Activity, only: bool, prev: Option<Ending>) -> Seq<char> {
    match activity {
        Activity::Extracting => if only {
            "extracting audio"@
        } else {
            match prev {
                Some(Ending::Phrase(phrase)) => "extracting audio segment after '"@ + phrase + "'"@,
                Some(Ending::Silence) => "extracting audio segment after a silent stretch"@,
                None => "extracting initial audio segment"@,
            }
        },
        Activity::Transcribing => if only {
            "transcribing"@
        } else {
            match prev {
                Some(Ending::Phrase(phrase)) => "transcribing segment after '"@ + phrase + "'"@,
                Some(Ending::Silence) => "transcribing segment after a silent stretch"@,
                None => "transcribing initial segment"@,
            }
        },
    }
}

/// The title of a video's progress. `remaining` is how much audio is left, and
/// `segment_length` how long a segment may be, in nanoseconds.
pub fn progress_title(
    name: &str,
    plan: &SegmentPlan,
    remaining: u128,
    segment_length: u128,
) -> (title: String)
    requires
        segment_length > 0,
    ensures
        title@ == progress_text(
            name@,
            plan.index as int,
            plan.is_last,
            remaining as int,
            segment_length as int,
        ),
{
    let mut title = name.to_owned();
    title.append(" [");
    push_decimal(&mut title, plan.index as u128 + 1);
    title.append("/");
    if plan.is_last {
        push_decimal(&mut title, plan.index as u128 + 1);
    } else {
        title.push('~');
        let mut needed: u128 = remaining / segment_length;
        proof {
            lemma_rounded_up(remaining as int, segment_length as int);
        }
        if needed < u64::MAX as u128 && remaining % segment_length != 0 {
            needed = needed + 1;
        }
        if needed < 1 {
            needed = 1;
        }
        if needed > u64::MAX as u128 {
            needed = u64::MAX as u128;
        }
        push_decimal(&mut title, plan.index as u128 + needed);
    }
    title.append("]");
    assert(title@ =~= progress_text(
        name@,
        plan.index as int,
        plan.is_last,
        remaining as int,
        segment_length as int,
    ));
    title
}

/// Rounding a quotient up.
proof fn lemma_rounded_up(a: int, b: int)
    requires
        a >= 0,
        b > 0,
    ensures
        (a + b - 1) / b == (if a % b == 0 {
            a / b
        } else {
            a / b + 1
        }),
{
    let q = a / b;
    let r = a % b;
    vstd::arithmetic::div_mod::lemma_fundamental_div_mod(a, b);
    if r == 0 {
        vstd::arithmetic::div_mod::lemma_fundamental_div_mod_converse(a + b - 1, b, q, b - 1);
    } else {
        assert(b * (q + 1) == b * q + b) by (nonlinear_arith);
        vstd::arithmetic::div_mod::lemma_fundamental_div_mod_converse(a + b - 1, b, q + 1, r - 1);
    }
}

/// What is being done with a segment. `only` says that the video has no other segment, and
/// `prev` how the one before it ended.
pub fn activity_message(activity: Activity, only: bool, prev: &Option<PrevSegment>) -> (message:
    String)
    ensures
        message@ == activity_text(
            activity,
            only,
            match prev {
                Some(prev) => Some(prev@),
                None => None,
            },
        ),
{
    let extracting = match activity {
        Activity::Extracting => true,
        Activity::Transcribing => false,
    };
    if only {
        return if extracting {
            "extracting audio".to_owned()
        } else {
            "transcribing".to_owned()
        };
    }
    match prev {
        Some(PrevSegment::Phrase(phrase)) => {
            let mut message = if extracting {
                "extracting audio segment after '".to_owned()
            } else {
                "transcribing segment after '".to_owned()
            };
            message.append(phrase.as_str());
            message.append("'");
            message
        },
        Some(PrevSegment::Silence) => {
            if extracting {
                "extracting audio segment after a silent stretch".to_owned()
            } else {
                "transcribing segment after a silent stretch".to_owned()
            }
        },
        None => {
            if extracting {
                "extracting initial audio segment".to_owned()
            } else {
                "transcribing initial segment".to_owned()
            }
        },
    }
}

/// How many segments are announced: `total` of them, where those that are left, with the one
/// at hand, are as few as it takes to cover the audio that remains, one at least. On the last
/// segment the number is exact, and otherwise it is marked as an estimate.
pub proof fn law_announced_segments_cover_audio(
    name: Seq<char>,
    index: int,
    remaining: int,
    segment_length: int,
    total: int,
)
    requires
        segment_length > 0,
        remaining >= 0,
        1 <= total - index <= u64::MAX,
        (total - index) * segment_length >= remaining,
        total - index == 1 || (total - index - 1) * segment_length < remaining,
    ensures
        progress_text(name, index, false, remaining, segment_length) == name + seq![' ', '[']
            + decimal(index + 1) + seq!['/', '~'] + decimal(total) + seq![']'],
        progress_text(name, index, true, remaining, segment_length) == name + seq![' ', '[']
            + decimal(index + 1) + seq!['/'] + decimal(index + 1) + seq![']'],
{
    reveal_strlit(" [");
    reveal_strlit("/");
    reveal_strlit("]");
    let left = total - index;
    lemma_rounded_up(remaining, segment_length);
    vstd::arithmetic::div_mod::lemma_fundamental_div_mod(remaining, segment_length);
    let q = remaining / segment_length;
    let r = remaining % segment_length;
    assert(left == 1 || left == (if r == 0 {
        q
    } else {
        q + 1
    })) by (nonlinear_arith)
        requires
            remaining == segment_length * q + r,
            0 <= r < segment_length,
            left * segment_length >= remaining,
            left == 1 || (left - 1) * segment_length < remaining,
    ;
    if left == 1 {
        assert(q < 1 || (q == 1 && r == 0)) by (nonlinear_arith)
            requires
                remaining == segment_length * q + r,
                0 <= r < segment_length,
                1 * segment_length >= remaining,
        ;
    }
    assert(estimated_total(index, remaining, segment_length) == total);
    assert(progress_text(name, index, false, remaining, segment_length) =~= name + seq![' ', '[']
        + decimal(index + 1) + seq!['/', '~'] + decimal(total) + seq![']']);
    assert(progress_text(name, index, true, remaining, segment_length) =~= name + seq![' ', '[']
        + decimal(index + 1) + seq!['/'] + decimal(index + 1) + seq![']']);
}

/// What is said of a segment names what is being done, and where the video has other segments
/// the phrase after which the segment comes, a silent stretch, or that it is the first one.
pub proof fn law_activities_are_named(activity: Activity, prev: Option<Ending>, phrase: Seq<char>)
    ensures
        activity_text(Activity::Extracting, true, prev) == "extracting audio"@,
        activity_text(Activity::Transcribing, true, prev) == "transcribing"@,
        activity_text(Activity::Extracting, false, None) == "extracting initial audio segment"@,
        activity_text(Activity::Transcribing, false, None) == "transcribing initial segment"@,
        activity_text(Activity::Extracting, false, Some(Ending::Silence))
            == "extracting audio segment after a silent stretch"@,
        activity_text(Activity::Transcribing, false, Some(Ending::Silence))
            == "transcribing segment after a silent stretch"@,
        activity_text(Activity::Extracting, false, Some(Ending::Phrase(phrase)))
            == "extracting audio segment after '"@ + phrase + "'"@,
        activity_text(Activity::Transcribing, false, Some(Ending::Phrase(phrase)))
            == "transcribing segment after '"@ + phrase + "'"@,
{
}

} // verus!
