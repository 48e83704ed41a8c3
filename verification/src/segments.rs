//! How long the segments are that a video's audio is transcribed in.
//!
//! Speech-to-text models can only transcribe so much audio in one go, so long videos are
//! split into segments. All lengths are whole nanoseconds.

use vstd::prelude::*;

verus! {

/// How long segments are when the model states no practical limit: bounded, to keep the
/// memory per segment bounded and progress updates frequent.
pub const FALLBACK_MAX_SEGMENT_LENGTH: i128 = 195_000_000_000;

/// Why a segment length cannot be used.
#[derive(Clone, Copy, Debug, PartialEq, Eq, Structural)]
pub enum SegmentLengthError {
    /// It does not exceed the audio start delay of a video.
    WithinDelay { segment_length: i128, delay: u128 },
    /// It exceeds what the model accepts per inference call.
    AboveModelLimit { segment_length: i128, limit: i128 },
}

/// Reject a segment length that doesn't clear a video's audio start delay: the first
/// segment consumes its length less the delay, which must leave something.
pub fn ensure_segment_clears_delay(segment_length: i128, delay: u128) -> (result: Result<
    (),
    SegmentLengthError,
>)
    ensures
        segment_length > delay ==> result is Ok,
        segment_length <= delay ==> result == Err::<(), SegmentLengthError>(
            SegmentLengthError::WithinDelay { segment_length, delay },
        ),
{
    if segment_length > 0 && segment_length as u128 > delay {
        Ok(())
    } else {
        Err(SegmentLengthError::WithinDelay { segment_length, delay })
    }
}

/// The model's limit in nanoseconds, from its limit in milliseconds; a limit of 0 or less
/// means that there is no practical limit.
pub open spec fn model_limit(max_audio_ms: int) -> Option<int> {
    if max_audio_ms > 0 {
        Some(max_audio_ms * 1_000_000)
    } else {
        None
    }
}

/// The segment length to use: the one that was asked for, unless it exceeds the model's
/// limit, and otherwise that limit, or a fixed length if there is none.
pub open spec fn segment_length_for(asked: Option<int>, max_audio_ms: int) -> Option<int> {
    match (asked, model_limit(max_audio_ms)) {
        (Some(length), Some(limit)) => if length <= limit {
            Some(length)
        } else {
            None
        },
        (Some(length), None) => Some(length),
        (None, Some(limit)) => Some(limit),
        (None, None) => Some(FALLBACK_MAX_SEGMENT_LENGTH as int),
    }
}

/// Settles the segment length, from the one that was asked for, if any, and the model's
/// limit in milliseconds. Rejecting (rather than silently clamping) a length above the
/// model's limit keeps the user's choice honest.
pub fn resolve_segment_length(asked: Option<i128>, max_audio_ms: i64) -> (length: Result<
    i128,
    SegmentLengthError,
>)
    ensures
        ({
            let wanted = match asked {
                Some(length) => Some(length as int),
                None => None,
            };
            match length {
                Ok(length) => segment_length_for(wanted, max_audio_ms as int) == Some(
                    length as int,
                ),
                Err(error) => {
                    &&& segment_length_for(wanted, max_audio_ms as int) is None
                    &&& error matches SegmentLengthError::AboveModelLimit { segment_length, limit }
                    &&& asked == Some(segment_length)
                    &&& model_limit(max_audio_ms as int) == Some(limit as int)
                },
            }
        }),
{
    let limit: Option<i128> = if max_audio_ms > 0 {
        Some(max_audio_ms as i128 * 1_000_000)
    } else {
        None
    };
    match (asked, limit) {
        (Some(segment_length), Some(limit)) => {
            if segment_length <= limit {
                Ok(segment_length)
            } else {
                Err(SegmentLengthError::AboveModelLimit { segment_length, limit })
            }
        },
        (Some(segment_length), None) => Ok(segment_length),
        (None, Some(limit)) => Ok(limit),
        (None, None) => Ok(FALLBACK_MAX_SEGMENT_LENGTH),
    }
}

/// A setting given on the command line takes precedence over one in the configuration.
pub fn prefer<T>(command_line: Option<T>, config: Option<T>) -> (setting: Option<T>)
    ensures
        setting == (if command_line is Some {
            command_line
        } else {
            config
        }),
{
    match command_line {
        Some(value) => Some(value),
        None => config,
    }
}

/// No segment is longer than what the model accepts per inference call.
pub proof fn law_segments_fit_model(asked: Option<int>, max_audio_ms: int)
    ensures
        match (segment_length_for(asked, max_audio_ms), model_limit(max_audio_ms)) {
            (Some(length), Some(limit)) => length <= limit,
            _ => true,
        },
{
}

/// What was asked for is used as it is, or not at all.
pub proof fn law_asked_length_is_not_clamped(asked: int, max_audio_ms: int)
    ensures
        segment_length_for(Some(asked), max_audio_ms) matches Some(length) ==> length == asked,
{
}

/// How long segments are: as was asked for, where the model has no limit or a limit of at
/// least as many milliseconds; the model's limit, where nothing was asked for; and 195
/// seconds, where there is neither. A length above the model's limit is refused.
pub proof fn law_segment_lengths(asked: int, max_audio_ms: int)
    ensures
        max_audio_ms <= 0 ==> segment_length_for(Some(asked), max_audio_ms) == Some(asked),
        max_audio_ms > 0 && asked <= 1_000_000 * max_audio_ms ==> segment_length_for(
            Some(asked),
            max_audio_ms,
        ) == Some(asked),
        max_audio_ms > 0 && asked > 1_000_000 * max_audio_ms ==> segment_length_for(
            Some(asked),
            max_audio_ms,
        ) is None,
        max_audio_ms > 0 ==> segment_length_for(None, max_audio_ms) == Some(
            1_000_000 * max_audio_ms,
        ),
        max_audio_ms <= 0 ==> segment_length_for(None, max_audio_ms) == Some(195_000_000_000int),
{
}

} // verus!
