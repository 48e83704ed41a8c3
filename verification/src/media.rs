//! What a media file says about its audio, and whether it is to be transcribed.

use vstd::prelude::*;

use crate::utterance::SECOND;

verus! {

/// The whole seconds and the nanoseconds that `TimeBase::calc_time` makes of `ticks` ticks
/// of `numer / denom` seconds each, its fraction of a second rounded to nanoseconds.
pub uninterp spec fn time_of_ticks(numer: u32, denom: u32, ticks: u64) -> (u64, u128);

/// `symphonia::core::units::TimeBase::calc_time`: whole seconds, and a fraction of a
/// second as nanoseconds. Both depend on the arguments alone. The whole seconds are the
/// integer quotient, which wraps; the fraction, which is computed in floating point and
/// only named here, is less than one second before it is rounded. A time base with a zero
/// is left out, since the call panics on it.
#[verifier::external_body]
fn calc_time(numer: u32, denom: u32, ticks: u64) -> (time: (u64, u128))
    requires
        numer > 0,
        denom > 0,
    ensures
        time == time_of_ticks(numer, denom, ticks),
        time.0 == (ticks * numer / denom as int) % 0x1_0000_0000_0000_0000,
        time.1 <= SECOND,
{
    let time = symphonia::core::units::TimeBase { numer, denom }.calc_time(ticks);
    (time.seconds, std::time::Duration::from_secs_f64(time.frac).as_nanos())
}

/// A track of a media file.
pub struct Track {
    /// Whether it has a sample rate, i.e. is audio.
    pub has_sample_rate: bool,
    /// How long a tick takes, as a numerator and a denominator in seconds.
    pub time_base: Option<(u32, u32)>,
    /// How many ticks it lasts.
    pub n_frames: Option<u64>,
}

/// Why a file is not transcribed.
#[derive(Clone, Copy, Debug, PartialEq, Eq, Structural)]
pub enum Reason {
    CannotOpen,
    UnsupportedFormat,
    NoAudioTrack,
    UnknownDuration,
}

/// The track whose audio is transcribed: the first with a sample rate, if there is one.
pub open spec fn audio_track(tracks: Seq<Track>) -> Option<Track>
    decreases tracks.len(),
{
    if tracks.len() == 0 {
        None
    } else if tracks[0].has_sample_rate {
        Some(tracks[0])
    } else {
        audio_track(tracks.drop_first())
    }
}

/// A time of whole seconds and nanoseconds, in nanoseconds.
pub open spec fn total_nanos(time: (u64, u128)) -> int {
    time.0 * SECOND + time.1
}

/// How long the audio of a file lasts, in nanoseconds, or why that is not known.
pub open spec fn length_of(tracks: Seq<Track>) -> Result<int, Reason> {
    match audio_track(tracks) {
        None => Err(Reason::NoAudioTrack),
        Some(track) => match (track.time_base, track.n_frames) {
            (Some(base), Some(frames)) => Ok(total_nanos(time_of_ticks(base.0, base.1, frames))),
            _ => Err(Reason::UnknownDuration),
        },
    }
}

/// Whether the length of the audio can be computed: the time base that it takes, if any,
/// holds no zero.
pub open spec fn is_measurable(tracks: Seq<Track>) -> bool {
    match audio_track(tracks) {
        Some(Track { time_base: Some(base), n_frames: Some(_), .. }) => base.0 > 0 && base.1 > 0,
        _ => true,
    }
}

/// Puts whole seconds and nanoseconds together.
pub fn add_up(time: (u64, u128)) -> (nanos: u128)
    requires
        time.1 <= SECOND,
    ensures
        nanos == total_nanos(time),
{
    time.0 as u128 * 1_000_000_000u128 + time.1
}

proof fn lemma_audio_track(tracks: Seq<Track>, i: int)
    requires
        0 <= i <= tracks.len(),
        forall|k: int| 0 <= k < i ==> !(#[trigger] tracks[k]).has_sample_rate,
        i < tracks.len() ==> tracks[i].has_sample_rate,
    ensures
        audio_track(tracks) == (if i < tracks.len() {
            Some(tracks[i])
        } else {
            None
        }),
    decreases i,
{
    if i > 0 {
        let rest = tracks.drop_first();
        assert(!tracks[0].has_sample_rate);
        assert forall|k: int| 0 <= k < i - 1 implies !(#[trigger] rest[k]).has_sample_rate by {
            assert(rest[k] == tracks[k + 1]);
        }
        lemma_audio_track(rest, i - 1);
    }
}

/// Finds the first track with a sample rate.
fn find_audio_track(tracks: &Vec<Track>) -> (found: Option<usize>)
    ensures
        match found {
            Some(i) => i < tracks@.len() && audio_track(tracks@) == Some(tracks@[i as int]),
            None => audio_track(tracks@) is None,
        },
{
    let mut i: usize = 0;
    while i < tracks.len() && !tracks[i].has_sample_rate
        invariant
            i <= tracks@.len(),
            forall|k: int| 0 <= k < i ==> !(#[trigger] tracks@[k]).has_sample_rate,
        decreases tracks@.len() - i,
    {
        i += 1;
    }
    proof {
        lemma_audio_track(tracks@, i as int);
    }
    if i < tracks.len() {
        Some(i)
    } else {
        None
    }
}

/// Whether the length of the audio can be computed.
pub fn can_measure(tracks: &Vec<Track>) -> (answer: bool)
    ensures
        answer == is_measurable(tracks@),
{
    match find_audio_track(tracks) {
        Some(i) => match (tracks[i].time_base, tracks[i].n_frames) {
            (Some(base), Some(_)) => base.0 > 0 && base.1 > 0,
            _ => true,
        },
        None => true,
    }
}

/// How long the audio of a file lasts, in nanoseconds.
pub fn audio_length(tracks: &Vec<Track>) -> (length: Result<u128, Reason>)
    requires
        is_measurable(tracks@),
    ensures
        match length {
            Ok(nanos) => length_of(tracks@) == Ok::<int, Reason>(nanos as int),
            Err(reason) => length_of(tracks@) == Err::<int, Reason>(reason),
        },
{
    match find_audio_track(tracks) {
        Some(i) => match (tracks[i].time_base, tracks[i].n_frames) {
            (Some(base), Some(frames)) => Ok(add_up(calc_time(base.0, base.1, frames))),
            _ => Err(Reason::UnknownDuration),
        },
        None => Err(Reason::NoAudioTrack),
    }
}

/// What was found when a candidate file was looked at.
pub enum Finding {
    /// It could not be opened.
    CannotOpen,
    /// It is not of a supported media format.
    NotMedia,
    /// It has audio of this length, in nanoseconds.
    Audio(u128),
    /// It is a media file, but its audio cannot be used.
    NoUse(Reason),
}

/// What to do about a candidate file.
#[derive(Clone, Copy, Debug, PartialEq, Eq, Structural)]
pub enum Verdict {
    /// Give up altogether.
    Fail(Reason),
    /// Leave it out, and say so.
    SkipWithWarning(Reason),
    /// Leave it out without a word.
    SkipSilently,
    /// Transcribe it; its audio is this long, in nanoseconds.
    Accept(u128),
}

/// A file that is left out, with a warning unless output is to be minimal.
pub open spec fn skipped(quiet: bool, reason: Reason) -> Verdict {
    if quiet {
        Verdict::SkipSilently
    } else {
        Verdict::SkipWithWarning(reason)
    }
}

/// What to do about a candidate file. One that was named explicitly must be openable and a
/// media file; one that was found in a directory is skipped, silently where it is no media
/// file.
pub open spec fn verdict(explicit: bool, quiet: bool, finding: Finding) -> Verdict {
    match finding {
        Finding::CannotOpen => if explicit {
            Verdict::Fail(Reason::CannotOpen)
        } else {
            skipped(quiet, Reason::CannotOpen)
        },
        Finding::NotMedia => if explicit {
            Verdict::Fail(Reason::UnsupportedFormat)
        } else {
            Verdict::SkipSilently
        },
        Finding::Audio(nanos) => Verdict::Accept(nanos),
        Finding::NoUse(reason) => skipped(quiet, reason),
    }
}

/// Decides what to do about a candidate file.
pub fn judge(explicit: bool, quiet: bool, finding: Finding) -> (decision: Verdict)
    ensures
        decision == verdict(explicit, quiet, finding),
{
    let reason = match finding {
        Finding::CannotOpen => {
            if explicit {
                return Verdict::Fail(Reason::CannotOpen);
            }
            Reason::CannotOpen
        },
        Finding::NotMedia => {
            if explicit {
                return Verdict::Fail(Reason::UnsupportedFormat);
            }
            return Verdict::SkipSilently;
        },
        Finding::Audio(nanos) => {
            return Verdict::Accept(nanos);
        },
        Finding::NoUse(reason) => reason,
    };
    if quiet {
        Verdict::SkipSilently
    } else {
        Verdict::SkipWithWarning(reason)
    }
}

/// How far before the start of a file its audio may begin, in nanoseconds.
pub const MAX_NEGATIVE_DELAY: i128 = 50_000_000;

/// An audio track that begins too far before the start of its file.
#[derive(Clone, Copy, Debug, PartialEq, Eq, Structural)]
pub struct VeryNegativeDelay {
    pub nanos: i128,
}

/// How long after the start of a file its audio begins, given where it is said to begin,
/// in nanoseconds. A slightly negative start counts as none.
pub fn audio_delay(start: i128) -> (delay: Result<u128, VeryNegativeDelay>)
    ensures
        match delay {
            Ok(delay) => start > -MAX_NEGATIVE_DELAY && delay == (if start < 0 {
                0
            } else {
                start as int
            }),
            Err(error) => start <= -MAX_NEGATIVE_DELAY && error.nanos == start,
        },
        delay is Ok <==> start > -50_000_000,
{
    if start >= 0 {
        Ok(start as u128)
    } else if start > -MAX_NEGATIVE_DELAY {
        Ok(0)
    } else {
        Err(VeryNegativeDelay { nanos: start })
    }
}

/// A file that was named explicitly and cannot be opened or is no media file is an error;
/// it is never passed over.
pub proof fn law_explicit_files_are_not_skipped(quiet: bool, finding: Finding)
    requires
        finding is CannotOpen || finding is NotMedia,
    ensures
        verdict(true, quiet, finding) is Fail,
{
}

/// A file that was found in a directory never stops the others from being transcribed.
pub proof fn law_found_files_do_not_fail(quiet: bool, finding: Finding)
    ensures
        !(verdict(false, quiet, finding) is Fail),
{
}

/// Nothing is said about skipped files where output is to be minimal.
pub proof fn law_quiet_gives_no_warnings(explicit: bool, finding: Finding)
    ensures
        !(verdict(explicit, true, finding) is SkipWithWarning),
{
}

/// The track that is transcribed is the first one with a sample rate, which is track `i`. Its
/// length is its number of ticks as its time base counts them, in nanoseconds, and is not
/// known if one of the two is missing.
pub proof fn law_first_audio_track_counts(tracks: Seq<Track>, i: int)
    requires
        0 <= i < tracks.len(),
        tracks[i].has_sample_rate,
        forall|k: int| 0 <= k < i ==> !(#[trigger] tracks[k]).has_sample_rate,
    ensures
        audio_track(tracks) == Some(tracks[i]),
        match (tracks[i].time_base, tracks[i].n_frames) {
            (Some((numer, denom)), Some(ticks)) => length_of(tracks) == Ok::<int, Reason>(
                1_000_000_000 * time_of_ticks(numer, denom, ticks).0 + time_of_ticks(
                    numer,
                    denom,
                    ticks,
                ).1,
            ) && is_measurable(tracks) == (numer != 0 && denom != 0),
            _ => length_of(tracks) == Err::<int, Reason>(Reason::UnknownDuration) && is_measurable(
                tracks,
            ),
        },
{
    lemma_audio_track(tracks, i);
}

/// A file none of whose tracks has a sample rate has no audio.
pub proof fn law_no_sample_rate_means_no_audio(tracks: Seq<Track>)
    requires
        forall|k: int| 0 <= k < tracks.len() ==> !(#[trigger] tracks[k]).has_sample_rate,
    ensures
        audio_track(tracks) is None,
        length_of(tracks) == Err::<int, Reason>(Reason::NoAudioTrack),
        is_measurable(tracks),
{
    lemma_audio_track(tracks, tracks.len() as int);
}

/// A file is transcribed exactly if it has audio of a known length, however it was found.
pub proof fn law_files_with_audio_are_transcribed(explicit: bool, quiet: bool, finding: Finding)
    ensures
        verdict(explicit, quiet, finding) is Accept <==> finding is Audio,
        finding matches Finding::Audio(nanos) ==> verdict(explicit, quiet, finding)
            == Verdict::Accept(nanos),
        verdict(explicit, quiet, finding) is Fail <==> explicit && (finding is CannotOpen
            || finding is NotMedia),
        verdict(explicit, quiet, finding) is SkipWithWarning <==> !quiet && (finding is NoUse
            || finding is CannotOpen && !explicit),
{
}

/// What is said about a file that is not transcribed is what was found.
pub proof fn law_reasons_are_those_found(explicit: bool, quiet: bool, finding: Finding)
    ensures
        verdict(explicit, quiet, finding) matches Verdict::Fail(reason) ==> match finding {
            Finding::CannotOpen => reason == Reason::CannotOpen,
            _ => reason == Reason::UnsupportedFormat,
        },
        verdict(explicit, quiet, finding) matches Verdict::SkipWithWarning(reason) ==> match finding {
            Finding::NoUse(found) => reason == found,
            _ => reason == Reason::CannotOpen,
        },
{
}

} // verus!
