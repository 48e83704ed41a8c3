use sirtea::media::{
    add_up, audio_delay, audio_length, can_measure, judge, Finding, Reason, Track, Verdict,
    VeryNegativeDelay,
};
use sirtea::queue::{enqueue, QueuedVideo};

fn video_track() -> Track {
    Track {
        has_sample_rate: false,
        time_base: Some((1, 1)),
        n_frames: Some(7),
    }
}

fn audio_track(numer: u32, denom: u32, frames: u64) -> Track {
    Track {
        has_sample_rate: true,
        time_base: Some((numer, denom)),
        n_frames: Some(frames),
    }
}

#[test]
fn length_is_that_of_the_first_audio_track() {
    let tracks = vec![
        video_track(),
        audio_track(1, 48_000, 120_000),
        audio_track(1, 48_000, 48_000),
    ];
    assert!(can_measure(&tracks));
    assert_eq!(audio_length(&tracks), Ok(2_500_000_000));
    assert_eq!(
        audio_length(&vec![audio_track(1001, 30_000, 30_000)]),
        Ok(1_001_000_000_000)
    );
    assert_eq!(
        audio_length(&vec![audio_track(1, 3, 1)]),
        Ok(333_333_333)
    );
}

#[test]
fn whole_seconds_wrap() {
    assert_eq!(
        audio_length(&vec![audio_track(3, 1, u64::MAX)]),
        Ok((u64::MAX - 2) as u128 * 1_000_000_000)
    );
}

#[test]
fn audio_must_be_there_and_measurable() {
    assert_eq!(audio_length(&Vec::new()), Err(Reason::NoAudioTrack));
    assert_eq!(
        audio_length(&vec![video_track()]),
        Err(Reason::NoAudioTrack)
    );
    let mut track = audio_track(1, 48_000, 1);
    track.n_frames = None;
    assert_eq!(audio_length(&vec![track]), Err(Reason::UnknownDuration));
    let mut track = audio_track(1, 48_000, 1);
    track.time_base = None;
    assert_eq!(audio_length(&vec![track]), Err(Reason::UnknownDuration));
    assert!(!can_measure(&vec![audio_track(1, 0, 1)]));
    assert!(!can_measure(&vec![audio_track(0, 1, 1)]));
    assert_eq!(add_up((3, 1_000_000_000)), 4_000_000_000);
}

#[test]
fn explicit_files_must_be_usable() {
    for quiet in [false, true] {
        assert_eq!(
            judge(true, quiet, Finding::CannotOpen),
            Verdict::Fail(Reason::CannotOpen)
        );
        assert_eq!(
            judge(true, quiet, Finding::NotMedia),
            Verdict::Fail(Reason::UnsupportedFormat)
        );
        assert_eq!(judge(true, quiet, Finding::Audio(5)), Verdict::Accept(5));
    }
    assert_eq!(
        judge(true, false, Finding::NoUse(Reason::NoAudioTrack)),
        Verdict::SkipWithWarning(Reason::NoAudioTrack)
    );
}

#[test]
fn found_files_are_skipped() {
    assert_eq!(
        judge(false, false, Finding::CannotOpen),
        Verdict::SkipWithWarning(Reason::CannotOpen)
    );
    assert_eq!(
        judge(false, true, Finding::CannotOpen),
        Verdict::SkipSilently
    );
    assert_eq!(
        judge(false, false, Finding::NotMedia),
        Verdict::SkipSilently
    );
    assert_eq!(
        judge(false, false, Finding::NoUse(Reason::UnknownDuration)),
        Verdict::SkipWithWarning(Reason::UnknownDuration)
    );
    assert_eq!(
        judge(false, true, Finding::NoUse(Reason::UnknownDuration)),
        Verdict::SkipSilently
    );
    assert_eq!(judge(false, true, Finding::Audio(9)), Verdict::Accept(9));
}

#[test]
fn slightly_negative_delays_count_as_none() {
    assert_eq!(audio_delay(0), Ok(0));
    assert_eq!(audio_delay(21_333_000), Ok(21_333_000));
    assert_eq!(audio_delay(-49_999_999), Ok(0));
    assert_eq!(
        audio_delay(-50_000_000),
        Err(VeryNegativeDelay { nanos: -50_000_000 })
    );
}

fn queued(length: u128, path_rank: usize, delay: u128) -> QueuedVideo {
    QueuedVideo {
        length,
        path_rank,
        delay,
    }
}

#[test]
fn shorter_videos_come_first() {
    let videos = [
        queued(30, 0, 0),
        queued(10, 2, 5),
        queued(10, 1, 9),
        queued(20, 3, 0),
        queued(10, 2, 5),
        queued(10, 2, 4),
    ];
    let mut queue = Vec::new();
    for video in videos {
        enqueue(&mut queue, video);
    }
    let expected = vec![
        queued(10, 1, 9),
        queued(10, 2, 4),
        queued(10, 2, 5),
        queued(20, 3, 0),
        queued(30, 0, 0),
    ];
    assert_eq!(queue, expected);
    let mut reversed = Vec::new();
    for video in videos.into_iter().rev() {
        enqueue(&mut reversed, video);
    }
    assert_eq!(reversed, expected);
}
