use sirtea::ffmpeg::{args_after_path, args_before_path, format_seconds};
use sirtea::status::{activity_message, progress_title, Activity};
use sirtea::stitch::{PrevSegment, SegmentPlan};

fn plan(start: u128, index: u64, limit: Option<u128>) -> SegmentPlan {
    SegmentPlan {
        start,
        index,
        is_last: limit.is_none(),
        limit,
    }
}

#[test]
fn totals_are_estimates_until_the_last_segment() {
    assert_eq!(
        progress_title("a.mkv", &plan(0, 0, Some(100)), 250, 100),
        "a.mkv [1/~3]"
    );
    assert_eq!(
        progress_title("a.mkv", &plan(0, 1, Some(100)), 200, 100),
        "a.mkv [2/~3]"
    );
    assert_eq!(
        progress_title("a.mkv", &plan(0, 4, None), 20, 100),
        "a.mkv [5/5]"
    );
    assert_eq!(
        progress_title("x", &plan(0, 2, Some(1)), 0, 100),
        "x [3/~3]"
    );
    assert_eq!(
        progress_title("x", &plan(0, 1, Some(1)), u128::MAX, 1),
        "x [2/~18446744073709551616]"
    );
}

#[test]
fn activities_say_what_they_follow() {
    let phrase = Some(PrevSegment::Phrase("and so on.".to_string()));
    let silence = Some(PrevSegment::Silence);
    let say = activity_message;
    assert_eq!(say(Activity::Extracting, true, &None), "extracting audio");
    assert_eq!(
        say(Activity::Extracting, false, &None),
        "extracting initial audio segment"
    );
    assert_eq!(
        say(Activity::Extracting, false, &phrase),
        "extracting audio segment after 'and so on.'"
    );
    assert_eq!(
        say(Activity::Extracting, false, &silence),
        "extracting audio segment after a silent stretch"
    );
    assert_eq!(say(Activity::Transcribing, true, &None), "transcribing");
    assert_eq!(
        say(Activity::Transcribing, false, &None),
        "transcribing initial segment"
    );
    assert_eq!(
        say(Activity::Transcribing, false, &phrase),
        "transcribing segment after 'and so on.'"
    );
    assert_eq!(
        say(Activity::Transcribing, false, &silence),
        "transcribing segment after a silent stretch"
    );
}

#[test]
fn seconds_take_no_more_digits_than_needed() {
    assert_eq!(format_seconds(0), "0");
    assert_eq!(format_seconds(195_000_000_000), "195");
    assert_eq!(format_seconds(1_500_000_000), "1.5");
    assert_eq!(format_seconds(20_000_001), "0.020000001");
    assert_eq!(format_seconds(3_661_300_000_000), "3661.3");
}

#[test]
fn first_segment_is_padded() {
    assert_eq!(
        args_before_path(&plan(80_250_000_000, 1, None)),
        ["-ss", "80.25", "-i"]
    );
    let common = [
        "-vn",
        "-ac",
        "1",
        "-ar",
        "16000",
        "-c:a",
        "pcm_f32le",
        "-f",
        "f32le",
        "-nostdin",
        "-hide_banner",
        "-loglevel",
        "error",
    ];
    let with = |more: &[&str]| -> Vec<String> {
        common
            .iter()
            .chain(more.iter())
            .map(|arg| arg.to_string())
            .collect()
    };
    assert_eq!(
        args_after_path(&plan(0, 0, Some(99_500_000_000)), 21_999_999),
        with(&["-af", "adelay=21:all=1", "-t", "99.5", "-"])
    );
    assert_eq!(
        args_after_path(&plan(0, 1, Some(100_000_000_000)), 21_999_999),
        with(&["-t", "100", "-"])
    );
    assert_eq!(args_after_path(&plan(0, 0, None), 0), with(&["-"]));
    // A delay below a millisecond still pads, by nothing.
    assert_eq!(
        args_after_path(&plan(0, 0, None), 1),
        with(&["-af", "adelay=0:all=1", "-"])
    );
}
