use sirtea::cues::build_cues;
use sirtea::segments::{
    ensure_segment_clears_delay, prefer, resolve_segment_length, SegmentLengthError,
    FALLBACK_MAX_SEGMENT_LENGTH,
};
use sirtea::stitch::{NoCaptions, PrevSegment, SegmentPlan, Stitcher};
use sirtea::utterance::Utterance;

const S: i64 = 1_000_000_000;
const SEC: u128 = 1_000_000_000;

fn cue(start: i64, end: i64, text: &str) -> Utterance {
    Utterance {
        start: start * S,
        end: end * S,
        text: text.to_string(),
    }
}

fn stitcher(length: u128, delay: u128, segment: i128) -> Stitcher {
    Stitcher::new(length * SEC, delay * SEC, segment * SEC as i128).unwrap()
}

#[test]
fn short_video_is_one_segment() {
    let mut video = stitcher(100, 0, 100);
    assert_eq!(
        video.plan(),
        SegmentPlan {
            start: 0,
            index: 0,
            is_last: true,
            limit: None
        }
    );
    let cues = vec![cue(1, 2, "Hello."), cue(3, 4, "Bye.")];
    assert!(video.can_take(&cues));
    video.take_cues(cues);
    assert!(video.is_done());
    let captions = video.finish().unwrap();
    assert_eq!(captions.len(), 2);
    assert_eq!((captions[1].start, captions[1].end), (3 * S, 4 * S));
}

#[test]
fn segments_resume_at_the_cue_after_the_split() {
    let mut video = stitcher(250, 2, 100);
    let plan = video.plan();
    // The first segment is padded for the delay, so it consumes less.
    assert_eq!((plan.is_last, plan.limit), (false, Some(98 * SEC)));
    assert_eq!(video.remaining(), 250 * SEC);
    assert_eq!(video.max_segment(), 100 * SEC);
    let cues = vec![
        cue(0, 10, "A sentence."),
        cue(20, 30, "another one."),
        cue(80, 90, "the cut"),
    ];
    assert!(video.can_take(&cues));
    video.take_cues(cues);
    assert!(!video.is_done());
    assert!(matches!(video.previous(), Some(PrevSegment::Phrase(p)) if p == "another one."));

    let plan = video.plan();
    assert_eq!((plan.start, plan.index), (80 * SEC, 1));
    assert_eq!((plan.is_last, plan.limit), (false, Some(100 * SEC)));
    video.take_cues(vec![cue(0, 50, "only one")]);
    // With no next cue, the next segment resumes at the cue's own end.
    let plan = video.plan();
    assert_eq!((plan.start, plan.index), (130 * SEC, 2));
    assert!(!plan.is_last);
    video.take_cues(vec![cue(1, 2, "b."), cue(30, 31, "c")]);
    let plan = video.plan();
    assert_eq!((plan.start, plan.is_last, plan.limit), (160 * SEC, true, None));
    assert_eq!(video.remaining(), 90 * SEC);
    video.take_cues(vec![cue(5, 6, "The end.")]);
    assert!(video.is_done());

    let captions = video.finish().unwrap();
    let times: Vec<(i64, i64)> = captions.iter().map(|c| (c.start / S, c.end / S)).collect();
    assert_eq!(
        times,
        [(0, 10), (20, 30), (80, 130), (131, 132), (165, 166)]
    );
    for pair in captions.windows(2) {
        assert!(pair[0].end <= pair[1].start);
    }
    assert_eq!(captions[4].text, "The end.");
}

#[test]
fn dropped_cues_come_again() {
    let mut video = stitcher(1000, 0, 100);
    let cues = vec![
        cue(0, 10, "A sentence."),
        cue(12, 20, "dropped"),
        cue(25, 30, "dropped too"),
    ];
    video.take_cues(cues);
    // The next segment starts where the first dropped cue does.
    assert_eq!(video.plan().start, 12 * SEC);
    assert_eq!(video.finish().unwrap().len(), 1);
}

#[test]
fn silent_segments_are_skipped() {
    let mut video = stitcher(150, 1, 100);
    video.take_cues(Vec::new());
    assert!(matches!(video.previous(), Some(PrevSegment::Silence)));
    assert_eq!(video.plan().start, 99 * SEC);
    video.take_cues(vec![cue(0, 1, "Hi.")]);
    assert!(video.is_done());
    assert_eq!(video.finish().unwrap()[0].start, 99 * S);
}

#[test]
fn silent_video_has_no_captions() {
    let mut video = stitcher(150, 0, 100);
    assert!(video.previous().is_none());
    video.take_cues(Vec::new());
    video.take_cues(Vec::new());
    assert!(video.is_done());
    assert_eq!(video.finish().unwrap_err(), NoCaptions);
}

#[test]
fn cues_that_cannot_be_held_are_not_taken() {
    let mut video = stitcher(250, 0, 100);
    assert!(!video.can_take(&vec![cue(-2, -1, "early"), cue(-1, 0, "cut")]));
    assert!(video.can_take(&vec![cue(-2, -1, "early"), cue(0, 1, "cut")]));
    video.take_cues(Vec::new());
    let late = Utterance {
        start: i64::MAX,
        end: i64::MAX,
        text: "late".to_string(),
    };
    assert!(!video.can_take(&vec![late]));
    video.take_cues(Vec::new());
    video.take_cues(Vec::new());
    assert!(video.is_done());
    assert!(!video.can_take(&Vec::new()));
}

#[test]
fn built_cues_stitch_in_order() {
    let words: Vec<Utterance> = "We talked. Then we went home. And now this is cut"
        .split(' ')
        .enumerate()
        .map(|(i, text)| cue(i as i64, i as i64 + 1, text))
        .collect();
    let mut video = stitcher(1000, 0, 12);
    for _ in 0..3 {
        let cues = build_cues(&words);
        assert!(video.can_take(&cues));
        let before = video.plan().start;
        video.take_cues(cues);
        assert!(video.plan().start > before);
    }
    let captions = video.finish().unwrap();
    for pair in captions.windows(2) {
        assert!(pair[0].end <= pair[1].start, "{pair:?}");
    }
}

#[test]
fn segment_length_must_clear_the_delay() {
    assert_eq!(ensure_segment_clears_delay(6, 5), Ok(()));
    for segment_length in [5, 0, -1] {
        let error = SegmentLengthError::WithinDelay {
            segment_length,
            delay: 5,
        };
        assert_eq!(ensure_segment_clears_delay(segment_length, 5), Err(error));
        assert_eq!(Stitcher::new(100, 5, segment_length).unwrap_err(), error);
    }
    assert!(ensure_segment_clears_delay(0, 0).is_err());
}

#[test]
fn model_limit_is_the_default_and_the_maximum() {
    assert_eq!(resolve_segment_length(None, 200_500), Ok(200_500_000_000));
    assert_eq!(
        resolve_segment_length(None, 0),
        Ok(FALLBACK_MAX_SEGMENT_LENGTH)
    );
    assert_eq!(FALLBACK_MAX_SEGMENT_LENGTH, 195_000_000_000);
    assert_eq!(
        resolve_segment_length(None, -1),
        Ok(FALLBACK_MAX_SEGMENT_LENGTH)
    );
    assert_eq!(resolve_segment_length(Some(30), 1), Ok(30));
    assert_eq!(resolve_segment_length(Some(1_000_000), 1), Ok(1_000_000));
    assert_eq!(
        resolve_segment_length(Some(1_000_001), 1),
        Err(SegmentLengthError::AboveModelLimit {
            segment_length: 1_000_001,
            limit: 1_000_000
        })
    );
    assert_eq!(
        resolve_segment_length(Some(i128::MAX), 0),
        Ok(i128::MAX)
    );
}

#[test]
fn command_line_takes_precedence() {
    assert_eq!(prefer(Some(1), Some(2)), Some(1));
    assert_eq!(prefer(Some(1), None), Some(1));
    assert_eq!(prefer(None, Some(2)), Some(2));
    assert_eq!(prefer::<i32>(None, None), None);
}
