//! Stitching the transcripts of segments back together.
//!
//! A segment's transcript covers its audio up to a hard cut, usually in the middle of a
//! sentence. So a recent cue that ends at a natural sentence boundary is picked, all cues
//! after it are dropped, and the next segment resumes from that point rather than from the
//! hard cut. Every split slides the start backwards, and over many segments that adds up,
//! so there is no fixed number of segments.

use vstd::prelude::*;

use crate::cues::Passage;
use crate::segments::{ensure_segment_clears_delay, SegmentLengthError};
use crate::split::{
    is_best_split, is_candidate, law_best_split_is_unique, pick_split_index, split_score, window,
};
use crate::utterance::{speeches, Speech, Utterance};

verus! {

/// How the previous segment ended, for progress status messages.
#[derive(Debug)]
pub enum PrevSegment {
    /// Ended at a natural boundary after this phrase.
    Phrase(String),
    /// Transcribed to nothing at all.
    Silence,
}

/// How the previous segment ended.
#[verifier::ext_equal]
pub enum Ending {
    Phrase(Seq<char>),
    Silence,
}

impl View for PrevSegment {
    type V = Ending;

    open spec fn view(&self) -> Ending {
        match self {
            PrevSegment::Phrase(text) => Ending::Phrase(text@),
            PrevSegment::Silence => Ending::Silence,
        }
    }
}

/// The audio to extract for a segment, in nanoseconds.
#[derive(Clone, Copy, Debug, PartialEq, Eq, Structural)]
pub struct SegmentPlan {
    /// Where it starts.
    pub start: u128,
    /// How many segments came before it.
    pub index: u64,
    /// Whether it reaches to the end of the file.
    pub is_last: bool,
    /// How much audio to extract; without a limit, to the end of the file.
    pub limit: Option<u128>,
}

/// A video whose segments are being transcribed, one by one.
#[derive(Debug)]
pub struct Stitcher {
    length: u128,
    delay: u128,
    segment_length: u128,
    start: u128,
    index: u64,
    captions: Vec<Utterance>,
    prev: Option<PrevSegment>,
    done: bool,
}

/// How far the transcription of a video has come.
#[verifier::ext_equal]
pub struct Stitching {
    /// How long the video's audio is.
    pub length: int,
    /// How long after the start of the video its audio starts.
    pub delay: int,
    /// How long a segment may be.
    pub segment_length: int,
    /// Where the next segment starts.
    pub start: int,
    /// How many segments are done.
    pub index: int,
    /// The captions so far.
    pub captions: Seq<Speech>,
    /// How the previous segment ended.
    pub prev: Option<Ending>,
    /// Whether the last segment is done.
    pub done: bool,
}

/// `cue`, that much later.
pub open spec fn shifted(cue: Speech, by: int) -> Speech {
    Speech { start: cue.start + by, end: cue.end + by, text: cue.text }
}

/// `cues`, that much later.
pub open spec fn all_shifted(cues: Seq<Speech>, by: int) -> Seq<Speech> {
    cues.map_values(|cue: Speech| shifted(cue, by))
}

/// The cue to end a segment after.
pub open spec fn split_index(cues: Seq<Speech>) -> int {
    choose|i: int| is_best_split(cues, i)
}

/// Where to resume after the cue `i`: at the next cue's start, since everything before it
/// is captioned or silence. With no next cue, at the cue's own end.
pub open spec fn resume_at(cues: Seq<Speech>, i: int) -> int {
    if i + 1 < cues.len() {
        cues[i + 1].start
    } else {
        cues[i].end
    }
}

/// Whether a time can be held in a caption.
pub open spec fn in_range(time: int) -> bool {
    i64::MIN <= time <= i64::MAX
}

impl Stitching {
    /// How much audio is left.
    pub open spec fn remaining(self) -> int {
        if self.length > self.start {
            self.length - self.start
        } else {
            0
        }
    }

    /// Whether the next segment reaches to the end of the file.
    pub open spec fn is_last(self) -> bool {
        self.remaining() <= self.segment_length
    }

    /// How much audio to extract for the next segment if it is not the last. The first one
    /// is padded with silence for the audio start delay, so correspondingly less input is
    /// consumed.
    pub open spec fn limit(self) -> int {
        if self.index == 0 {
            self.segment_length - self.delay
        } else {
            self.segment_length
        }
    }

    /// Whether the segment length clears the audio start delay.
    pub open spec fn is_valid(self) -> bool {
        &&& self.segment_length > self.delay >= 0
        &&& self.start >= 0
        &&& self.index >= 0
    }

    /// Whether the cues of the next segment can be taken: their times in the video can be
    /// held, and there is a point of the video to resume from.
    pub open spec fn accepts(self, cues: Seq<Speech>) -> bool {
        &&& !self.done
        &&& self.index < u64::MAX
        &&& forall|k: int|
            0 <= k < cues.len() ==> in_range((#[trigger] cues[k]).start + self.start) && in_range(
                cues[k].end + self.start,
            )
        &&& cues.len() > 0 && !self.is_last() ==> resume_at(cues, split_index(cues)) >= 0
    }

    /// How far the transcription has come once the next segment has been transcribed to
    /// `cues`.
    ///
    /// A fully silent stretch transcribes to nothing. There is no sentence boundary to
    /// split at then, so the next segment starts at the hard cut.
    pub open spec fn after(self, cues: Seq<Speech>) -> Stitching {
        if cues.len() == 0 {
            if self.is_last() {
                Stitching { done: true, ..self }
            } else {
                Stitching {
                    start: self.start + self.limit(),
                    index: self.index + 1,
                    prev: Some(Ending::Silence),
                    ..self
                }
            }
        } else if self.is_last() {
            Stitching {
                index: self.index + 1,
                captions: self.captions + all_shifted(cues, self.start),
                done: true,
                ..self
            }
        } else {
            let i = split_index(cues);
            Stitching {
                start: self.start + resume_at(cues, i),
                index: self.index + 1,
                captions: self.captions + all_shifted(cues.take(i + 1), self.start),
                prev: Some(Ending::Phrase(cues[i].text)),
                ..self
            }
        }
    }

    /// How far the transcription has come once the next segments have been transcribed to
    /// `segments`, each in turn, as far as there are any.
    pub open spec fn after_all(self, segments: Seq<Seq<Speech>>) -> Stitching
        decreases segments.len(),
    {
        if segments.len() == 0 {
            self
        } else {
            let before = self.after_all(segments.drop_last());
            if before.done {
                before
            } else {
                before.after(segments.last())
            }
        }
    }

    /// Whether the captions so far follow one another, and end before the next segment
    /// starts.
    pub open spec fn in_order(self) -> bool {
        &&& follow_one_another(self.captions)
        &&& !self.done && self.captions.len() > 0 ==> self.captions.last().end <= self.start
    }
}

/// Whether no cue is shown past the start of the next one.
pub open spec fn follow_one_another(cues: Seq<Speech>) -> bool {
    forall|a: int, b: int|
        0 <= a && b == a + 1 && b < cues.len() ==> (#[trigger] cues[a]).end <= (
        #[trigger] cues[b]).start
}

impl View for Stitcher {
    type V = Stitching;

    closed spec fn view(&self) -> Stitching {
        Stitching {
            length: self.length as int,
            delay: self.delay as int,
            segment_length: self.segment_length as int,
            start: self.start as int,
            index: self.index as int,
            captions: speeches(self.captions@),
            prev: match self.prev {
                Some(prev) => Some(prev@),
                None => None,
            },
            done: self.done,
        }
    }
}

/// A video that transcribed to no captions at all. Broken or missing audio is far more
/// likely than a genuinely speech-free recording.
#[derive(Clone, Copy, Debug, PartialEq, Eq, Structural)]
pub struct NoCaptions;

/// There is a best place to end a segment.
proof fn lemma_split_exists(cues: Seq<Speech>)
    requires
        cues.len() > 0,
    ensures
        is_best_split(cues, split_index(cues)),
        0 <= split_index(cues) < cues.len(),
{
    if cues.len() == 1 {
        assert(is_best_split(cues, 0));
    } else {
        let i = lemma_split_from(cues, cues.len() - window(cues.len() as int));
        assert(is_best_split(cues, i));
    }
}

proof fn lemma_split_from(cues: Seq<Speech>, lo: int) -> (i: int)
    requires
        is_candidate(cues, lo),
    ensures
        lo <= i,
        is_candidate(cues, i),
        forall|k: int|
            lo <= k && #[trigger] is_candidate(cues, k) ==> {
                ||| split_score(cues, i) > split_score(cues, k)
                ||| split_score(cues, i) == split_score(cues, k) && k <= i
            },
    decreases cues.len() - lo,
{
    if lo == cues.len() - 2 {
        lo
    } else {
        let i = lemma_split_from(cues, lo + 1);
        if split_score(cues, lo) > split_score(cues, i) {
            lo
        } else {
            i
        }
    }
}

impl Stitcher {
    /// Starts on a video, whose segment length must clear its audio start delay.
    pub fn new(length: u128, delay: u128, segment_length: i128) -> (stitcher: Result<
        Stitcher,
        SegmentLengthError,
    >)
        ensures
            match stitcher {
                Ok(stitcher) => segment_length > delay && stitcher@.is_valid() && stitcher@ == (
                Stitching {
                    length: length as int,
                    delay: delay as int,
                    segment_length: segment_length as int,
                    start: 0,
                    index: 0,
                    captions: Seq::empty(),
                    prev: None,
                    done: false,
                }),
                Err(error) => segment_length <= delay && error == (
                SegmentLengthError::WithinDelay { segment_length, delay }),
            },
    {
        ensure_segment_clears_delay(segment_length, delay)?;
        let stitcher = Stitcher {
            length,
            delay,
            segment_length: segment_length as u128,
            start: 0,
            index: 0,
            captions: Vec::new(),
            prev: None,
            done: false,
        };
        assert(speeches(stitcher.captions@) =~= Seq::<Speech>::empty());
        Ok(stitcher)
    }

    /// Whether the last segment is done.
    pub fn is_done(&self) -> (done: bool)
        ensures
            done == self@.done,
    {
        self.done
    }

    /// How the previous segment ended, if there is one.
    pub fn previous(&self) -> (prev: &Option<PrevSegment>)
        ensures
            self@.prev == (match prev {
                Some(prev) => Some(prev@),
                None => None,
            }),
    {
        &self.prev
    }

    /// How much audio is left.
    pub fn remaining(&self) -> (nanos: u128)
        ensures
            nanos == self@.remaining(),
    {
        if self.length > self.start {
            self.length - self.start
        } else {
            0
        }
    }

    /// How long a segment may be.
    pub fn max_segment(&self) -> (nanos: u128)
        ensures
            nanos == self@.segment_length,
    {
        self.segment_length
    }

    /// The audio to extract for the next segment.
    pub fn plan(&self) -> (plan: SegmentPlan)
        requires
            self@.is_valid(),
        ensures
            plan.start == self@.start,
            plan.index == self@.index,
            plan.is_last == self@.is_last(),
            match plan.limit {
                Some(limit) => !self@.is_last() && limit == self@.limit(),
                None => self@.is_last(),
            },
    {
        let is_last = self.remaining() <= self.segment_length;
        let limit = if is_last {
            None
        } else if self.index == 0 {
            Some(self.segment_length - self.delay)
        } else {
            Some(self.segment_length)
        };
        SegmentPlan { start: self.start, index: self.index, is_last, limit }
    }

    /// Whether the cues of the next segment can be taken.
    pub fn can_take(&self, cues: &Vec<Utterance>) -> (answer: bool)
        requires
            self@.is_valid(),
        ensures
            answer == self@.accepts(speeches(cues@)),
    {
        let ghost all = speeches(cues@);
        if self.done || self.index == u64::MAX {
            return false;
        }
        for k in 0..cues.len()
            invariant
                all == speeches(cues@),
                forall|m: int|
                    0 <= m < k ==> in_range((#[trigger] all[m]).start + self.start) && in_range(
                        all[m].end + self.start,
                    ),
        {
            assert(all[k as int] == cues@[k as int]@);
            if !fits(cues[k].start, self.start) || !fits(cues[k].end, self.start) {
                return false;
            }
        }
        if cues.len() > 0 && !self.plan().is_last {
            let i = pick_split_index(cues.as_slice());
            proof {
                lemma_split_exists(all);
                law_best_split_is_unique(all, i as int, split_index(all));
            }
            return resume_point(cues, i) >= 0;
        }
        true
    }

    /// Takes the cues that the next segment was transcribed to, with times counted from
    /// the segment's start.
    pub fn take_cues(&mut self, cues: Vec<Utterance>)
        requires
            old(self)@.is_valid(),
            old(self)@.accepts(speeches(cues@)),
        ensures
            final(self)@ == old(self)@.after(speeches(cues@)),
            final(self)@.is_valid(),
    {
        let ghost all = speeches(cues@);
        let plan = self.plan();
        let mut cues = cues;
        if cues.len() == 0 {
            match plan.limit {
                None => {
                    self.done = true;
                },
                Some(limit) => {
                    self.start = self.start + limit;
                    self.prev = Some(PrevSegment::Silence);
                    self.index = self.index + 1;
                },
            }
            return ;
        }
        let mut resumed: u128 = self.start;
        if !plan.is_last {
            let i = pick_split_index(cues.as_slice());
            proof {
                lemma_split_exists(all);
                law_best_split_is_unique(all, i as int, split_index(all));
                assert(all[i as int] == cues@[i as int]@);
                assert(in_range(all[i as int].end + self.start));
                if i + 1 < all.len() {
                    assert(in_range(all[i + 1].start + self.start));
                }
            }
            let later = resume_point(&cues, i);
            resumed = self.start + later as u128;
            self.prev = Some(PrevSegment::Phrase(cues[i].text.clone()));
            cues.truncate(i + 1);
            assert(speeches(cues@) =~= all.take(i + 1));
        }
        append_shifted(&mut self.captions, cues, plan.start);
        self.start = resumed;
        self.index = self.index + 1;
        if plan.is_last {
            self.done = true;
        }
    }

    /// The captions of the whole video. A video that yields none is an error: an empty
    /// subtitle file would permanently mark it as done.
    pub fn finish(self) -> (captions: Result<Vec<Utterance>, NoCaptions>)
        ensures
            match captions {
                Ok(captions) => speeches(captions@) == self@.captions && captions@.len() > 0,
                Err(_) => self@.captions.len() == 0,
            },
    {
        if self.captions.is_empty() {
            Err(NoCaptions)
        } else {
            Ok(self.captions)
        }
    }
}

/// Whether a time that much later can be held in a caption.
fn fits(time: i64, by: u128) -> (answer: bool)
    ensures
        answer == in_range(time + by),
{
    by <= 0xffff_ffff_ffff_ffff && time as i128 + by as i128 <= i64::MAX as i128
}

/// Where to resume after the cue `i`.
fn resume_point(cues: &Vec<Utterance>, i: usize) -> (time: i64)
    requires
        i < cues@.len(),
    ensures
        time == resume_at(speeches(cues@), i as int),
{
    if i < cues.len() - 1 {
        cues[i + 1].start
    } else {
        cues[i].end
    }
}

/// Appends `cues`, that much later, to `captions`.
fn append_shifted(captions: &mut Vec<Utterance>, cues: Vec<Utterance>, by: u128)
    requires
        forall|k: int|
            0 <= k < cues@.len() ==> in_range((#[trigger] speeches(cues@)[k]).start + by)
                && in_range(speeches(cues@)[k].end + by),
    ensures
        speeches(final(captions)@) == speeches(old(captions)@) + all_shifted(
            speeches(cues@),
            by as int,
        ),
{
    let ghost earlier = speeches(captions@);
    let ghost all = speeches(cues@);
    for k in 0..cues.len()
        invariant
            all == speeches(cues@),
            forall|m: int|
                0 <= m < cues@.len() ==> in_range((#[trigger] all[m]).start + by) && in_range(
                    all[m].end + by,
                ),
            speeches(captions@) =~= earlier + all_shifted(all.take(k as int), by as int),
    {
        let cue = &cues[k];
        assert(all[k as int] == cue@);
        let ghost so_far = speeches(captions@);
        let moved = Utterance {
            start: (cue.start as i128 + by as i128) as i64,
            end: (cue.end as i128 + by as i128) as i64,
            text: cue.text.clone(),
        };
        assert(moved@ == shifted(all[k as int], by as int));
        captions.push(moved);
        assert(speeches(captions@) =~= so_far.push(moved@));
        assert(all_shifted(all.take(k + 1), by as int) =~= all_shifted(
            all.take(k as int),
            by as int,
        ).push(moved@));
    }
    assert(all.take(all.len() as int) =~= all);
}

/// Stitching keeps captions in order: where the cues of a segment follow one another and
/// start no earlier than the segment, they follow the captions before them.
pub proof fn law_stitching_keeps_order(s: Stitching, cues: Seq<Speech>)
    requires
        s.segment_length > s.delay >= 0,
        !s.done,
        s.in_order(),
        follow_one_another(cues),
        cues.len() > 0 ==> cues[0].start >= 0,
    ensures
        s.after(cues).in_order(),
{
    let next = s.after(cues);
    if cues.len() > 0 {
        lemma_split_exists(cues);
        let i = split_index(cues);
        let kept = if s.is_last() {
            cues
        } else {
            cues.take(i + 1)
        };
        let moved = all_shifted(kept, s.start);
        assert(next.captions == s.captions + moved);
        assert forall|a: int, b: int|
            0 <= a && b == a + 1 && b < next.captions.len() implies (
        #[trigger] next.captions[a]).end <= (#[trigger] next.captions[b]).start by {
            let n = s.captions.len() as int;
            if b < n {
                assert(s.captions[a].end <= s.captions[b].start);
            } else if a >= n {
                assert(kept[a - n].end <= kept[b - n].start) by {
                    assert(cues[a - n].end <= cues[b - n].start);
                }
            }
        }
        if !s.is_last() {
            assert(next.captions.last() == shifted(cues[i], s.start));
            if i + 1 < cues.len() {
                assert(cues[i].end <= cues[i + 1].start);
            }
        }
    }
}

/// Every segment but the last moves on: where its cues start one after the other and are
/// shown for some time, the next one starts later.
pub proof fn law_segments_move_on(s: Stitching, cues: Seq<Speech>)
    requires
        s.is_valid(),
        !s.done,
        !s.is_last(),
        cues.len() > 0 ==> cues[0].start >= 0,
        forall|a: int, b: int|
            0 <= a < b < cues.len() ==> (#[trigger] cues[a]).start < (#[trigger] cues[b]).start,
        forall|k: int| 0 <= k < cues.len() ==> (#[trigger] cues[k]).start < cues[k].end,
    ensures
        s.after(cues).start > s.start,
        !s.after(cues).done,
{
    if cues.len() > 0 {
        lemma_split_exists(cues);
        let i = split_index(cues);
        assert(0 <= cues[0].start);
        if i + 1 < cues.len() {
            assert(cues[0].start < cues[i + 1].start);
        } else {
            assert(cues[i].start < cues[i].end);
            if i > 0 {
                assert(cues[0].start < cues[i].start);
            }
        }
    }
}

/// No cue is lost at a split: those up to the split are kept, and those after it start no
/// earlier than the next segment, which transcribes them again.
pub proof fn law_dropped_cues_come_again(s: Stitching, cues: Seq<Speech>, k: int)
    requires
        !s.is_last(),
        0 <= k < cues.len(),
        forall|a: int, b: int|
            0 <= a <= b < cues.len() ==> (#[trigger] cues[a]).start <= (#[trigger] cues[b]).start,
    ensures
        ({
            let kept = s.after(cues).captions.skip(s.captions.len() as int);
            ||| k < kept.len() && kept[k] == shifted(cues[k], s.start)
            ||| k >= kept.len() && shifted(cues[k], s.start).start >= s.after(cues).start
        }),
{
    lemma_split_exists(cues);
    let i = split_index(cues);
    let kept = s.after(cues).captions.skip(s.captions.len() as int);
    assert(kept =~= all_shifted(cues.take(i + 1), s.start));
    if k > i {
        assert(cues[i + 1].start <= cues[k].start);
    }
}

/// Segments keep what was captioned before them, and the last one ends the transcription.
pub proof fn law_captions_are_kept(s: Stitching, cues: Seq<Speech>)
    ensures
        s.captions.is_prefix_of(s.after(cues).captions),
        s.is_last() ==> s.after(cues).done,
{
    assert(s.captions =~= s.after(cues).captions.take(s.captions.len() as int));
}

/// The captions of a whole video follow one another, where the cues of each of its
/// segments do and start no earlier than the segment.
pub proof fn law_video_is_in_order(s: Stitching, segments: Seq<Seq<Speech>>)
    requires
        s.segment_length > s.delay >= 0,
        s.in_order(),
        forall|k: int|
            0 <= k < segments.len() ==> {
                &&& follow_one_another(#[trigger] segments[k])
                &&& segments[k].len() > 0 ==> segments[k][0].start >= 0
            },
    ensures
        s.after_all(segments).in_order(),
        s.captions.is_prefix_of(s.after_all(segments).captions),
        s.after_all(segments).segment_length == s.segment_length,
        s.after_all(segments).delay == s.delay,
    decreases segments.len(),
{
    if segments.len() > 0 {
        let earlier = segments.drop_last();
        assert forall|k: int| 0 <= k < earlier.len() implies {
            &&& follow_one_another(#[trigger] earlier[k])
            &&& earlier[k].len() > 0 ==> earlier[k][0].start >= 0
        } by {
            assert(earlier[k] == segments[k]);
        }
        law_video_is_in_order(s, earlier);
        let before = s.after_all(earlier);
        if !before.done {
            law_stitching_keeps_order(before, segments.last());
            law_captions_are_kept(before, segments.last());
        }
    }
    assert(s.captions =~= s.after_all(segments).captions.take(s.captions.len() as int));
}

/// No segment takes more of the video's audio than a segment may hold: the first one takes
/// what its padding leaves, the others as much as they may hold, and the last one what
/// remains. And every segment but the last takes some, and leaves some.
pub proof fn law_segments_are_bounded(s: Stitching)
    requires
        s.is_valid(),
    ensures
        s.is_last() ==> s.remaining() <= s.segment_length,
        !s.is_last() ==> 0 < s.limit() <= s.segment_length,
        !s.is_last() && s.index == 0 ==> s.limit() + s.delay == s.segment_length,
        !s.is_last() && s.index > 0 ==> s.limit() == s.segment_length,
        !s.is_last() ==> s.start + s.limit() < s.length,
{
}

/// The cues of any passage that starts no earlier than its segment can be stitched in
/// order.
pub proof fn law_cues_stitch_in_order(s: Stitching, p: Passage)
    requires
        s.segment_length > s.delay >= 0,
        !s.done,
        s.in_order(),
        p.words.len() > 0 ==> p.words[0].start >= 0,
    ensures
        s.after(p.cues()).in_order(),
{
    p.law_cues_do_not_overlap();
    p.law_first_cue_starts_with_first_word();
    let cues = p.cues();
    assert forall|a: int, b: int| 0 <= a && b == a + 1 && b < cues.len() implies (
    #[trigger] cues[a]).end <= (#[trigger] cues[b]).start by {
        assert(p.cues()[a].end <= p.cues()[a + 1].start);
    }
    law_stitching_keeps_order(s, cues);
}

/// Audio is never skipped unheard: a silent segment that is not the last one leaves the
/// captions as they are, whatever they are, and the next segment starts exactly where the
/// audio that was extracted for it ended.
pub proof fn law_silence_is_not_skipped(s: Stitching)
    requires
        s.length - s.start > s.segment_length,
        s.segment_length > s.delay >= 0,
    ensures
        ({
            let next = s.after(Seq::empty());
            &&& s.index == 0 ==> next.start == s.start + s.segment_length - s.delay
            &&& s.index != 0 ==> next.start == s.start + s.segment_length
            &&& next.captions == s.captions
            &&& next.index == s.index + 1
            &&& next.prev == Some(Ending::Silence)
            &&& next.done == s.done
            &&& next.length == s.length
            &&& next.delay == s.delay
            &&& next.segment_length == s.segment_length
        }),
{
}

/// The next segment never starts beyond the audio that was extracted, where the cues lie
/// within it, and never before the segment where they do not start before it.
pub proof fn law_no_audio_is_skipped(s: Stitching, cues: Seq<Speech>)
    requires
        s.length - s.start > s.segment_length,
        s.segment_length > s.delay >= 0,
        forall|k: int|
            0 <= k < cues.len() ==> {
                &&& (#[trigger] cues[k]).start <= s.segment_length - (if s.index == 0 {
                    s.delay
                } else {
                    0
                })
                &&& cues[k].end <= s.segment_length - (if s.index == 0 {
                    s.delay
                } else {
                    0
                })
            },
    ensures
        s.after(cues).start <= s.start + s.segment_length - (if s.index == 0 {
            s.delay
        } else {
            0
        }),
        (forall|k: int|
            0 <= k < cues.len() ==> (#[trigger] cues[k]).start >= 0 && cues[k].end >= 0)
            ==> s.after(cues).start >= s.start,
{
    if cues.len() > 0 {
        lemma_split_exists(cues);
        let i = split_index(cues);
        assert(cues[i].end <= s.segment_length);
        if i + 1 < cues.len() {
            assert(cues[i + 1].start <= s.segment_length);
        }
    }
}

/// A segment that is not the last one and transcribes to some cues captions the first so
/// many of them, all but the last one at most if there are several. Their times are counted
/// from the start of the video, their texts stay as they are, and the next segment starts
/// with the cue after them, or where the only cue ends.
pub proof fn law_segment_is_captioned(s: Stitching, cues: Seq<Speech>) -> (kept: int)
    requires
        s.length - s.start > s.segment_length,
        s.segment_length >= 0,
        cues.len() > 0,
    ensures
        is_best_split(cues, kept - 1),
        0 < kept <= cues.len(),
        kept == cues.len() ==> cues.len() == 1,
        ({
            let next = s.after(cues);
            let n = s.captions.len() as int;
            &&& next.captions.len() == n + kept
            &&& forall|k: int| 0 <= k < n ==> #[trigger] next.captions[k] == s.captions[k]
            &&& forall|k: int|
                0 <= k < kept ==> {
                    &&& next.captions[n + k].start == s.start + (#[trigger] cues[k]).start
                    &&& next.captions[n + k].end == s.start + cues[k].end
                    &&& next.captions[n + k].text == cues[k].text
                }
            &&& next.start == s.start + if kept < cues.len() {
                cues[kept].start
            } else {
                cues[0].end
            }
            &&& next.index == s.index + 1
            &&& next.prev == Some(Ending::Phrase(cues[kept - 1].text))
            &&& next.done == s.done
            &&& next.length == s.length
            &&& next.delay == s.delay
            &&& next.segment_length == s.segment_length
        }),
{
    lemma_split_exists(cues);
    let i = split_index(cues);
    let next = s.after(cues);
    let n = s.captions.len() as int;
    assert(next.captions == s.captions + all_shifted(cues.take(i + 1), s.start));
    assert forall|k: int| 0 <= k < i + 1 implies {
        &&& next.captions[n + k].start == s.start + (#[trigger] cues[k]).start
        &&& next.captions[n + k].end == s.start + cues[k].end
        &&& next.captions[n + k].text == cues[k].text
    } by {
        assert(next.captions[n + k] == shifted(cues.take(i + 1)[k], s.start));
    }
    i + 1
}

/// The last segment captions all its cues, their times counted from the start of the video,
/// and is the end of the transcription.
pub proof fn law_last_segment_is_captioned(s: Stitching, cues: Seq<Speech>)
    requires
        s.length - s.start <= s.segment_length,
        s.segment_length >= 0,
    ensures
        ({
            let next = s.after(cues);
            let n = s.captions.len() as int;
            &&& next.done
            &&& next.captions.len() == n + cues.len()
            &&& forall|k: int| 0 <= k < n ==> #[trigger] next.captions[k] == s.captions[k]
            &&& forall|k: int|
                0 <= k < cues.len() ==> {
                    &&& next.captions[n + k].start == s.start + (#[trigger] cues[k]).start
                    &&& next.captions[n + k].end == s.start + cues[k].end
                    &&& next.captions[n + k].text == cues[k].text
                }
            &&& next.start == s.start
            &&& next.index == s.index + if cues.len() > 0 {
                1int
            } else {
                0int
            }
            &&& next.prev == s.prev
        }),
{
    let next = s.after(cues);
    let n = s.captions.len() as int;
    if cues.len() > 0 {
        assert(next.captions == s.captions + all_shifted(cues, s.start));
        assert forall|k: int| 0 <= k < cues.len() implies {
            &&& next.captions[n + k].start == s.start + (#[trigger] cues[k]).start
            &&& next.captions[n + k].end == s.start + cues[k].end
            &&& next.captions[n + k].text == cues[k].text
        } by {
            assert(next.captions[n + k] == shifted(cues[k], s.start));
        }
    }
}

/// A segment is the last one exactly if what remains of the audio fits in a segment; what
/// remains is nothing once the audio is used up.
pub proof fn law_last_segment_fits(s: Stitching)
    requires
        s.segment_length >= 0,
    ensures
        s.is_last() <==> s.length - s.start <= s.segment_length,
        s.start < s.length ==> s.start + s.remaining() == s.length,
        s.start >= s.length ==> s.remaining() == 0,
        s.index == 0 ==> s.limit() + s.delay == s.segment_length,
        s.index != 0 ==> s.limit() == s.segment_length,
{
}

/// Cues whose times are not negative and whose times in the video 64 bits can hold are
/// taken, until the last segment is done. No cues are taken whose times cannot be held.
pub proof fn law_ordinary_cues_are_taken(s: Stitching, cues: Seq<Speech>)
    requires
        s.start >= 0,
    ensures
        !s.done && s.index < u64::MAX && (forall|k: int|
            0 <= k < cues.len() ==> {
                &&& 0 <= (#[trigger] cues[k]).start
                &&& 0 <= cues[k].end
                &&& cues[k].start + s.start <= i64::MAX
                &&& cues[k].end + s.start <= i64::MAX
            }) ==> s.accepts(cues),
        s.accepts(cues) ==> !s.done && s.index < u64::MAX && forall|k: int|
            0 <= k < cues.len() ==> {
                &&& i64::MIN <= (#[trigger] cues[k]).start + s.start <= i64::MAX
                &&& i64::MIN <= cues[k].end + s.start <= i64::MAX
            },
{
    if cues.len() > 0 {
        lemma_split_exists(cues);
        let i = split_index(cues);
        if forall|k: int|
            0 <= k < cues.len() ==> {
                &&& 0 <= (#[trigger] cues[k]).start
                &&& 0 <= cues[k].end
                &&& cues[k].start + s.start <= i64::MAX
                &&& cues[k].end + s.start <= i64::MAX
            } {
            assert(0 <= cues[i].end);
            if i + 1 < cues.len() {
                assert(0 <= cues[i + 1].start);
            }
        }
    }
    if s.accepts(cues) {
        assert forall|k: int| 0 <= k < cues.len() implies {
            &&& i64::MIN <= (#[trigger] cues[k]).start + s.start <= i64::MAX
            &&& i64::MIN <= cues[k].end + s.start <= i64::MAX
        } by {
            assert(in_range(cues[k].start + s.start));
        }
    }
}

} // verus!
