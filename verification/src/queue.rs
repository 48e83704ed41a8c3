//! The order in which videos are processed.

use vstd::prelude::*;

verus! {

/// A video that waits to be transcribed.
#[derive(Clone, Copy, Debug, PartialEq, Eq, Structural)]
pub struct QueuedVideo {
    /// How long its audio is, in nanoseconds.
    pub length: u128,
    /// The rank of its path among the paths of all videos; equal paths have equal ranks.
    pub path_rank: usize,
    /// How long after the start of the video its audio starts, in nanoseconds.
    pub delay: u128,
}

/// Whether video `a` is processed before video `b`: shorter videos first, and those of the
/// same length by path, and then by delay.
pub open spec fn precedes(a: QueuedVideo, b: QueuedVideo) -> bool {
    ||| a.length < b.length
    ||| a.length == b.length && a.path_rank < b.path_rank
    ||| a.length == b.length && a.path_rank == b.path_rank && a.delay < b.delay
}

/// Whether videos stand in the order in which they are processed, none of them twice.
pub open spec fn is_ordered(queue: Seq<QueuedVideo>) -> bool {
    forall|a: int, b: int|
        0 <= a < b < queue.len() ==> precedes(#[trigger] queue[a], #[trigger] queue[b])
}

fn comes_before(a: &QueuedVideo, b: &QueuedVideo) -> (answer: bool)
    ensures
        answer == precedes(*a, *b),
{
    a.length < b.length || (a.length == b.length && (a.path_rank < b.path_rank || (a.path_rank
        == b.path_rank && a.delay < b.delay)))
}

/// Adds a video to the queue, unless it is there already.
pub fn enqueue(queue: &mut Vec<QueuedVideo>, video: QueuedVideo)
    requires
        is_ordered(old(queue)@),
    ensures
        is_ordered(final(queue)@),
        final(queue)@.to_set() == old(queue)@.to_set().insert(video),
{
    let ghost before = queue@;
    let mut at: usize = 0;
    while at < queue.len() && comes_before(&queue[at], &video)
        invariant
            queue@ == before,
            at <= queue@.len(),
            forall|k: int| 0 <= k < at ==> precedes(#[trigger] queue@[k], video),
        decreases queue@.len() - at,
    {
        at += 1;
    }
    if at < queue.len() && !comes_before(&video, &queue[at]) {
        proof {
            assert(before[at as int] == video);
            assert(before.to_set() =~= before.to_set().insert(video));
        }
        return ;
    }
    queue.insert(at, video);
    proof {
        let after = queue@;
        assert forall|a: int, b: int| 0 <= a < b < after.len() implies precedes(
            #[trigger] after[a],
            #[trigger] after[b],
        ) by {
            let x = if a < at {
                a
            } else {
                a - 1
            };
            let y = if b < at {
                b
            } else {
                b - 1
            };
            if a == at {
                assert(precedes(video, before[at as int]));
                if y > at {
                    assert(precedes(before[at as int], before[y]));
                }
                assert(after[b] == before[y]);
            } else if b == at {
                assert(after[a] == before[a]);
            } else {
                assert(after[a] == before[x]);
                assert(after[b] == before[y]);
            }
        }
        assert forall|v: QueuedVideo| after.contains(v) <==> (before.contains(v) || v == video) by {
            if before.contains(v) {
                let k = choose|k: int| 0 <= k < before.len() && before[k] == v;
                if k < at {
                    assert(after[k] == v);
                } else {
                    assert(after[k + 1] == v);
                }
            }
            if v == video {
                assert(after[at as int] == v);
            }
            if after.contains(v) && v != video {
                let k = choose|k: int| 0 <= k < after.len() && after[k] == v;
                if k < at {
                    assert(before[k] == v);
                } else {
                    assert(before[k - 1] == v);
                }
            }
        }
        assert(after.to_set() =~= before.to_set().insert(video));
    }
}

/// Shorter videos are processed first.
pub proof fn law_shorter_first(queue: Seq<QueuedVideo>, a: int, b: int)
    requires
        is_ordered(queue),
        0 <= a < b < queue.len(),
    ensures
        queue[a].length <= queue[b].length,
        queue[a] != queue[b],
{
    assert(precedes(queue[a], queue[b]));
}

/// The order in which videos are found makes no difference: a queue is determined by the
/// videos in it.
pub proof fn law_queue_is_determined(p: Seq<QueuedVideo>, q: Seq<QueuedVideo>)
    requires
        is_ordered(p),
        is_ordered(q),
        p.to_set() == q.to_set(),
    ensures
        p == q,
    decreases p.len(),
{
    if p.len() == 0 {
        if q.len() > 0 {
            assert(q.to_set().contains(q[0]));
            assert(p.contains(q[0]));
        }
        assert(p =~= q);
    } else {
        assert(p.to_set().contains(p.last()));
        assert(q.contains(p.last()));
        assert(q.to_set().contains(q.last()));
        assert(p.contains(q.last()));
        let i = choose|i: int| 0 <= i < p.len() && p[i] == q.last();
        let j = choose|j: int| 0 <= j < q.len() && q[j] == p.last();
        assert(p.last() == q.last()) by {
            if i < p.len() - 1 {
                assert(precedes(p[i], p[p.len() - 1]));
                if j < q.len() - 1 {
                    assert(precedes(q[j], q[q.len() - 1]));
                }
            }
        }
        let shorter_p = p.drop_last();
        let shorter_q = q.drop_last();
        assert forall|v: QueuedVideo| shorter_p.contains(v) <==> shorter_q.contains(v) by {
            if shorter_p.contains(v) {
                lemma_drop_last(p, q, v);
            }
            if shorter_q.contains(v) {
                lemma_drop_last(q, p, v);
            }
        }
        assert(shorter_p.to_set() =~= shorter_q.to_set());
        law_queue_is_determined(shorter_p, shorter_q);
        assert(p =~= shorter_p.push(p.last()));
        assert(q =~= shorter_q.push(q.last()));
    }
}

proof fn lemma_drop_last(p: Seq<QueuedVideo>, q: Seq<QueuedVideo>, v: QueuedVideo)
    requires
        is_ordered(p),
        p.len() > 0,
        q.len() > 0,
        p.to_set() == q.to_set(),
        p.last() == q.last(),
        p.drop_last().contains(v),
    ensures
        q.drop_last().contains(v),
{
    let k = choose|k: int| 0 <= k < p.drop_last().len() && p.drop_last()[k] == v;
    assert(p[k] == v);
    assert(precedes(p[k], p[p.len() - 1]));
    assert(p.to_set().contains(v));
    assert(q.contains(v));
    let m = choose|m: int| 0 <= m < q.len() && q[m] == v;
    assert(q.drop_last()[m] == v);
}

/// Videos stand in the order of their lengths, those of the same length in the order of
/// their paths, and those of the same path in the order of their delays.
pub proof fn law_queue_order(queue: Seq<QueuedVideo>, a: int, b: int)
    requires
        is_ordered(queue),
        0 <= a < queue.len(),
        0 <= b < queue.len(),
    ensures
        queue[a].length < queue[b].length ==> a < b,
        queue[a].length == queue[b].length && queue[a].path_rank < queue[b].path_rank ==> a < b,
        queue[a].length == queue[b].length && queue[a].path_rank == queue[b].path_rank
            && queue[a].delay < queue[b].delay ==> a < b,
        queue[a] == queue[b] ==> a == b,
{
    if a < b {
        assert(precedes(queue[a], queue[b]));
    } else if b < a {
        assert(precedes(queue[b], queue[a]));
    }
}

} // verus!
