//! A download in several segments at once: which segments run, when one is cut
//! in two, and when the download is complete or has to start over as one stream.
use std::collections::{BTreeMap, BTreeSet};
use vstd::prelude::*;

use crate::keys::{sorted_keys_u32, sorted_members};
use crate::segment;
use crate::segment::{build_segments, Segment};
use crate::text;
use crate::text::decimal_text;

verus! {

broadcast use vstd::std_specs::btree::group_btree_axioms;

/// A segment with fewer missing bytes than this is not cut any further.
pub const MIN_SPLIT_REMAINING: u64 = 65536;

/// The lowest index given to a segment that comes from cutting another.
pub const FIRST_SPLIT_INDEX: u32 = 10000;

/// How the run of one segment ended.
#[derive(Clone, Copy, Debug, PartialEq, Eq, Structural)]
pub enum SegmentOutcome {
    /// Every byte of the segment arrived.
    Completed,
    /// The run was interrupted by a cancellation.
    Interrupted,
    /// Retries and mirrors are used up.
    Exhausted,
}

/// What to do once the runnable segments have been started.
#[derive(Clone, Copy, Debug, PartialEq, Eq, Structural)]
pub enum RangedStep {
    /// All segments are complete: check and publish the file.
    Finish,
    /// The segments cannot complete the file: fetch it as one stream.
    Fallback,
    /// Segments are still running: wait for one of them.
    Wait,
}

/// What an existing partial file is good for.
#[derive(Clone, Copy, Debug, PartialEq, Eq, Structural)]
pub enum PartialFile {
    /// It is longer than the file can be and has to be deleted.
    Discard,
    /// Nothing of it counts as downloaded.
    Empty,
    /// As much of it counts as one segment has written in order.
    Resumed,
    /// The download goes on exactly where it was stopped.
    TakenUp,
}

/// The indices of the segments of `s`.
pub open spec fn indices(s: Seq<Segment>) -> Set<u32> {
    s.map_values(|g: Segment| g.index).to_set()
}

/// A download in segments, as plain mathematical values.
#[verifier::ext_equal]
pub struct RangedView {
    /// The size of the file.
    pub total: u64,
    /// The segments not yet reported complete, by index.
    pub segments: Map<u32, Segment>,
    /// The indices of the segments being fetched.
    pub active: Set<u32>,
    /// The index for the next segment that comes from a cut.
    pub next_index: u32,
    /// How many segments may be fetched at once.
    pub max_active: usize,
    /// Whether a segment has failed for good.
    pub degraded: bool,
    /// The segments that have been reported complete.
    pub retired: Set<Segment>,
}

impl RangedView {
    /// Every segment stands under its own index, inside the file; no two overlap,
    /// nor does one overlap what is complete; together they leave no byte out; and
    /// no more run than may.
    pub open spec fn wf(self) -> bool {
        &&& self.segments.dom().finite()
        &&& self.active.finite()
        &&& self.active.len() <= self.max_active <= u32::MAX
        &&& self.active.subset_of(self.segments.dom())
        &&& forall|k: u32| #[trigger]
            self.segments.contains_key(k) ==> {
                &&& self.segments[k].index == k
                &&& self.segments[k].wf()
                &&& self.segments[k].end < self.total
                &&& k < self.next_index
            }
        &&& forall|j: u32, k: u32, o: int|
            #![trigger self.segments[j].contains(o), self.segments[k].contains(o)]
            self.segments.contains_key(j) && self.segments.contains_key(k) && j != k
                && self.segments[j].contains(o) ==> !self.segments[k].contains(o)
        &&& forall|g: Segment, k: u32, o: int|
            #![trigger g.contains(o), self.segments[k].contains(o)]
            self.retired.contains(g) && self.segments.contains_key(k) && g.contains(o)
                ==> !self.segments[k].contains(o)
        &&& forall|o: int| 0 <= o < self.total ==> #[trigger] self.covers(o)
        &&& forall|g: Segment| #[trigger]
            self.retired.contains(g) ==> g.wf() && g.end < self.total && g.is_finished()
    }

    /// Some segment, complete or not, holds the byte at `offset`.
    pub open spec fn covers(self, offset: int) -> bool {
        ||| exists|k: u32|
            #![trigger self.segments[k]]
            self.segments.contains_key(k) && self.segments[k].contains(offset)
        ||| exists|g: Segment| #[trigger] self.retired.contains(g) && g.contains(offset)
    }

    /// The byte at `offset` has been written.
    pub open spec fn written(self, offset: int) -> bool {
        ||| exists|k: u32|
            #![trigger self.segments[k]]
            self.segments.contains_key(k) && self.segments[k].has_written(offset)
        ||| exists|g: Segment| #[trigger] self.retired.contains(g) && g.has_written(offset)
    }

    /// The state that is put by when the download is stopped: nothing runs, and what has
    /// been written counts as before.
    pub open spec fn put_by(self) -> RangedView {
        RangedView { active: Set::empty(), degraded: false, ..self }
    }

    /// What was put by can be taken up again, for a file of `total` bytes and with a partial
    /// file of `part_size`: the file has the same size, and the partial file reaches as
    /// far as what has been written.
    pub open spec fn fits(self, total: u64, part_size: u64) -> bool {
        &&& self.total == total
        &&& part_size <= total
        &&& forall|o: int| #[trigger] self.written(o) ==> o < part_size
    }

    /// One segment holds the whole file and is never cut, so that the file is written in
    /// order.
    pub open spec fn one_writer(self) -> bool {
        &&& self.max_active <= 1 || self.total < MIN_SPLIT_REMAINING
        &&& forall|k: u32| #[trigger]
            self.segments.contains_key(k) ==> self.segments[k].start == 0
                && self.segments[k].end + 1 == self.total
    }

    /// How much of a partial file of `part_size` bytes is known to have been written where
    /// nothing else is known of it: all of it where it is written in order, else nothing.
    pub open spec fn vouched(self, part_size: u64) -> u64 {
        if self.one_writer() {
            part_size
        } else {
            0
        }
    }

    /// The segment under `k` has bytes missing and is not being fetched.
    pub open spec fn is_pending(self, k: u32) -> bool {
        self.segments.contains_key(k) && !self.segments[k].is_finished() && !self.active.contains(k)
    }

    /// The segments that wait to be fetched.
    pub open spec fn pending(self) -> Set<u32> {
        self.segments.dom().filter(|k: u32| self.is_pending(k))
    }

    /// `started` are waiting segments, in order of their indices.
    pub open spec fn picks(self, started: Seq<Segment>) -> bool {
        &&& forall|p: int|
            0 <= p < started.len() ==> self.is_pending((#[trigger] started[p]).index) && started[p]
                == self.segments[started[p].index]
        &&& forall|p: int, q: int|
            0 <= p < q < started.len() ==> (#[trigger] started[p]).index < (
            #[trigger] started[q]).index
    }

    /// `started` are the segments to start: the waiting segments with the lowest
    /// indices, as many as may run besides those that do.
    pub open spec fn is_start(self, started: Seq<Segment>) -> bool {
        if self.degraded {
            started.len() == 0
        } else {
            &&& self.picks(started)
            &&& started.len() == (if self.pending().len() < self.max_active - self.active.len() {
                self.pending().len() as int
            } else {
                self.max_active - self.active.len()
            })
            &&& forall|k: u32, p: int|
                #![trigger self.is_pending(k), started[p]]
                self.is_pending(k) && !indices(started).contains(k) && 0 <= p < started.len()
                    ==> started[p].index < k
        }
    }

    /// No segment has bytes missing.
    pub open spec fn all_finished(self) -> bool {
        forall|k: u32| #[trigger] self.segments.contains_key(k) ==> self.segments[k].is_finished()
    }

    /// The segment under `k` is being fetched and has bytes missing.
    pub open spec fn is_running(self, k: u32) -> bool {
        self.segments.contains_key(k) && self.active.contains(k) && !self.segments[k].is_finished()
    }

    /// Of the running segments `k` has the most bytes missing; of several with as
    /// many, it is the one with the lowest index.
    pub open spec fn is_slowest(self, k: u32) -> bool {
        &&& self.is_running(k)
        &&& forall|j: u32| #[trigger]
            self.is_running(j) ==> {
                ||| self.segments[j].missing() < self.segments[k].missing()
                ||| self.segments[j].missing() == self.segments[k].missing() && k <= j
            }
    }

    /// The running segment `k` is due to be cut in two.
    pub open spec fn is_due(self, k: u32) -> bool {
        &&& !self.degraded
        &&& self.active.len() < self.max_active
        &&& self.next_index < u32::MAX
        &&& self.is_slowest(k)
        &&& self.segments[k].missing() >= MIN_SPLIT_REMAINING
    }

    /// The table still holds the segment that `seg` stands for, under the same
    /// index and up to the same end.
    pub open spec fn knows(self, seg: Segment) -> bool {
        self.segments.contains_key(seg.index) && self.segments[seg.index].end == seg.end
    }

    /// The state after the run of `seg` has written `n` more bytes.
    pub open spec fn recorded(self, seg: Segment, n: u64) -> RangedView {
        if self.knows(seg) {
            let cur = self.segments[seg.index];
            RangedView {
                segments: self.segments.insert(
                    seg.index,
                    Segment { downloaded: cur.downloaded.wrapping_add(n), ..cur },
                ),
                ..self
            }
        } else {
            self
        }
    }

    /// The state after all that the run of `seg` has written is to be fetched again.
    pub open spec fn rewound(self, seg: Segment) -> RangedView {
        if self.knows(seg) {
            RangedView {
                segments: self.segments.insert(seg.index, self.segments[seg.index].rewound()),
                ..self
            }
        } else {
            self
        }
    }

    /// What to do once nothing more can be started.
    pub open spec fn step(self) -> RangedStep {
        if self.active.len() > 0 {
            RangedStep::Wait
        } else if self.all_finished() && !self.degraded {
            RangedStep::Finish
        } else {
            RangedStep::Fallback
        }
    }

    /// The state with the first `length` bytes of the file counted as written, and no
    /// others of the segments in the table.
    pub open spec fn resumed(self, length: u64) -> RangedView {
        RangedView {
            segments: self.segments.map_values(|g: Segment| g.aligned(length)),
            ..self
        }
    }

    /// The state after segment `k` has been cut: neither half runs.
    pub open spec fn split(self, k: u32) -> RangedView {
        RangedView {
            segments: self.segments.insert(k, self.segments[k].lower_half()).insert(
                self.next_index,
                self.segments[k].upper_half(self.next_index),
            ),
            active: self.active.remove(k),
            next_index: (self.next_index + 1) as u32,
            ..self
        }
    }

    /// The state after the run of `seg` ended. A run whose segment has been cut
    /// meanwhile is of no account; one that reports its segment complete is believed
    /// if the count says so too, else the segment waits to be fetched again.
    pub open spec fn ended(self, seg: Segment, outcome: SegmentOutcome) -> RangedView {
        let k = seg.index;
        let complete = outcome == SegmentOutcome::Completed && self.segments[k].is_finished();
        if !self.knows(seg) {
            self
        } else {
            RangedView {
                active: self.active.remove(k),
                segments: if complete {
                    self.segments.remove(k)
                } else {
                    self.segments
                },
                retired: if complete {
                    self.retired.insert(self.segments[k])
                } else {
                    self.retired
                },
                degraded: self.degraded || outcome == SegmentOutcome::Exhausted,
                ..self
            }
        }
    }
}

/// A download in segments.
pub struct RangedRun {
    total: u64,
    segments: BTreeMap<u32, Segment>,
    active: BTreeSet<u32>,
    next_index: u32,
    max_active: usize,
    degraded: bool,
    retired: Vec<Segment>,
}

impl View for RangedRun {
    type V = RangedView;

    closed spec fn view(&self) -> RangedView {
        RangedView {
            total: self.total,
            segments: self.segments@,
            active: self.active@,
            next_index: self.next_index,
            max_active: self.max_active,
            degraded: self.degraded,
            retired: self.retired@.to_set(),
        }
    }
}

/// One more retired segment is one more member of their set.
proof fn lemma_retired_push(s: Seq<Segment>, g: Segment)
    ensures
        s.push(g).to_set() == s.to_set().insert(g),
{
    assert forall|x: Segment| s.push(g).to_set().contains(x) <==> s.to_set().insert(g).contains(
        x,
    ) by {
        if s.contains(x) {
            let i = choose|i: int| 0 <= i < s.len() && s[i] == x;
            assert(s.push(g)[i] == x);
        }
        assert(s.push(g)[s.len() as int] == g);
    }
    assert(s.push(g).to_set() =~= s.to_set().insert(g));
}

/// What is covered depends on the segments alone.
proof fn lemma_same_cover(v: RangedView, w: RangedView)
    requires
        v.wf(),
        w.segments == v.segments,
        w.retired == v.retired,
        w.total == v.total,
    ensures
        forall|o: int| 0 <= o < w.total ==> #[trigger] w.covers(o),
{
    assert forall|o: int| 0 <= o < w.total implies #[trigger] w.covers(o) by {
        assert(v.covers(o));
        if exists|j: u32|
            #![trigger v.segments[j]]
            v.segments.contains_key(j) && v.segments[j].contains(o) {
            let j = choose|j: u32|
                #![trigger v.segments[j]]
                v.segments.contains_key(j) && v.segments[j].contains(o);
            assert(w.segments[j].contains(o));
        } else {
            let r = choose|r: Segment| #[trigger] v.retired.contains(r) && r.contains(o);
            assert(w.retired.contains(r));
        }
    }
}

/// What has been written depends on the segments alone.
proof fn lemma_same_written(v: RangedView, w: RangedView, offset: int)
    requires
        w.segments == v.segments,
        w.retired == v.retired,
    ensures
        w.written(offset) <==> v.written(offset),
{
}

/// Cutting a running segment keeps the segments in order.
proof fn lemma_split_wf(v: RangedView, k: u32)
    requires
        v.wf(),
        v.is_running(k),
        v.next_index < u32::MAX,
        v.segments[k].size() >= 2,
    ensures
        v.split(k).wf(),
{
    let w = v.split(k);
    let g = v.segments[k];
    let a = g.lower_half();
    let b = g.upper_half(v.next_index);
    segment::law_split_preserves(g, v.next_index);
    assert(v.segments.contains_key(k));
    assert(k < v.next_index);
    assert(w.segments[k] == a);
    assert(w.segments[v.next_index] == b);
    assert forall|j: u32| w.segments.contains_key(j) && j != k && j != v.next_index implies
        #[trigger] w.segments[j] == v.segments[j] && v.segments.contains_key(j) by {}
    assert forall|i: u32, j: u32, o: int|
        #![trigger w.segments[i].contains(o), w.segments[j].contains(o)]
        w.segments.contains_key(i) && w.segments.contains_key(j) && i != j
            && w.segments[i].contains(o) implies !w.segments[j].contains(o) by {
        assert(g.contains(o) <==> a.contains(o) || b.contains(o));
        assert(!(a.contains(o) && b.contains(o)));
        let vi = if i == v.next_index {
            k
        } else {
            i
        };
        let vj = if j == v.next_index {
            k
        } else {
            j
        };
        if vi != vj {
            assert(v.segments[vi].contains(o));
            assert(!v.segments[vj].contains(o));
        }
    }
    assert forall|r: Segment, j: u32, o: int|
        #![trigger r.contains(o), w.segments[j].contains(o)]
        w.retired.contains(r) && w.segments.contains_key(j) && r.contains(o) implies !w.segments[j].contains(
        o,
    ) by {
        assert(g.contains(o) <==> a.contains(o) || b.contains(o));
        let vj = if j == v.next_index {
            k
        } else {
            j
        };
        assert(!v.segments[vj].contains(o));
    }
    assert forall|o: int| 0 <= o < w.total implies #[trigger] w.covers(o) by {
        assert(v.covers(o));
        assert(g.contains(o) <==> a.contains(o) || b.contains(o));
        if exists|j: u32|
            #![trigger v.segments[j]]
            v.segments.contains_key(j) && v.segments[j].contains(o) {
            let j = choose|j: u32|
                #![trigger v.segments[j]]
                v.segments.contains_key(j) && v.segments[j].contains(o);
            if j == k {
                assert(w.segments[k].contains(o) || w.segments[v.next_index].contains(o));
            } else {
                assert(w.segments[j].contains(o));
            }
        } else {
            let r = choose|r: Segment| #[trigger] v.retired.contains(r) && r.contains(o);
            assert(w.retired.contains(r));
        }
    }
}

/// The end of a run keeps the segments in order.
proof fn lemma_ended_wf(v: RangedView, seg: Segment, outcome: SegmentOutcome)
    requires
        v.wf(),
    ensures
        v.ended(seg, outcome).wf(),
{
    let w = v.ended(seg, outcome);
    let k = seg.index;
    if outcome == SegmentOutcome::Completed && v.knows(seg) && v.segments[k].is_finished() {
        let g = v.segments[k];
        assert forall|o: int| 0 <= o < w.total implies #[trigger] w.covers(o) by {
            assert(v.covers(o));
            if exists|j: u32|
                #![trigger v.segments[j]]
                v.segments.contains_key(j) && v.segments[j].contains(o) {
                let j = choose|j: u32|
                    #![trigger v.segments[j]]
                    v.segments.contains_key(j) && v.segments[j].contains(o);
                if j == k {
                    assert(w.retired.contains(g) && g.contains(o));
                } else {
                    assert(w.segments[j] == v.segments[j] && w.segments.contains_key(j));
                }
            } else {
                let r = choose|r: Segment| #[trigger] v.retired.contains(r) && r.contains(o);
                assert(w.retired.contains(r));
            }
        }
        assert forall|r: Segment, j: u32, o: int|
            #![trigger r.contains(o), w.segments[j].contains(o)]
            w.retired.contains(r) && w.segments.contains_key(j) && r.contains(
                o,
            ) implies !w.segments[j].contains(o) by {
            assert(w.segments[j] == v.segments[j]);
            if !v.retired.contains(r) {
                assert(v.segments[k].contains(o));
            }
        }
    } else {
        assert(w.segments =~= v.segments);
        lemma_same_cover(v, w);
    }
}

/// Reading the progress off a partial file keeps the segments in order.
proof fn lemma_resumed_wf(v: RangedView, part_size: u64)
    requires
        v.wf(),
    ensures
        v.resumed(part_size).wf(),
{
    let w = v.resumed(part_size);
    assert(w.segments.dom() =~= v.segments.dom());
    assert forall|k: u32| v.segments.contains_key(k) implies #[trigger] w.segments[k]
        == v.segments[k].aligned(part_size) by {}
    lemma_moved_wf(v, w);
}

/// Progress alone does not disturb the order of the segments.
proof fn lemma_moved_wf(v: RangedView, w: RangedView)
    requires
        v.wf(),
        w == (RangedView { segments: w.segments, ..v }),
        w.segments.dom() == v.segments.dom(),
        forall|k: u32| #[trigger]
            v.segments.contains_key(k) ==> w.segments[k] == (Segment {
                downloaded: w.segments[k].downloaded,
                ..v.segments[k]
            }),
    ensures
        w.wf(),
{
    assert forall|k: u32| #[trigger] w.segments.contains_key(k) implies {
        &&& w.segments[k].index == k
        &&& w.segments[k].wf()
        &&& w.segments[k].end < w.total
        &&& k < w.next_index
    } by {
        assert(v.segments.contains_key(k));
    }
    assert forall|j: u32, k: u32, o: int|
        #![trigger w.segments[j].contains(o), w.segments[k].contains(o)]
        w.segments.contains_key(j) && w.segments.contains_key(k) && j != k
            && w.segments[j].contains(o) implies !w.segments[k].contains(o) by {
        assert(v.segments.contains_key(j) && v.segments.contains_key(k));
        assert(v.segments[j].contains(o));
        assert(!v.segments[k].contains(o));
    }
    assert forall|g: Segment, k: u32, o: int|
        #![trigger g.contains(o), w.segments[k].contains(o)]
        w.retired.contains(g) && w.segments.contains_key(k) && g.contains(o) implies !w.segments[k].contains(
        o,
    ) by {
        assert(v.segments.contains_key(k));
        assert(!v.segments[k].contains(o));
    }
    assert forall|o: int| 0 <= o < w.total implies #[trigger] w.covers(o) by {
        assert(v.covers(o));
        if exists|j: u32|
            #![trigger v.segments[j]]
            v.segments.contains_key(j) && v.segments[j].contains(o) {
            let j = choose|j: u32|
                #![trigger v.segments[j]]
                v.segments.contains_key(j) && v.segments[j].contains(o);
            assert(w.segments.contains_key(j) && w.segments[j].contains(o));
        } else {
            let r = choose|r: Segment| #[trigger] v.retired.contains(r) && r.contains(o);
            assert(w.retired.contains(r));
        }
    }
}

/// An index among those of `s` belongs to one of its segments.
proof fn lemma_indices(s: Seq<Segment>, k: u32)
    ensures
        indices(s).contains(k) <==> exists|p: int| 0 <= p < s.len() && (#[trigger] s[p]).index == k,
{
    let m = s.map_values(|g: Segment| g.index);
    if indices(s).contains(k) {
        let p = choose|p: int| 0 <= p < m.len() && m[p] == k;
        assert(s[p].index == k);
    }
    if exists|p: int| 0 <= p < s.len() && (#[trigger] s[p]).index == k {
        let p = choose|p: int| 0 <= p < s.len() && (#[trigger] s[p]).index == k;
        assert(m[p] == k);
    }
}

/// One more segment brings one more index.
proof fn lemma_indices_push(s: Seq<Segment>, g: Segment)
    ensures
        indices(s.push(g)) == indices(s).insert(g.index),
{
    assert forall|k: u32| indices(s.push(g)).contains(k) <==> indices(s).insert(
        g.index,
    ).contains(k) by {
        lemma_indices(s, k);
        lemma_indices(s.push(g), k);
        if indices(s).contains(k) {
            let p = choose|p: int| 0 <= p < s.len() && (#[trigger] s[p]).index == k;
            assert(s.push(g)[p].index == k);
        }
        assert(s.push(g)[s.len() as int].index == g.index);
        if indices(s.push(g)).contains(k) && k != g.index {
            let p = choose|p: int| 0 <= p < s.push(g).len() && (#[trigger] s.push(g)[p]).index == k;
            assert(s[p].index == k);
        }
    }
    assert(indices(s.push(g)) =~= indices(s).insert(g.index));
}

/// A longer prefix holds one more key.
proof fn lemma_take_push(keys: Seq<u32>, i: int)
    requires
        0 <= i < keys.len(),
    ensures
        forall|x: u32|
            #[trigger] keys.take(i + 1).contains(x) <==> keys.take(i).contains(x) || x == keys[i],
{
    let done = keys.take(i);
    assert(keys.take(i + 1) =~= done.push(keys[i]));
    assert forall|x: u32|
        #[trigger] keys.take(i + 1).contains(x) <==> done.contains(x) || x == keys[i] by {
        if done.contains(x) {
            let p = choose|p: int| 0 <= p < done.len() && done[p] == x;
            assert(done.push(keys[i])[p] == x);
        }
        assert(done.push(keys[i])[i] == keys[i]);
    }
}

/// Segments picked from those that wait are as many as their indices.
proof fn lemma_picks_len(v: RangedView, started: Seq<Segment>)
    requires
        v.picks(started),
    ensures
        indices(started).finite(),
        indices(started).len() == started.len(),
{
    let m = started.map_values(|g: Segment| g.index);
    assert forall|p: int, q: int| 0 <= p < m.len() && 0 <= q < m.len() && p != q implies m[p]
        != m[q] by {
        if p < q {
            assert(started[p].index < started[q].index);
        } else {
            assert(started[q].index < started[p].index);
        }
    }
    m.unique_seq_to_set();
}

/// No more can be picked than wait.
proof fn lemma_picks_bound(v: RangedView, started: Seq<Segment>)
    requires
        v.wf(),
        v.picks(started),
    ensures
        started.len() <= v.pending().len(),
        v.pending().finite(),
{
    lemma_picks_len(v, started);
    assert forall|k: u32| indices(started).contains(k) implies v.pending().contains(k) by {
        lemma_indices(started, k);
    }
    vstd::set_lib::lemma_len_subset(indices(started), v.pending());
}

/// Starting segments keeps the segments in order.
proof fn lemma_started_wf(v: RangedView, w: RangedView)
    requires
        v.wf(),
        w == (RangedView { active: w.active, ..v }),
        w.active.finite(),
        w.active.len() <= v.max_active,
        w.active.subset_of(v.segments.dom()),
    ensures
        w.wf(),
{
    lemma_same_cover(v, w);
}

/// The state before the first segment is fetched.
pub open spec fn initial_run(
    total: u64,
    segment_size: u64,
    max_segments: u32,
    split_threshold: u64,
) -> RangedView {
    let plan = segment::planned_segments(total, segment_size, max_segments, split_threshold);
    RangedView {
        total,
        segments: Map::new(|k: u32| k < plan.len(), |k: u32| plan[k as int]),
        active: Set::empty(),
        next_index: if plan.len() > FIRST_SPLIT_INDEX {
            plan.len() as u32
        } else {
            FIRST_SPLIT_INDEX
        },
        max_active: max_segments as usize,
        degraded: false,
        retired: Set::empty(),
    }
}

/// The first state is in order.
proof fn lemma_initial_wf(
    total: u64,
    segment_size: u64,
    max_segments: u32,
    split_threshold: u64,
    v: RangedView,
)
    requires
        total > 0,
        total > split_threshold ==> segment_size > 0,
        v == initial_run(total, segment_size, max_segments, split_threshold),
        v.segments.dom().finite(),
    ensures
        v.wf(),
{
    let plan = segment::planned_segments(total, segment_size, max_segments, split_threshold);
    segment::law_segments_tile(total, segment_size, max_segments, split_threshold);
    assert forall|k: u32| #[trigger] v.segments.contains_key(k) implies {
        &&& v.segments[k].index == k
        &&& v.segments[k].wf()
        &&& v.segments[k].end < v.total
        &&& k < v.next_index
    } by {
        assert(v.segments[k] == plan[k as int]);
        segment::lemma_tiles_prefix(plan, total as int, k + 1);
    }
    assert forall|j: u32, k: u32, o: int|
        #![trigger v.segments[j].contains(o), v.segments[k].contains(o)]
        v.segments.contains_key(j) && v.segments.contains_key(k) && j != k
            && v.segments[j].contains(o) implies !v.segments[k].contains(o) by {
        assert(v.segments[j] == plan[j as int] && v.segments[k] == plan[k as int]);
        assert(v.segments[j].end < v.total);
        segment::law_tiles_cover(plan, total as int, o);
    }
    assert forall|o: int| 0 <= o < v.total implies #[trigger] v.covers(o) by {
        segment::law_tiles_cover(plan, total as int, o);
        let i = choose|i: int| 0 <= i < plan.len() && (#[trigger] plan[i]).contains(o);
        assert(v.segments.contains_key(i as u32) && v.segments[i as u32].contains(o));
    }
}

impl RangedRun {
    /// Cuts a file of `total` bytes and starts with nothing fetched.
    pub fn new(total: u64, segment_size: u64, max_segments: u32, split_threshold: u64) -> (r: Self)
        requires
            total > 0,
            total > split_threshold ==> segment_size > 0,
        ensures
            r@ == initial_run(total, segment_size, max_segments, split_threshold),
            r@.wf(),
    {
        let plan: Vec<Segment> = build_segments(total, segment_size, max_segments, split_threshold);
        proof {
            segment::law_segments_tile(total, segment_size, max_segments, split_threshold);
        }
        let n: usize = plan.len();
        let mut segments: BTreeMap<u32, Segment> = BTreeMap::new();
        let mut i: usize = 0;
        while i < n
            invariant
                0 <= i <= n,
                n == plan@.len(),
                n <= u32::MAX,
                forall|j: int| 0 <= j < n ==> (#[trigger] plan@[j]).index == j,
                segments@ == Map::new(|k: u32| k < i, |k: u32| plan@[k as int]),
            decreases n - i,
        {
            let seg: Segment = plan[i];
            segments.insert(seg.index, seg);
            i = i + 1;
            assert(segments@ =~= Map::new(|k: u32| k < i, |k: u32| plan@[k as int]));
        }
        let next_index: u32 = if n > FIRST_SPLIT_INDEX as usize {
            n as u32
        } else {
            FIRST_SPLIT_INDEX
        };
        let run = RangedRun {
            total,
            segments,
            active: BTreeSet::new(),
            next_index,
            max_active: max_segments as usize,
            degraded: false,
            retired: Vec::new(),
        };
        assert(run@.retired =~= Set::<Segment>::empty());
        proof {
            lemma_initial_wf(total, segment_size, max_segments, split_threshold, run@);
        }
        run
    }

    /// Whether one segment holds the whole file and is never cut.
    fn has_one_writer(&self) -> (b: bool)
        requires
            self@.wf(),
        ensures
            b == self@.one_writer(),
    {
        if self.max_active > 1 && self.total >= MIN_SPLIT_REMAINING {
            return false;
        }
        let keys: Vec<u32> = sorted_keys_u32(&self.segments);
        let n: usize = keys.len();
        let mut i: usize = 0;
        while i < n
            invariant
                0 <= i <= n,
                n == keys@.len(),
                self@.wf(),
                self@.max_active <= 1 || self@.total < MIN_SPLIT_REMAINING,
                crate::keys::lists_keys_u32(keys@, self@.segments),
                forall|j: int|
                    0 <= j < i ==> self@.segments[#[trigger] keys@[j]].start == 0
                        && self@.segments[keys@[j]].end + 1 == self@.total,
            decreases n - i,
        {
            let k: u32 = keys[i];
            assert(keys@.to_set().contains(k));
            assert(self@.segments.contains_key(k));
            if let Some(seg) = self.segments.get(&k) {
                if seg.start != 0 || seg.end != self.total - 1 {
                    return false;
                }
            }
            i = i + 1;
        }
        proof {
            assert forall|k: u32| #[trigger] self@.segments.contains_key(k) implies self@.segments[k].start
                == 0 && self@.segments[k].end + 1 == self@.total by {
                assert(keys@.to_set().contains(k));
                let j = choose|j: int| 0 <= j < keys@.len() && keys@[j] == k;
                assert(self@.segments[keys@[j]].start == 0);
            }
        }
        true
    }

    /// Takes up a partial file of `part_size` bytes of which nothing is known but its size.
    /// Only what one segment writes in order counts; the rest is fetched again.
    pub fn resume_from(&mut self, part_size: u64) -> (r: PartialFile)
        requires
            old(self)@.wf(),
        ensures
            final(self)@.wf(),
            r == (if part_size > old(self)@.total {
                PartialFile::Discard
            } else if old(self)@.vouched(part_size) == 0 {
                PartialFile::Empty
            } else {
                PartialFile::Resumed
            }),
            final(self)@ == (if r == PartialFile::Resumed {
                old(self)@.resumed(old(self)@.vouched(part_size))
            } else {
                old(self)@
            }),
    {
        if part_size > self.total {
            return PartialFile::Discard;
        }
        if part_size == 0 || !self.has_one_writer() {
            return PartialFile::Empty;
        }
        self.align(part_size);
        PartialFile::Resumed
    }

    /// The state after a stream has written the first `received` bytes of a file of `total`
    /// bytes.
    pub fn of_stream(
        total: u64,
        segment_size: u64,
        max_segments: u32,
        split_threshold: u64,
        received: u64,
    ) -> (r: Self)
        requires
            total > 0,
            total > split_threshold ==> segment_size > 0,
        ensures
            r@.wf(),
            r@ == initial_run(total, segment_size, max_segments, split_threshold).resumed(received),
    {
        let mut run = RangedRun::new(total, segment_size, max_segments, split_threshold);
        run.align(received);
        run
    }

    /// Stops the download: nothing runs any more, and all that has been written is kept in
    /// mind.
    pub fn put_by(&mut self)
        requires
            old(self)@.wf(),
        ensures
            final(self)@.wf(),
            final(self)@ == old(self)@.put_by(),
    {
        let ghost v = self@;
        self.active = BTreeSet::new();
        self.degraded = false;
        proof {
            assert(self@.active =~= Set::<u32>::empty());
            lemma_started_wf(v, RangedView { active: self@.active, ..v });
            lemma_same_cover(v, self@);
        }
    }

    /// How far what has been written reaches: one past the last byte of it, or zero.
    fn reach(&self) -> (n: u64)
        requires
            self@.wf(),
        ensures
            n <= self@.total,
            forall|o: int| #[trigger] self@.written(o) ==> o < n,
            n > 0 ==> self@.written(n - 1),
    {
        let keys: Vec<u32> = sorted_keys_u32(&self.segments);
        let count: usize = keys.len();
        let mut n: u64 = 0;
        let mut i: usize = 0;
        while i < count
            invariant
                0 <= i <= count,
                count == keys@.len(),
                self@.wf(),
                crate::keys::lists_keys_u32(keys@, self@.segments),
                n <= self@.total,
                n > 0 ==> self@.written(n - 1),
                forall|j: int, o: int|
                    0 <= j < i && #[trigger] self@.segments[keys@[j]].has_written(o) ==> o < n,
            decreases count - i,
        {
            let k: u32 = keys[i];
            assert(keys@.to_set().contains(k));
            assert(self@.segments.contains_key(k));
            if let Some(seg) = self.segments.get(&k) {
                let m: u64 = seg.reach();
                assert(m > 0 ==> self@.segments[k].has_written(m - 1));
                if m > n {
                    n = m;
                }
            }
            i = i + 1;
        }
        let done: usize = self.retired.len();
        let mut i: usize = 0;
        while i < done
            invariant
                0 <= i <= done,
                done == self.retired@.len(),
                self@.wf(),
                n <= self@.total,
                n > 0 ==> self@.written(n - 1),
                forall|k: u32, o: int|
                    self@.segments.contains_key(k) && #[trigger] self@.segments[k].has_written(o)
                        ==> o < n,
                forall|j: int, o: int|
                    0 <= j < i && #[trigger] self.retired@[j].has_written(o) ==> o < n,
            decreases done - i,
        {
            let seg: Segment = self.retired[i];
            assert(self@.retired.contains(seg));
            let m: u64 = seg.reach();
            if m > n {
                n = m;
            }
            i = i + 1;
        }
        n
    }

    /// Whether the download can go on from here, for a file of `total` bytes and with a
    /// partial file of `part_size`.
    pub fn fits(&self, total: u64, part_size: u64) -> (b: bool)
        requires
            self@.wf(),
        ensures
            b == self@.fits(total, part_size),
    {
        let n: u64 = self.reach();
        proof {
            if self@.fits(total, part_size) && n > 0 {
                assert(self@.written(n - 1));
            }
        }
        self.total == total && part_size <= total && n <= part_size
    }

    /// Begins the download of a file of `total` bytes, of which a partial file of `part_size`
    /// bytes is there. It goes on exactly where it was stopped if what was put by then
    /// fits; it starts anew if that does not. Where nothing was put by, the
    /// partial file itself is all there is to go by.
    pub fn begin(
        stopped: Option<RangedRun>,
        total: u64,
        segment_size: u64,
        max_segments: u32,
        split_threshold: u64,
        part_size: u64,
    ) -> (r: (RangedRun, PartialFile))
        requires
            total > 0,
            total > split_threshold ==> segment_size > 0,
            stopped matches Some(t) ==> t@.wf(),
        ensures
            r.0@.wf(),
            ({
                let fresh = initial_run(total, segment_size, max_segments, split_threshold);
                if part_size > total {
                    r.1 == PartialFile::Discard && r.0@ == fresh
                } else {
                    match stopped {
                        Some(t) => if t@.fits(total, part_size) {
                            r.1 == PartialFile::TakenUp && r.0@ == t@.put_by()
                        } else {
                            r.1 == PartialFile::Empty && r.0@ == fresh
                        },
                        None => if fresh.vouched(part_size) == 0 {
                            r.1 == PartialFile::Empty && r.0@ == fresh
                        } else {
                            r.1 == PartialFile::Resumed && r.0@ == fresh.resumed(
                                fresh.vouched(part_size),
                            )
                        },
                    }
                }
            }),
    {
        let mut fresh = RangedRun::new(total, segment_size, max_segments, split_threshold);
        match stopped {
            Some(t) => {
                if t.fits(total, part_size) {
                    let mut t = t;
                    t.put_by();
                    (t, PartialFile::TakenUp)
                } else if part_size > total {
                    (fresh, PartialFile::Discard)
                } else {
                    (fresh, PartialFile::Empty)
                }
            },
            None => {
                let verdict: PartialFile = fresh.resume_from(part_size);
                (fresh, verdict)
            },
        }
    }

    /// Counts the first `part_size` bytes of the file as written.
    fn align(&mut self, part_size: u64)
        requires
            old(self)@.wf(),
        ensures
            final(self)@.wf(),
            final(self)@ == old(self)@.resumed(part_size),
    {
        let keys: Vec<u32> = sorted_keys_u32(&self.segments);
        let n: usize = keys.len();
        let ghost before = self@;
        let mut i: usize = 0;
        proof {
            assert(before.segments =~= before.segments.map_entries(
                |k: u32, g: Segment| if keys@.take(0).contains(k) { g.aligned(part_size) } else { g },
            ));
        }
        while i < n
            invariant
                0 <= i <= n,
                n == keys@.len(),
                before.wf(),
                crate::keys::lists_keys_u32(keys@, before.segments),
                self@ == (RangedView {
                    segments: before.segments.map_entries(
                        |k: u32, g: Segment|
                            if keys@.take(i as int).contains(k) {
                                g.aligned(part_size)
                            } else {
                                g
                            },
                    ),
                    ..before
                }),
            decreases n - i,
        {
            let k: u32 = keys[i];
            assert(before.segments.dom().contains(k)) by {
                assert(keys@.to_set().contains(k));
            }
            assert(!keys@.take(i as int).contains(k));
            if let Some(found) = self.segments.get(&k) {
                let mut seg: Segment = *found;
                seg.align_to_part(part_size);
                self.segments.insert(k, seg);
            }
            i = i + 1;
            assert(self@.segments =~= before.segments.map_entries(
                |k: u32, g: Segment|
                    if keys@.take(i as int).contains(k) {
                        g.aligned(part_size)
                    } else {
                        g
                    },
            )) by {
                lemma_take_push(keys@, i - 1);
            }
        }
        proof {
            assert(keys@.take(n as int) =~= keys@);
            assert(self@.segments =~= before.resumed(part_size).segments) by {
                assert forall|k: u32| before.segments.contains_key(k) implies keys@.contains(k) by {
                    assert(keys@.to_set().contains(k));
                }
            }
            lemma_resumed_wf(before, part_size);
        }
    }

    /// Starts the segments that wait, lowest index first, as long as more may run.
    /// Once a segment has failed for good no other is started.
    pub fn start_pending(&mut self) -> (started: Vec<Segment>)
        requires
            old(self)@.wf(),
        ensures
            final(self)@.wf(),
            old(self)@.is_start(started@),
            final(self)@ == (RangedView {
                active: old(self)@.active.union(indices(started@)),
                ..old(self)@
            }),
    {
        let mut started: Vec<Segment> = Vec::new();
        let ghost v = self@;
        proof {
            assert(v.active.union(indices(started@)) =~= v.active);
        }
        if self.degraded {
            return started;
        }
        let keys: Vec<u32> = sorted_keys_u32(&self.segments);
        let n: usize = keys.len();
        let mut i: usize = 0;
        while i < n && self.active.len() < self.max_active
            invariant
                0 <= i <= n,
                n == keys@.len(),
                v.wf(),
                !v.degraded,
                crate::keys::lists_keys_u32(keys@, v.segments),
                self@ == (RangedView { active: v.active.union(indices(started@)), ..v }),
                self@.active.finite(),
                self@.active.len() == v.active.len() + started@.len(),
                self@.active.len() <= v.max_active,
                v.picks(started@),
                forall|k: u32|
                    keys@.take(i as int).contains(k) && v.is_pending(k) ==> #[trigger] indices(
                        started@,
                    ).contains(k),
                forall|p: int| 0 <= p < started@.len() ==> keys@.take(i as int).contains((#[trigger] started@[p]).index),
            decreases n - i,
        {
            let k: u32 = keys[i];
            let ghost before = started@;
            assert(v.segments.contains_key(k)) by {
                assert(keys@.to_set().contains(k));
            }
            proof {
                lemma_take_push(keys@, i as int);
                assert(!keys@.take(i as int).contains(k));
                if indices(before).contains(k) {
                    lemma_indices(before, k);
                }
                assert forall|p: int| 0 <= p < before.len() implies (#[trigger] before[p]).index < k by {
                    let q = choose|q: int| 0 <= q < i && keys@.take(i as int)[q] == before[p].index;
                    assert(keys@[q] < keys@[i as int]);
                }
            }
            if let Some(found) = self.segments.get(&k) {
                let seg: Segment = *found;
                if !seg.finished() && !self.active.contains(&k) {
                    self.active.insert(k);
                    started.push(seg);
                    proof {
                        lemma_indices_push(before, seg);
                        assert(self@.active =~= v.active.union(indices(started@)));
                        assert forall|a: int, b: int| 0 <= a < b < started@.len() implies (
                        #[trigger] started@[a]).index < (#[trigger] started@[b]).index by {
                            if b == before.len() {
                                assert(started@[a] == before[a]);
                            } else {
                                assert(started@[a] == before[a] && started@[b] == before[b]);
                            }
                        }
                    }
                }
            }
            i = i + 1;
        }
        proof {
            lemma_picks_bound(v, started@);
            if i == n {
                assert(keys@.take(n as int) =~= keys@);
                assert forall|k: u32| v.is_pending(k) implies #[trigger] indices(started@).contains(k) by {
                    assert(keys@.to_set().contains(k));
                }
                assert(indices(started@) =~= v.pending());
                lemma_picks_len(v, started@);
            } else {
                assert forall|k: u32, p: int|
                    v.is_pending(k) && !indices(started@).contains(k) && 0 <= p < started@.len() implies (
                #[trigger] started@[p]).index < k && #[trigger] v.is_pending(k) by {
                    assert(keys@.to_set().contains(k));
                    let q = choose|q: int| 0 <= q < keys@.len() && keys@[q] == k;
                    assert(q >= i) by {
                        if q < i {
                            assert(keys@.take(i as int)[q] == k);
                        }
                    }
                    let r = choose|r: int| 0 <= r < i && keys@.take(i as int)[r] == started@[p].index;
                    assert(keys@[r] < keys@[q]);
                }
            }
            lemma_started_wf(v, self@);
        }
        started
    }

    /// The segment that `seg` stands for, as it is now: the run that was handed
    /// `seg` and this table share one count. A segment that has been cut since is
    /// not found any more.
    pub fn current(&self, seg: &Segment) -> (r: Option<Segment>)
        ensures
            r == (if self@.knows(*seg) {
                Some(self@.segments[seg.index])
            } else {
                None
            }),
    {
        match self.segments.get(&seg.index) {
            Some(found) => {
                if found.end == seg.end {
                    Some(*found)
                } else {
                    None
                }
            },
            None => None,
        }
    }

    /// Counts `n` bytes that the run of `seg` has written. What a run still writes
    /// after its segment has been cut counts for neither half.
    pub fn record(&mut self, seg: &Segment, n: u64)
        requires
            old(self)@.wf(),
        ensures
            final(self)@.wf(),
            final(self)@ == old(self)@.recorded(*seg, n),
    {
        let ghost v = self@;
        if let Some(mut cur) = self.current(seg) {
            cur.record(n);
            self.segments.insert(seg.index, cur);
            proof {
                assert(self@.segments.dom() =~= v.segments.dom());
                lemma_moved_wf(v, self@);
            }
        }
    }

    /// Forgets what the run of `seg` has written, so that all of it is fetched again.
    pub fn rewind(&mut self, seg: &Segment)
        requires
            old(self)@.wf(),
        ensures
            final(self)@.wf(),
            final(self)@ == old(self)@.rewound(*seg),
    {
        let ghost v = self@;
        if let Some(mut cur) = self.current(seg) {
            cur.rewind();
            self.segments.insert(seg.index, cur);
            proof {
                assert(self@.segments.dom() =~= v.segments.dom());
                lemma_moved_wf(v, self@);
            }
        }
    }

    /// Whether the segments still to be reported complete have all their bytes.
    pub fn all_finished(&self) -> (b: bool)
        requires
            self@.wf(),
        ensures
            b == self@.all_finished(),
    {
        let keys: Vec<u32> = sorted_keys_u32(&self.segments);
        let n: usize = keys.len();
        let mut i: usize = 0;
        while i < n
            invariant
                0 <= i <= n,
                n == keys@.len(),
                self@.wf(),
                crate::keys::lists_keys_u32(keys@, self@.segments),
                forall|j: int|
                    0 <= j < i ==> self@.segments[#[trigger] keys@[j]].is_finished(),
            decreases n - i,
        {
            let k: u32 = keys[i];
            assert(keys@.to_set().contains(k));
            assert(self@.segments.contains_key(k));
            if let Some(seg) = self.segments.get(&k) {
                if !seg.finished() {
                    return false;
                }
            }
            i = i + 1;
        }
        proof {
            assert forall|k: u32| #[trigger] self@.segments.contains_key(k) implies self@.segments[k].is_finished() by {
                assert(keys@.to_set().contains(k));
                let j = choose|j: int| 0 <= j < keys@.len() && keys@[j] == k;
                assert(self@.segments[keys@[j]].is_finished());
            }
        }
        true
    }

    /// How many segments are being fetched.
    pub fn active_count(&self) -> (n: u32)
        requires
            self@.wf(),
        ensures
            n == self@.active.len(),
    {
        self.active.len() as u32
    }

    /// Decides, once nothing more can be started, whether the download is complete,
    /// has to wait, or has to fall back to one stream.
    pub fn next_step(&mut self) -> (r: RangedStep)
        requires
            old(self)@.wf(),
        ensures
            final(self)@.wf(),
            r == old(self)@.step(),
            final(self)@ == (RangedView {
                degraded: old(self)@.degraded || r == RangedStep::Fallback,
                ..old(self)@
            }),
    {
        let ghost v = self@;
        if !self.active.is_empty() {
            assert(self@.active.len() > 0) by {
                assert(self@.active != Set::<u32>::empty());
                if self@.active.len() == 0 {
                    assert(self@.active =~= Set::<u32>::empty());
                }
            }
            return RangedStep::Wait;
        }
        if self.all_finished() && !self.degraded {
            return RangedStep::Finish;
        }
        self.degraded = true;
        proof {
            lemma_same_cover(v, self@);
        }
        RangedStep::Fallback
    }

    /// Takes in how the run of `seg` ended.
    pub fn segment_ended(&mut self, seg: &Segment, outcome: SegmentOutcome)
        requires
            old(self)@.wf(),
        ensures
            final(self)@.wf(),
            final(self)@ == old(self)@.ended(*seg, outcome),
    {
        let ghost v = self@;
        proof {
            lemma_ended_wf(v, *seg, outcome);
        }
        let cur: Segment = match self.current(seg) {
            Some(cur) => cur,
            None => {
                return;
            },
        };
        assert(v.segments.contains_key(seg.index));
        self.active.remove(&seg.index);
        match outcome {
            SegmentOutcome::Completed => {
                if cur.finished() {
                    self.segments.remove(&seg.index);
                    proof {
                        lemma_retired_push(self.retired@, cur);
                    }
                    self.retired.push(cur);
                }
            },
            SegmentOutcome::Interrupted => {},
            SegmentOutcome::Exhausted => {
                self.degraded = true;
            },
        }
        assert(self@ =~= v.ended(*seg, outcome));
    }

    /// Takes in that the run of `seg` vanished without a result: because it was called
    /// off when its segment was cut, which is of no account, or because it broke down,
    /// which is a failure for good.
    pub fn run_lost(&mut self, seg: &Segment, called_off: bool)
        requires
            old(self)@.wf(),
        ensures
            final(self)@.wf(),
            final(self)@ == (if called_off {
                old(self)@
            } else {
                old(self)@.ended(*seg, SegmentOutcome::Exhausted)
            }),
    {
        if !called_off {
            self.segment_ended(seg, SegmentOutcome::Exhausted);
        }
    }

    /// Cuts the running segment with the most bytes missing, if more segments may
    /// run and it is worth the while. The run of that segment has to be called off;
    /// its index is returned.
    pub fn split_slowest(&mut self) -> (r: Option<u32>)
        requires
            old(self)@.wf(),
        ensures
            final(self)@.wf(),
            match r {
                Some(k) => old(self)@.is_due(k) && final(self)@ == old(self)@.split(k),
                None => (forall|k: u32| !#[trigger] old(self)@.is_due(k)) && final(self)@ == old(
                    self,
                )@,
            },
    {
        let ghost v = self@;
        if self.degraded || self.active.len() >= self.max_active || self.next_index == u32::MAX {
            return None;
        }
        let keys: Vec<u32> = sorted_keys_u32(&self.segments);
        let n: usize = keys.len();
        let mut best: Option<Segment> = None;
        let mut i: usize = 0;
        while i < n
            invariant
                0 <= i <= n,
                n == keys@.len(),
                self@ == v,
                v.wf(),
                crate::keys::lists_keys_u32(keys@, v.segments),
                match best {
                    Some(b) => {
                        &&& v.is_running(b.index)
                        &&& b == v.segments[b.index]
                        &&& keys@.take(i as int).contains(b.index)
                        &&& forall|j: u32|
                            keys@.take(i as int).contains(j) && #[trigger] v.is_running(j) ==> {
                                ||| v.segments[j].missing() < b.missing()
                                ||| v.segments[j].missing() == b.missing() && b.index <= j
                            }
                    },
                    None => forall|j: u32|
                        keys@.take(i as int).contains(j) ==> !#[trigger] v.is_running(j),
                },
            decreases n - i,
        {
            let k: u32 = keys[i];
            assert(v.segments.contains_key(k)) by {
                assert(keys@.to_set().contains(k));
            }
            proof {
                lemma_take_push(keys@, i as int);
            }
            if let Some(found) = self.segments.get(&k) {
                let seg: Segment = *found;
                if !seg.finished() && self.active.contains(&k) {
                    match best {
                        Some(b) => {
                            proof {
                                let q = choose|q: int|
                                    0 <= q < i && keys@.take(i as int)[q] == b.index;
                                assert(keys@[q] < keys@[i as int]);
                            }
                            if seg.remaining() > b.remaining() {
                                best = Some(seg);
                            }
                        },
                        None => {
                            best = Some(seg);
                        },
                    }
                }
            }
            i = i + 1;
        }
        assert(keys@.take(n as int) =~= keys@);
        assert forall|j: u32| #[trigger] v.is_running(j) implies keys@.contains(j) by {
            assert(keys@.to_set().contains(j));
        }
        let seg: Segment = match best {
            Some(b) => b,
            None => {
                return None;
            },
        };
        if seg.remaining() < MIN_SPLIT_REMAINING {
            return None;
        }
        let k: u32 = seg.index;
        let next: u32 = self.next_index;
        let (a, b) = seg.split(next);
        self.segments.insert(a.index, a);
        self.segments.insert(b.index, b);
        self.active.remove(&k);
        self.next_index = next + 1;
        proof {
            lemma_split_wf(v, k);
            assert(self@ =~= v.split(k));
        }
        Some(k)
    }

    /// The indices of the segments being fetched, lowest first: what has to be
    /// called off when the download is cancelled.
    pub fn running(&self) -> (r: Vec<u32>)
        ensures
            r@.to_set() == self@.active,
            forall|i: int, j: int| 0 <= i < j < r@.len() ==> r@[i] < r@[j],
    {
        sorted_members(&self.active)
    }
}

/// The download counts as complete only when every byte of the file has been written.
pub proof fn law_finish_means_every_byte(v: RangedView, offset: int)
    requires
        v.wf(),
        v.step() == RangedStep::Finish,
        0 <= offset < v.total,
    ensures
        v.written(offset),
{
    assert(v.covers(offset));
    if exists|k: u32|
        #![trigger v.segments[k]]
        v.segments.contains_key(k) && v.segments[k].contains(offset) {
        let k = choose|k: u32|
            #![trigger v.segments[k]]
            v.segments.contains_key(k) && v.segments[k].contains(offset);
        assert(v.segments.contains_key(k));
        assert(v.segments[k].has_written(offset));
    } else {
        let g = choose|g: Segment| #[trigger] v.retired.contains(g) && g.contains(offset);
        assert(v.retired.contains(g) && g.has_written(offset));
    }
}

/// What one segment writes in order leaves no gap: below a byte that has been written all
/// have been.
pub proof fn law_one_writer_leaves_no_gap(v: RangedView, lower: int, upper: int)
    requires
        v.wf(),
        v.one_writer(),
        0 <= lower <= upper < v.total,
        v.written(upper),
    ensures
        v.written(lower),
{
    assert(v.covers(lower));
    if exists|k: u32|
        #![trigger v.segments[k]]
        v.segments.contains_key(k) && v.segments[k].contains(lower) {
        let k = choose|k: u32|
            #![trigger v.segments[k]]
            v.segments.contains_key(k) && v.segments[k].contains(lower);
        assert(v.segments.contains_key(k));
        assert(v.segments[k].contains(upper));
        if exists|j: u32|
            #![trigger v.segments[j]]
            v.segments.contains_key(j) && v.segments[j].has_written(upper) {
            let j = choose|j: u32|
                #![trigger v.segments[j]]
                v.segments.contains_key(j) && v.segments[j].has_written(upper);
            assert(v.segments[j].contains(upper));
            assert(j == k);
        } else {
            let g = choose|g: Segment| #[trigger] v.retired.contains(g) && g.has_written(upper);
            assert(g.contains(upper));
        }
        assert(v.segments[k].has_written(lower));
    } else {
        let g = choose|g: Segment| #[trigger] v.retired.contains(g) && g.contains(lower);
        assert(v.retired.contains(g) && g.has_written(lower));
    }
}

/// A file that one segment writes in order stays so: the segment is never due to be cut,
/// and nothing that happens to it brings another.
pub proof fn law_one_writer_stays_alone(
    v: RangedView,
    length: u64,
    k: u32,
    seg: Segment,
    n: u64,
    outcome: SegmentOutcome,
)
    requires
        v.wf(),
        v.one_writer(),
    ensures
        !v.is_due(k),
        v.resumed(length).one_writer(),
        v.recorded(seg, n).one_writer(),
        v.rewound(seg).one_writer(),
        v.put_by().one_writer(),
        v.ended(seg, outcome).one_writer(),
{
    if v.is_due(k) {
        assert(v.segments.contains_key(k));
        assert(v.active.contains(k));
        if v.max_active <= 1 {
            assert(v.active.len() == 0);
            assert(v.active =~= Set::<u32>::empty());
        }
    }
    let r = v.resumed(length);
    assert forall|j: u32| #[trigger] r.segments.contains_key(j) implies r.segments[j].start == 0
        && r.segments[j].end + 1 == r.total by {
        assert(v.segments.contains_key(j));
    }
    let c = v.recorded(seg, n);
    assert forall|j: u32| #[trigger] c.segments.contains_key(j) implies c.segments[j].start == 0
        && c.segments[j].end + 1 == c.total by {
        assert(v.segments.contains_key(j));
    }
    let b = v.rewound(seg);
    assert forall|j: u32| #[trigger] b.segments.contains_key(j) implies b.segments[j].start == 0
        && b.segments[j].end + 1 == b.total by {
        assert(v.segments.contains_key(j));
    }
    let e = v.ended(seg, outcome);
    assert forall|j: u32| #[trigger] e.segments.contains_key(j) implies e.segments[j].start == 0
        && e.segments[j].end + 1 == e.total by {
        assert(v.segments.contains_key(j));
    }
}

/// A run that goes on where it was stopped fetches nothing twice and leaves nothing out: what
/// had been written before, and only that, counts as written; it is not asked for again, and
/// all the rest is.
pub proof fn law_nothing_is_fetched_twice(v: RangedView, offset: int)
    requires
        v.wf(),
    ensures
        v.put_by().wf(),
        v.put_by().written(offset) <==> v.written(offset),
        0 <= offset < v.total ==> (v.written(offset) <==> !exists|k: u32|
            #![trigger v.put_by().segments[k]]
            v.put_by().is_pending(k) && v.put_by().segments[k].asks_for(offset)),
{
    let w = v.put_by();
    lemma_same_cover(v, w);
    lemma_same_written(v, w, offset);
    if v.written(offset) {
        if exists|k: u32|
            #![trigger v.segments[k]]
            v.segments.contains_key(k) && v.segments[k].has_written(offset) {
            let k = choose|k: u32|
                #![trigger v.segments[k]]
                v.segments.contains_key(k) && v.segments[k].has_written(offset);
            assert(v.segments[k].contains(offset));
            assert forall|j: u32|
                #![trigger w.segments[j]]
                w.is_pending(j) implies !w.segments[j].asks_for(offset) by {
                if w.segments[j].asks_for(offset) {
                    assert(v.segments[j].contains(offset));
                }
            }
        } else {
            let g = choose|g: Segment| #[trigger] v.retired.contains(g) && g.has_written(offset);
            assert(g.contains(offset));
            assert forall|j: u32|
                #![trigger w.segments[j]]
                w.is_pending(j) implies !w.segments[j].asks_for(offset) by {
                if w.segments[j].asks_for(offset) {
                    assert(v.segments[j].contains(offset));
                }
            }
        }
    } else {
        if 0 <= offset < v.total {
            assert(v.covers(offset));
        }
        if exists|k: u32|
            #![trigger v.segments[k]]
            v.segments.contains_key(k) && v.segments[k].contains(offset) {
            let k = choose|k: u32|
                #![trigger v.segments[k]]
                v.segments.contains_key(k) && v.segments[k].contains(offset);
            assert(!v.segments[k].has_written(offset));
            assert(w.segments[k].asks_for(offset));
            assert(w.is_pending(k));
        } else if 0 <= offset < v.total {
            let g = choose|g: Segment| #[trigger] v.retired.contains(g) && g.contains(offset);
            assert(v.retired.contains(g) && g.has_written(offset));
        }
    }
}

/// Stopping any number of times changes nothing more, and what has been put by fits every
/// partial file that is at least as long as what was written, and no longer than the
/// file.
pub proof fn law_put_by_is_stable(v: RangedView, part_size: u64)
    requires
        v.wf(),
    ensures
        v.put_by().put_by() == v.put_by(),
        v.put_by().active == Set::<u32>::empty(),
        !v.put_by().degraded,
        v.put_by().total == v.total,
        v.put_by().segments == v.segments,
        v.put_by().max_active == v.max_active,
        v.put_by().next_index == v.next_index,
        v.put_by().fits(v.total, part_size) <==> part_size <= v.total && forall|o: int| #[trigger]
            v.written(o) ==> o < part_size,
{
    let w = v.put_by();
    assert forall|o: int| #[trigger] w.written(o) <==> v.written(o) by {
        lemma_same_written(v, w, o);
    }
    if v.put_by().fits(v.total, part_size) {
        assert forall|o: int| #[trigger] v.written(o) implies o < part_size by {
            assert(w.written(o));
        }
    }
}

/// What a stream has written counts when it is stopped: its first bytes, as many as it
/// brought, and no others.
pub proof fn law_stream_is_taken_up(
    total: u64,
    segment_size: u64,
    max_segments: u32,
    split_threshold: u64,
    received: u64,
    offset: int,
)
    requires
        total > 0,
        total > split_threshold ==> segment_size > 0,
        0 <= offset < total,
    ensures
        initial_run(total, segment_size, max_segments, split_threshold).resumed(received).written(
            offset,
        ) <==> offset < received,
{
    let v = initial_run(total, segment_size, max_segments, split_threshold);
    let w = v.resumed(received);
    let plan = segment::planned_segments(total, segment_size, max_segments, split_threshold);
    segment::law_segments_tile(total, segment_size, max_segments, split_threshold);
    segment::law_tiles_cover(plan, total as int, offset);
    let i = choose|i: int| 0 <= i < plan.len() && (#[trigger] plan[i]).contains(offset);
    assert(plan[i].wf());
    assert(v.segments.contains_key(i as u32) && v.segments[i as u32] == plan[i]);
    segment::law_align_clamps(plan[i], received);
    assert(w.segments.contains_key(i as u32));
    assert(w.segments[i as u32] == plan[i].aligned(received));
    if offset < received {
        assert(w.segments[i as u32].has_written(offset));
    }
    if w.written(offset) {
        let k = choose|k: u32|
            #![trigger w.segments[k]]
            w.segments.contains_key(k) && w.segments[k].has_written(offset);
        assert(v.segments.contains_key(k) && v.segments[k] == plan[k as int]);
        assert(plan[k as int].wf());
        segment::law_align_clamps(plan[k as int], received);
        assert(w.segments[k] == plan[k as int].aligned(received));
    }
}

/// Of a partial file of which nothing is known but its size, no byte counts as written that
/// was not: what one segment wrote counts, provided that the file reaches no further than
/// the segment got, and nothing of what several have written.
pub proof fn law_resume_counts_only_what_was_written(
    stopped: RangedView,
    fresh: RangedView,
    part_size: u64,
    offset: int,
)
    requires
        stopped.wf(),
        fresh.wf(),
        fresh.total == stopped.total,
        part_size <= fresh.total,
        fresh.one_writer() ==> stopped.one_writer() && (part_size > 0 ==> stopped.written(
            part_size - 1,
        )),
        forall|o: int| !#[trigger] fresh.written(o),
    ensures
        fresh.resumed(fresh.vouched(part_size)).written(offset) ==> stopped.written(offset),
{
    let length = fresh.vouched(part_size);
    let w = fresh.resumed(length);
    if w.written(offset) {
        if exists|g: Segment| #[trigger] w.retired.contains(g) && g.has_written(offset) {
            let g = choose|g: Segment| #[trigger] w.retired.contains(g) && g.has_written(offset);
            assert(fresh.retired.contains(g));
            assert(fresh.written(offset));
        } else {
            let k = choose|k: u32|
                #![trigger w.segments[k]]
                w.segments.contains_key(k) && w.segments[k].has_written(offset);
            assert(fresh.segments.contains_key(k));
            segment::law_align_clamps(fresh.segments[k], length);
            assert(w.segments[k] == fresh.segments[k].aligned(length));
            assert(0 <= offset < length);
            law_one_writer_leaves_no_gap(stopped, offset, part_size - 1);
        }
    }
}

/// After an answer that held more than was asked for the whole segment is asked for again,
/// and no other.
pub proof fn law_untrusted_segment_is_fetched_again(
    v: RangedView,
    seg: Segment,
    other: u32,
    offset: int,
)
    requires
        v.wf(),
        v.knows(seg),
        other != seg.index,
    ensures
        v.rewound(seg).segments[seg.index].asks_for(offset) <==> v.segments[seg.index].contains(
            offset,
        ),
        v.rewound(seg).segments.contains_key(other) == v.segments.contains_key(other),
        v.rewound(seg).segments[other] == v.segments[other],
        v.rewound(seg).active == v.active,
        v.rewound(seg).retired == v.retired,
        v.rewound(seg).degraded == v.degraded,
        v.rewound(seg).total == v.total,
        v.rewound(seg).max_active == v.max_active,
        v.rewound(seg).next_index == v.next_index,
{
}

/// A run that has not begun counts nothing as written, and cutting the file into one
/// segment that is too small to be cut again makes that its only writer.
pub proof fn law_fresh_run_counts_nothing(
    total: u64,
    segment_size: u64,
    max_segments: u32,
    split_threshold: u64,
    offset: int,
)
    requires
        total > 0,
        total > split_threshold ==> segment_size > 0,
    ensures
        ({
            let v = initial_run(total, segment_size, max_segments, split_threshold);
            &&& !v.written(offset)
            &&& (v.one_writer() <==> (max_segments <= 1 || total < MIN_SPLIT_REMAINING)
                && segment::segment_count(total, segment_size, max_segments, split_threshold)
                == 1)
        }),
{
    let plan = segment::planned_segments(total, segment_size, max_segments, split_threshold);
    let v = initial_run(total, segment_size, max_segments, split_threshold);
    segment::law_segments_tile(total, segment_size, max_segments, split_threshold);
    assert forall|k: u32| #[trigger] v.segments.contains_key(k) implies v.segments[k].downloaded
        == 0 by {
        assert(v.segments[k] == plan[k as int]);
    }
    if v.written(offset) {
        let k = choose|k: u32|
            #![trigger v.segments[k]]
            v.segments.contains_key(k) && v.segments[k].has_written(offset);
        assert(v.segments.contains_key(k));
        assert(v.segments[k].downloaded == 0);
    }
    assert(v.segments.contains_key(0u32) && v.segments[0u32] == plan[0]);
    if plan.len() > 1 {
        segment::lemma_tiles_prefix(plan, total as int, 1);
        assert(plan[0].end + 1 == plan[1].start);
        assert(plan[1].wf());
        segment::lemma_tiles_prefix(plan, total as int, 2);
        assert(plan[1].end + 1 <= total);
    } else {
        assert forall|k: u32| #[trigger] v.segments.contains_key(k) implies v.segments[k].start
            == 0 && v.segments[k].end + 1 == v.total by {
            assert(k == 0);
            assert(plan.last() == plan[0]);
        }
    }
}

/// No more segments are fetched at once than may be, whatever has happened before,
/// and the ranges of no two of them overlap.
pub proof fn law_runs_are_bounded_and_apart(v: RangedView, j: u32, k: u32, offset: int)
    requires
        v.wf(),
        v.active.contains(j),
        v.active.contains(k),
        j != k,
        v.segments[j].contains(offset),
    ensures
        v.active.len() <= v.max_active,
        !v.segments[k].contains(offset),
{
    assert(v.segments.contains_key(j) && v.segments.contains_key(k));
}

/// Cutting a segment neither loses nor repeats a byte, and leaves the rest of the
/// table alone.
pub proof fn law_split_keeps_what_is_written(v: RangedView, k: u32, offset: int)
    requires
        v.wf(),
        v.is_due(k),
    ensures
        v.split(k).wf(),
        (exists|j: u32|
            #![trigger v.segments[j]]
            v.segments.contains_key(j) && v.segments[j].has_written(offset)) <==> (exists|j: u32|
            #![trigger v.split(k).segments[j]]
            v.split(k).segments.contains_key(j) && v.split(k).segments[j].has_written(offset)),
        v.split(k).segments[k].missing() + v.split(k).segments[v.next_index].missing()
            == v.segments[k].missing(),
        forall|j: u32|
            j != k && v.segments.contains_key(j) ==> #[trigger] v.split(k).segments[j]
                == v.segments[j],
{
    let w = v.split(k);
    let g = v.segments[k];
    lemma_split_wf(v, k);
    segment::law_split_preserves(g, v.next_index);
    assert(v.segments.contains_key(k) && k < v.next_index);
    assert(w.segments[k] == g.lower_half());
    assert(w.segments[v.next_index] == g.upper_half(v.next_index));
    assert(g.has_written(offset) <==> g.lower_half().has_written(offset) || g.upper_half(
        v.next_index,
    ).has_written(offset));
    if exists|j: u32|
        #![trigger v.segments[j]]
        v.segments.contains_key(j) && v.segments[j].has_written(offset) {
        let j = choose|j: u32|
            #![trigger v.segments[j]]
            v.segments.contains_key(j) && v.segments[j].has_written(offset);
        if j == k {
            assert(w.segments[k].has_written(offset) || w.segments[v.next_index].has_written(
                offset,
            ));
        } else {
            assert(w.segments[j].has_written(offset));
        }
    }
    if exists|j: u32|
        #![trigger w.segments[j]]
        w.segments.contains_key(j) && w.segments[j].has_written(offset) {
        let j = choose|j: u32|
            #![trigger w.segments[j]]
            w.segments.contains_key(j) && w.segments[j].has_written(offset);
        if j == k || j == v.next_index {
            assert(v.segments[k].has_written(offset));
        } else {
            assert(v.segments[j].has_written(offset));
        }
    }
}

/// What a run still writes after its segment has been cut counts for neither half.
pub proof fn law_cut_run_counts_no_more(v: RangedView, k: u32, n: u64)
    requires
        v.wf(),
        v.is_due(k),
    ensures
        v.split(k).recorded(v.segments[k], n) == v.split(k),
{
    assert(v.segments.contains_key(k) && k < v.next_index);
    segment::law_split_preserves(v.segments[k], v.next_index);
    assert(v.split(k).segments[k] == v.segments[k].lower_half());
}

/// The download falls back to one stream only after a segment has failed for good,
/// or where no segment may run at all: as long as bytes are missing and none has
/// failed, starting what waits leaves something running.
pub proof fn law_fallback_only_after_failure(v: RangedView, started: Seq<Segment>)
    requires
        v.wf(),
        !v.degraded,
        v.max_active > 0,
        v.is_start(started),
    ensures
        (RangedView { active: v.active.union(indices(started)), ..v }).step()
            != RangedStep::Fallback,
{
    let w = RangedView { active: v.active.union(indices(started)), ..v };
    lemma_picks_len(v, started);
    assert(w.active.finite());
    if w.active.len() == 0 {
        assert(w.active =~= Set::<u32>::empty());
        assert(v.active =~= Set::<u32>::empty()) by {
            assert forall|k: u32| !v.active.contains(k) by {
                assert(!w.active.contains(k));
            }
        }
        assert(indices(started) =~= Set::<u32>::empty()) by {
            assert forall|k: u32| !indices(started).contains(k) by {
                assert(!w.active.contains(k));
            }
        }
        lemma_picks_bound(v, started);
        assert(v.pending().len() == 0);
        assert(v.pending() =~= Set::<u32>::empty());
        assert forall|k: u32| #[trigger] w.segments.contains_key(k) implies w.segments[k].is_finished() by {
            assert(!v.pending().contains(k));
        }
    }
}

impl RangedView {
    /// No segment counts more bytes than it has.
    pub open spec fn within_bounds(self) -> bool {
        forall|k: u32| #[trigger]
            self.segments.contains_key(k) ==> self.segments[k].downloaded
                <= self.segments[k].size()
    }
}

/// As long as no run writes more than its segment is missing, no segment ever counts
/// more bytes than it has: not when it goes on from a partial file, nor when it is cut,
/// nor when a run that was called off still writes.
pub proof fn law_progress_stays_in_bounds(
    v: RangedView,
    part_size: u64,
    k: u32,
    outcome: SegmentOutcome,
    seg: Segment,
    n: u64,
)
    requires
        v.wf(),
        v.within_bounds(),
        v.knows(seg) ==> n <= v.segments[seg.index].missing(),
    ensures
        v.resumed(part_size).within_bounds(),
        v.ended(seg, outcome).within_bounds(),
        v.put_by().within_bounds(),
        v.rewound(seg).within_bounds(),
        v.recorded(seg, n).within_bounds(),
        v.is_due(k) ==> v.split(k).within_bounds(),
{
    let r = v.resumed(part_size);
    assert forall|j: u32| #[trigger] r.segments.contains_key(j) implies r.segments[j].downloaded
        <= r.segments[j].size() by {
        assert(v.segments.contains_key(j));
        segment::law_align_clamps(v.segments[j], part_size);
    }
    let b = v.rewound(seg);
    assert forall|j: u32| #[trigger] b.segments.contains_key(j) implies b.segments[j].downloaded
        <= b.segments[j].size() by {
        assert(v.segments.contains_key(j));
    }
    let c = v.recorded(seg, n);
    assert forall|j: u32| #[trigger] c.segments.contains_key(j) implies c.segments[j].downloaded
        <= c.segments[j].size() by {
        assert(v.segments.contains_key(j));
    }
    if v.is_due(k) {
        let w = v.split(k);
        assert(v.segments.contains_key(k));
        segment::law_split_preserves(v.segments[k], v.next_index);
        assert forall|j: u32| #[trigger] w.segments.contains_key(j) implies w.segments[j].downloaded
            <= w.segments[j].size() by {
            if j != k && j != v.next_index {
                assert(v.segments.contains_key(j));
            }
        }
    }
}

/// What is logged when a download goes on from a partial file.
pub fn resume_message(part_size: u64) -> (s: String)
    ensures
        s@ == "断点续传: 已存在 .part "@ + text::decimal(part_size as nat) + " 字节"@,
{
    "断点续传: 已存在 .part ".to_owned().concat(decimal_text(part_size).as_str()).concat(" 字节")
}

/// What is logged when a segment is cut in two.
pub fn split_message(index: u32) -> (s: String)
    ensures
        s@ == "动态拆分: 段 "@ + text::decimal(index as nat) + " → 2 段"@,
{
    "动态拆分: 段 ".to_owned().concat(decimal_text(index as u64).as_str()).concat(" → 2 段")
}

/// What is logged when a download falls back to one stream.
pub fn fallback_message() -> (s: String)
    ensures
        s@ == "分片重试耗尽，降级整文件重试"@,
{
    "分片重试耗尽，降级整文件重试".to_owned()
}

/// The segment that is cut has the most bytes missing of all that are being fetched; and
/// where one more may run, none has failed for good, indices are left, and one that is being
/// fetched misses at least 64 KiB, there is one to cut.
pub proof fn law_the_largest_rest_is_cut(v: RangedView, k: u32, j: u32)
    requires
        v.wf(),
        v.segments.contains_key(j),
        v.active.contains(j),
    ensures
        v.is_due(k) ==> {
            &&& v.segments.contains_key(k) && v.active.contains(k)
            &&& v.segments[j].missing() <= v.segments[k].missing()
            &&& v.segments[k].missing() >= 64 * 1024
            &&& v.active.len() < v.max_active
            &&& !v.degraded
            &&& j != k && v.segments[j].missing() == v.segments[k].missing() ==> k < j
        },
        !v.degraded && v.active.len() < v.max_active && v.next_index < u32::MAX
            && v.segments[j].missing() >= 64 * 1024 ==> exists|d: u32| #[trigger]
            v.is_due(d),
{
    if v.is_due(k) {
        if v.segments[j].missing() > 0 {
            assert(v.is_running(j));
        }
    }
    if !v.degraded && v.active.len() < v.max_active && v.next_index < u32::MAX
        && v.segments[j].missing() >= MIN_SPLIT_REMAINING {
        assert(v.is_running(j));
        let d = lemma_slowest_exists(v, v.active, j);
        assert(v.is_slowest(d)) by {
            assert forall|i: u32| #[trigger] v.is_running(i) implies {
                ||| v.segments[i].missing() < v.segments[d].missing()
                ||| v.segments[i].missing() == v.segments[d].missing() && d <= i
            } by {
                assert(v.active.contains(i));
            }
        }
        assert(v.is_due(d));
    }
}

/// Of the running segments among `some` one has the most bytes missing.
proof fn lemma_slowest_exists(v: RangedView, some: Set<u32>, j: u32) -> (d: u32)
    requires
        some.finite(),
        some.contains(j),
        v.is_running(j),
    ensures
        some.contains(d),
        v.is_running(d),
        v.segments[d].missing() >= v.segments[j].missing(),
        forall|i: u32|
            some.contains(i) && #[trigger] v.is_running(i) ==> {
                ||| v.segments[i].missing() < v.segments[d].missing()
                ||| v.segments[i].missing() == v.segments[d].missing() && d <= i
            },
    decreases some.len(),
{
    if exists|i: u32|
        some.contains(i) && #[trigger] v.is_running(i) && (v.segments[i].missing()
            > v.segments[j].missing() || v.segments[i].missing() == v.segments[j].missing() && i
            < j) {
        let i = choose|i: u32|
            some.contains(i) && #[trigger] v.is_running(i) && (v.segments[i].missing()
                > v.segments[j].missing() || v.segments[i].missing() == v.segments[j].missing() && i
                < j);
        let d = lemma_slowest_exists(v, some.remove(j), i);
        d
    } else {
        j
    }
}

/// Starting fills the places that are free: each started segment was waiting with bytes
/// missing, those with lower indices come first, and what still waits does so because as many
/// run as may. Once a segment has failed for good none is started.
pub proof fn law_starting_leaves_no_place_idle(v: RangedView, started: Seq<Segment>, k: u32, p: int)
    requires
        v.wf(),
        v.is_start(started),
    ensures
        v.degraded ==> started.len() == 0,
        v.active.len() + started.len() <= v.max_active,
        0 <= p < started.len() ==> {
            &&& v.segments.contains_key(started[p].index)
            &&& !v.active.contains(started[p].index)
            &&& started[p] == v.segments[started[p].index]
            &&& started[p].downloaded < started[p].end - started[p].start + 1
            &&& p > 0 ==> started[p - 1].index < started[p].index
        },
        !v.degraded && v.segments.contains_key(k) && !v.active.contains(k)
            && v.segments[k].downloaded < v.segments[k].end - v.segments[k].start + 1 ==> {
            ||| exists|q: int| 0 <= q < started.len() && #[trigger] started[q] == v.segments[k]
            ||| {
                &&& v.active.len() + started.len() == v.max_active
                &&& 0 <= p < started.len() ==> started[p].index < k
            }
        },
{
    if !v.degraded {
        lemma_picks_len(v, started);
        lemma_picks_bound(v, started);
        if 0 <= p < started.len() {
            assert(v.is_pending(started[p].index));
            if p > 0 {
                assert(started[p - 1].index < started[p].index);
            }
        }
        if v.segments.contains_key(k) && !v.active.contains(k) && v.segments[k].downloaded
            < v.segments[k].end - v.segments[k].start + 1 {
            assert(v.is_pending(k));
            assert(v.pending().contains(k));
            lemma_indices(started, k);
            if indices(started).contains(k) {
                let q = choose|q: int| 0 <= q < started.len() && (#[trigger] started[q]).index == k;
                assert(started[q] == v.segments[k]);
            } else {
                if started.len() == v.pending().len() {
                    assert(indices(started).subset_of(v.pending())) by {
                        assert forall|i: u32| indices(started).contains(i) implies v.pending().contains(
                            i,
                        ) by {
                            lemma_indices(started, i);
                        }
                    }
                    vstd::set_lib::lemma_subset_equality(indices(started), v.pending());
                }
            }
        }
    }
}

/// While a segment is being fetched the download waits. Once none is, it is complete exactly
/// when none has failed for good and every byte has been written; else it falls back to one
/// stream.
pub proof fn law_what_follows_the_last_segment(v: RangedView)
    requires
        v.wf(),
    ensures
        v.step() == RangedStep::Wait <==> exists|k: u32| #[trigger] v.active.contains(k),
        v.step() == RangedStep::Finish <==> !(exists|k: u32| #[trigger] v.active.contains(k))
            && !v.degraded && forall|o: int| 0 <= o < v.total ==> #[trigger] v.written(o),
{
    if v.active.len() > 0 {
        let k = v.active.choose();
        assert(v.active.contains(k));
    } else {
        assert(v.active =~= Set::<u32>::empty());
    }
    if v.step() == RangedStep::Finish {
        assert forall|o: int| 0 <= o < v.total implies #[trigger] v.written(o) by {
            law_finish_means_every_byte(v, o);
        }
    }
    if forall|o: int| 0 <= o < v.total ==> #[trigger] v.written(o) {
        assert forall|k: u32| #[trigger] v.segments.contains_key(k) implies v.segments[k].is_finished() by {
            let g = v.segments[k];
            let o = g.end as int;
            assert(g.contains(o));
            assert(v.written(o));
            if exists|j: u32|
                #![trigger v.segments[j]]
                v.segments.contains_key(j) && v.segments[j].has_written(o) {
                let j = choose|j: u32|
                    #![trigger v.segments[j]]
                    v.segments.contains_key(j) && v.segments[j].has_written(o);
                assert(v.segments[j].contains(o));
                assert(j == k);
            } else {
                let r = choose|r: Segment| #[trigger] v.retired.contains(r) && r.has_written(o);
                assert(r.contains(o));
            }
        }
    }
}

/// What a run writes counts at once and exactly: the `n` bytes behind those that its segment
/// had, and no others, provided that the segment still has the end that the run was given.
pub proof fn law_written_bytes_count(v: RangedView, seg: Segment, n: u64, offset: int)
    requires
        v.wf(),
    ensures
        !v.segments.contains_key(seg.index) || v.segments[seg.index].end != seg.end ==> v.recorded(
            seg,
            n,
        ) == v,
        v.segments.contains_key(seg.index) && v.segments[seg.index].end == seg.end
            && v.segments[seg.index].downloaded + n <= seg.end - v.segments[seg.index].start + 1
            ==> {
            let g = v.segments[seg.index];
            let w = v.recorded(seg, n);
            &&& w.wf()
            &&& w.written(offset) <==> v.written(offset) || g.start + g.downloaded <= offset
                < g.start + g.downloaded + n
            &&& w.segments[seg.index] == (Segment { downloaded: (g.downloaded + n) as u64, ..g })
            &&& w.active == v.active && w.degraded == v.degraded && w.retired == v.retired
            &&& w.total == v.total && w.max_active == v.max_active && w.next_index == v.next_index
        },
{
    let k = seg.index;
    if v.segments.contains_key(k) && v.segments[k].end == seg.end && v.segments[k].downloaded + n
        <= seg.end - v.segments[k].start + 1 {
        let g = v.segments[k];
        let w = v.recorded(seg, n);
        let h = w.segments[k];
        assert(w.segments.dom() =~= v.segments.dom());
        lemma_moved_wf(v, w);
        assert(h.has_written(offset) <==> g.has_written(offset) || g.start + g.downloaded <= offset
            < g.start + g.downloaded + n);
        if v.written(offset) {
            if exists|j: u32|
                #![trigger v.segments[j]]
                v.segments.contains_key(j) && v.segments[j].has_written(offset) {
                let j = choose|j: u32|
                    #![trigger v.segments[j]]
                    v.segments.contains_key(j) && v.segments[j].has_written(offset);
                assert(w.segments.contains_key(j) && w.segments[j].has_written(offset));
            } else {
                let r = choose|r: Segment| #[trigger]
                    v.retired.contains(r) && r.has_written(offset);
                assert(w.retired.contains(r));
            }
        }
        if h.has_written(offset) {
            assert(w.segments.contains_key(k) && w.segments[k].has_written(offset));
        }
        if w.written(offset) {
            if exists|j: u32|
                #![trigger w.segments[j]]
                w.segments.contains_key(j) && w.segments[j].has_written(offset) {
                let j = choose|j: u32|
                    #![trigger w.segments[j]]
                    w.segments.contains_key(j) && w.segments[j].has_written(offset);
                if j != k {
                    assert(v.segments.contains_key(j) && v.segments[j].has_written(offset));
                } else if g.has_written(offset) {
                    assert(v.segments.contains_key(k) && v.segments[k].has_written(offset));
                }
            } else {
                let r = choose|r: Segment| #[trigger]
                    w.retired.contains(r) && r.has_written(offset);
                assert(v.retired.contains(r));
            }
        }
    }
}

/// The end of a run frees its place and loses no byte. The segment leaves the table only if
/// it is complete; else it waits to be fetched again. Only a run that used up its retries
/// makes the download fail for good. The end of a run whose segment has been cut meanwhile
/// changes nothing.
pub proof fn law_end_of_a_run_loses_nothing(
    v: RangedView,
    seg: Segment,
    outcome: SegmentOutcome,
    offset: int,
)
    requires
        v.wf(),
    ensures
        !v.segments.contains_key(seg.index) || v.segments[seg.index].end != seg.end ==> v.ended(
            seg,
            outcome,
        ) == v,
        v.segments.contains_key(seg.index) && v.segments[seg.index].end == seg.end ==> {
            let g = v.segments[seg.index];
            let w = v.ended(seg, outcome);
            &&& w.wf()
            &&& w.active == v.active.remove(seg.index)
            &&& w.written(offset) <==> v.written(offset)
            &&& w.degraded <==> v.degraded || outcome == SegmentOutcome::Exhausted
            &&& !w.segments.contains_key(seg.index) <==> outcome == SegmentOutcome::Completed
                && g.downloaded >= g.end - g.start + 1
            &&& w.segments.contains_key(seg.index) ==> w.segments[seg.index] == g
            &&& w.total == v.total && w.max_active == v.max_active && w.next_index == v.next_index
        },
{
    let k = seg.index;
    if v.segments.contains_key(k) && v.segments[k].end == seg.end {
        let g = v.segments[k];
        let w = v.ended(seg, outcome);
        lemma_ended_wf(v, seg, outcome);
        if v.written(offset) {
            if exists|j: u32|
                #![trigger v.segments[j]]
                v.segments.contains_key(j) && v.segments[j].has_written(offset) {
                let j = choose|j: u32|
                    #![trigger v.segments[j]]
                    v.segments.contains_key(j) && v.segments[j].has_written(offset);
                if w.segments.contains_key(j) {
                    assert(w.segments[j].has_written(offset));
                } else {
                    assert(w.retired.contains(g));
                }
            } else {
                let r = choose|r: Segment| #[trigger]
                    v.retired.contains(r) && r.has_written(offset);
                assert(w.retired.contains(r));
            }
        }
        if w.written(offset) {
            if exists|j: u32|
                #![trigger w.segments[j]]
                w.segments.contains_key(j) && w.segments[j].has_written(offset) {
                let j = choose|j: u32|
                    #![trigger w.segments[j]]
                    w.segments.contains_key(j) && w.segments[j].has_written(offset);
                assert(v.segments[j].has_written(offset));
            } else {
                let r = choose|r: Segment| #[trigger]
                    w.retired.contains(r) && r.has_written(offset);
                if r == g && !v.retired.contains(r) {
                    assert(v.segments[k].has_written(offset));
                } else {
                    assert(v.retired.contains(r));
                }
            }
        }
    }
}

/// A cut makes two of one: the run is called off, both halves wait to be fetched as far as
/// they miss bytes, every other segment goes on, and the upper half has an index that
/// none had before.
pub proof fn law_cut_makes_two_of_one(v: RangedView, k: u32)
    requires
        v.wf(),
        v.is_due(k),
    ensures
        ({
            let w = v.split(k);
            let n = v.next_index;
            &&& !v.segments.contains_key(n)
            &&& w.segments.dom() == v.segments.dom().insert(n)
            &&& w.active == v.active.remove(k)
            &&& w.active.len() == v.active.len() - 1
            &&& !w.active.contains(n)
            &&& w.segments[k].start == v.segments[k].start
            &&& w.segments[k].end + 1 == w.segments[n].start
            &&& w.segments[n].end == v.segments[k].end
            &&& w.segments[k].size() <= w.segments[n].size() <= w.segments[k].size() + 1
            &&& w.segments[k].missing() > 0 ==> w.is_pending(k)
            &&& w.segments[n].missing() > 0 ==> w.is_pending(n)
            &&& w.next_index == n + 1
            &&& w.total == v.total && w.max_active == v.max_active && w.degraded == v.degraded
            &&& w.retired == v.retired
        }),
{
    let w = v.split(k);
    let n = v.next_index;
    lemma_split_wf(v, k);
    assert(v.segments.contains_key(k) && v.active.contains(k));
    assert(!v.segments.contains_key(n));
    assert(!v.active.contains(n));
    segment::law_halves_are_even(v.segments[k], n);
    assert(w.segments.dom() =~= v.segments.dom().insert(n));
}

/// A run begins with the planned segments, under their indices, none of them running; indices
/// for later cuts start at 10000, or above the planned ones where those go further.
pub proof fn law_run_begins_as_planned(
    total: u64,
    segment_size: u64,
    max_segments: u32,
    split_threshold: u64,
    k: u32,
)
    requires
        total > 0,
        total > split_threshold ==> segment_size > 0,
    ensures
        ({
            let v = initial_run(total, segment_size, max_segments, split_threshold);
            let plan = segment::planned_segments(total, segment_size, max_segments, split_threshold);
            &&& v.segments.contains_key(k) <==> k < plan.len()
            &&& k < plan.len() ==> v.segments[k] == plan[k as int] && k < v.next_index
            &&& v.active == Set::<u32>::empty()
            &&& v.retired == Set::<Segment>::empty()
            &&& v.total == total
            &&& v.max_active == max_segments
            &&& !v.degraded
            &&& v.next_index == (if plan.len() > 10000 {
                plan.len() as int
            } else {
                10000
            })
        }),
{
    segment::law_segments_tile(total, segment_size, max_segments, split_threshold);
}

/// Where one segment writes the whole file in order, a partial file of which nothing else is
/// known counts as far as it reaches; where several might have, it counts for nothing.
pub proof fn law_what_a_found_file_is_worth(
    total: u64,
    segment_size: u64,
    max_segments: u32,
    split_threshold: u64,
    part_size: u64,
    offset: int,
)
    requires
        total > 0,
        total > split_threshold ==> segment_size > 0,
        part_size <= total,
        0 <= offset < total,
    ensures
        ({
            let v = initial_run(total, segment_size, max_segments, split_threshold);
            let plan = segment::planned_segments(total, segment_size, max_segments, split_threshold);
            v.resumed(v.vouched(part_size)).written(offset) <==> offset < part_size && plan.len()
                == 1 && (max_segments <= 1 || total < 65536)
        }),
{
    let v = initial_run(total, segment_size, max_segments, split_threshold);
    segment::law_segments_tile(total, segment_size, max_segments, split_threshold);
    law_fresh_run_counts_nothing(total, segment_size, max_segments, split_threshold, offset);
    law_stream_is_taken_up(
        total,
        segment_size,
        max_segments,
        split_threshold,
        v.vouched(part_size),
        offset,
    );
}

/// What was put by is never taken up for a file of another size.
pub proof fn law_another_file_is_fetched_anew(v: RangedView, total: u64, part_size: u64)
    requires
        v.fits(total, part_size),
    ensures
        total == v.total,
        part_size <= v.total,
        forall|o: int| #[trigger] v.written(o) ==> o < part_size,
{
}

/// A byte has been written if a segment that is complete holds it, or one in the table that
/// has come that far; and no others have.
pub proof fn law_what_has_been_written(v: RangedView, offset: int)
    requires
        v.wf(),
    ensures
        v.written(offset) <==> {
            ||| exists|k: u32|
                #![trigger v.segments[k]]
                v.segments.contains_key(k) && v.segments[k].start <= offset <= v.segments[k].end
                    && offset < v.segments[k].start + v.segments[k].downloaded
            ||| exists|g: Segment| #[trigger]
                v.retired.contains(g) && g.start <= offset <= g.end
        },
{
    if exists|g: Segment| #[trigger] v.retired.contains(g) && g.start <= offset <= g.end {
        let g = choose|g: Segment| #[trigger] v.retired.contains(g) && g.start <= offset <= g.end;
        assert(v.retired.contains(g) && g.has_written(offset));
    }
    if exists|k: u32|
        #![trigger v.segments[k]]
        v.segments.contains_key(k) && v.segments[k].start <= offset <= v.segments[k].end && offset
            < v.segments[k].start + v.segments[k].downloaded {
        let k = choose|k: u32|
            #![trigger v.segments[k]]
            v.segments.contains_key(k) && v.segments[k].start <= offset <= v.segments[k].end
                && offset < v.segments[k].start + v.segments[k].downloaded;
        assert(v.segments[k].has_written(offset));
    }
}

/// What is started runs: after starting, those run that ran before and those that were started,
/// and no others.
pub proof fn law_started_segments_run(v: RangedView, started: Seq<Segment>, k: u32)
    ensures
        v.active.union(indices(started)).contains(k) <==> v.active.contains(k) || exists|p: int|
            0 <= p < started.len() && (#[trigger] started[p]).index == k,
{
    lemma_indices(started, k);
}

/// Going on from the beginning of a file moves no bound and stops nothing; what segments in the
/// table had before does not count.
pub proof fn law_resuming_only_counts_anew(v: RangedView, length: u64, k: u32)
    requires
        v.wf(),
    ensures
        ({
            let w = v.resumed(length);
            &&& w.wf()
            &&& w.segments.contains_key(k) == v.segments.contains_key(k)
            &&& v.segments.contains_key(k) ==> {
                &&& w.segments[k].index == k
                &&& w.segments[k].start == v.segments[k].start
                &&& w.segments[k].end == v.segments[k].end
                &&& length <= v.segments[k].start ==> w.segments[k].downloaded == 0
                &&& v.segments[k].start <= length <= v.segments[k].end ==> w.segments[k].downloaded
                    == length - v.segments[k].start
                &&& length > v.segments[k].end ==> w.segments[k].downloaded == v.segments[k].end
                    - v.segments[k].start + 1
            }
            &&& w.active == v.active && w.degraded == v.degraded && w.retired == v.retired
            &&& w.total == v.total && w.max_active == v.max_active && w.next_index == v.next_index
        }),
{
    lemma_resumed_wf(v, length);
}

} // verus!
