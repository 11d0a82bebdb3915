//! The Gantt timeline: which process held the CPU during which interval.

use vstd::prelude::*;

verus! {

/// One stretch of CPU time given to one process, from `start` to `end`.
#[derive(Debug, PartialEq, Eq)]
pub struct Segment {
    pub id: String,
    pub start: i32,
    pub end: i32,
}

/// The mathematical model of a [`Segment`].
pub struct SegmentView {
    pub id: Seq<char>,
    pub start: int,
    pub end: int,
}

impl View for Segment {
    type V = SegmentView;

    open spec fn view(&self) -> SegmentView {
        SegmentView { id: self.id@, start: self.start as int, end: self.end as int }
    }
}

impl Clone for Segment {
    fn clone(&self) -> (copy: Self)
        ensures
            copy@ == self@,
    {
        Segment { id: self.id.clone(), start: self.start, end: self.end }
    }
}

/// The models of a sequence of segments, element by element.
pub open spec fn segment_views(tl: Seq<Segment>) -> Seq<SegmentView> {
    Seq::new(tl.len(), |i: int| tl[i]@)
}

/// The CPU time that a timeline hands out: the sum of its segments' lengths.
pub open spec fn total_duration(tl: Seq<SegmentView>) -> int
    decreases tl.len(),
{
    if tl.len() == 0 {
        0
    } else {
        total_duration(tl.drop_last()) + tl.last().end - tl.last().start
    }
}

/// The end of the last segment of `tl` that belongs to `id`; 0 when `id`
/// never ran.
pub open spec fn last_end(tl: Seq<SegmentView>, id: Seq<char>) -> int
    decreases tl.len(),
{
    if tl.len() == 0 {
        0
    } else if tl.last().id == id {
        tl.last().end
    } else {
        last_end(tl.drop_last(), id)
    }
}

/// Whether a slice `x` continues the last segment of `tl`: same process, and
/// it starts where that segment ends.
pub open spec fn continues(tl: Seq<SegmentView>, x: SegmentView) -> bool {
    tl.len() > 0 && tl.last().id == x.id && tl.last().end == x.start
}

/// `tl` with the slice `x` added at its end. With `merge`, a slice that
/// continues the last segment lengthens it; otherwise `x` becomes a segment
/// of its own.
pub open spec fn append_slice(tl: Seq<SegmentView>, x: SegmentView, merge: bool) -> Seq<SegmentView> {
    if merge && continues(tl, x) {
        tl.drop_last().push(SegmentView { id: x.id, start: tl.last().start, end: x.end })
    } else {
        tl.push(x)
    }
}

/// The timeline in which neighbouring slices of one process, with no gap
/// between them, are joined into one segment.
pub open spec fn coalesce(raw: Seq<SegmentView>) -> Seq<SegmentView>
    decreases raw.len(),
{
    if raw.len() == 0 {
        Seq::empty()
    } else {
        append_slice(coalesce(raw.drop_last()), raw.last(), true)
    }
}

/// The timeline shown for a sequence of slices: joined where `merge` is set,
/// slice by slice otherwise.
pub open spec fn timeline_from(raw: Seq<SegmentView>, merge: bool) -> Seq<SegmentView> {
    if merge {
        coalesce(raw)
    } else {
        raw
    }
}

/// Adding a slice changes the handed-out CPU time by the slice's length,
/// merged or not.
pub proof fn lemma_append_slice_duration(tl: Seq<SegmentView>, x: SegmentView, merge: bool)
    ensures
        total_duration(append_slice(tl, x, merge)) == total_duration(tl) + x.end - x.start,
{
    if merge && continues(tl, x) {
        let joined = SegmentView { id: x.id, start: tl.last().start, end: x.end };
        assert(tl.drop_last().push(joined).drop_last() =~= tl.drop_last());
    } else {
        assert(tl.push(x).drop_last() =~= tl);
    }
}

/// After a slice is added, the process it belongs to ends at the slice's
/// end, and every other process ends where it did.
pub proof fn lemma_append_slice_last_end(tl: Seq<SegmentView>, x: SegmentView, merge: bool, id: Seq<char>)
    ensures
        last_end(append_slice(tl, x, merge), id) == if x.id == id {
            x.end
        } else {
            last_end(tl, id)
        },
{
    if merge && continues(tl, x) {
        let joined = SegmentView { id: x.id, start: tl.last().start, end: x.end };
        assert(tl.drop_last().push(joined).drop_last() =~= tl.drop_last());
    } else {
        assert(tl.push(x).drop_last() =~= tl);
    }
}

/// Joining slices keeps the CPU time that the timeline hands out.
pub proof fn lemma_coalesce_duration(raw: Seq<SegmentView>)
    ensures
        total_duration(coalesce(raw)) == total_duration(raw),
    decreases raw.len(),
{
    if raw.len() > 0 {
        lemma_coalesce_duration(raw.drop_last());
        lemma_append_slice_duration(coalesce(raw.drop_last()), raw.last(), true);
    }
}

/// Joining slices keeps the time at which each process last leaves the CPU.
pub proof fn lemma_coalesce_last_end(raw: Seq<SegmentView>, id: Seq<char>)
    ensures
        last_end(coalesce(raw), id) == last_end(raw, id),
    decreases raw.len(),
{
    if raw.len() > 0 {
        lemma_coalesce_last_end(raw.drop_last(), id);
        lemma_append_slice_last_end(coalesce(raw.drop_last()), raw.last(), true, id);
    }
}

/// Whether the segments follow each other in time: each has a positive
/// length, starts no earlier than time 0 and no earlier than the one before
/// it ends.
pub open spec fn in_order(tl: Seq<SegmentView>) -> bool {
    &&& forall|j: int| 0 <= j < tl.len() ==> 0 <= (#[trigger] tl[j]).start < tl[j].end
    &&& forall|i: int, j: int| 0 <= i < j < tl.len() ==> (#[trigger] tl[i]).end <= (#[trigger] tl[j]).start
}

/// Whether no segment continues the one before it: neighbours belong to
/// different processes, or idle time lies between them.
pub open spec fn is_joined(tl: Seq<SegmentView>) -> bool {
    forall|j: int| 0 < j < tl.len() ==> !continues(tl.take(j), #[trigger] tl[j])
}

/// Joining keeps the segments in order, and the timeline still ends where
/// the last slice ends.
pub proof fn lemma_coalesce_in_order(raw: Seq<SegmentView>)
    requires
        in_order(raw),
    ensures
        in_order(coalesce(raw)),
        raw.len() > 0 ==> coalesce(raw).len() > 0 && coalesce(raw).last().end == raw.last().end,
    decreases raw.len(),
{
    if raw.len() > 0 {
        let front = raw.drop_last();
        let x = raw.last();
        assert forall|j: int| 0 <= j < front.len() implies 0 <= (#[trigger] front[j]).start < front[j].end by {
            assert(front[j] == raw[j]);
        }
        assert forall|i: int, j: int| 0 <= i < j < front.len() implies (#[trigger] front[i]).end <= (
        #[trigger] front[j]).start by {
            assert(front[i] == raw[i] && front[j] == raw[j]);
        }
        lemma_coalesce_in_order(front);
        let c = coalesce(front);
        let r = coalesce(raw);
        if front.len() > 0 {
            assert(front.last() == raw[raw.len() - 2]);
            assert(raw[raw.len() - 2].end <= raw[raw.len() - 1].start);
        }
        assert forall|j: int| 0 <= j < r.len() implies 0 <= (#[trigger] r[j]).start < r[j].end by {
            if j < r.len() - 1 {
                assert(r[j] == c[j]);
            }
        }
        assert forall|i: int, j: int| 0 <= i < j < r.len() implies (#[trigger] r[i]).end <= (#[trigger] r[j]).start by {
            assert(r[i] == c[i]);
            if j < r.len() - 1 {
                assert(r[j] == c[j]);
            } else if i < c.len() - 1 {
                assert(c[i].end <= c[c.len() - 1].start);
            }
        }
    }
}

/// In a joined timeline no segment continues the one before it.
pub proof fn lemma_coalesce_joined(raw: Seq<SegmentView>)
    ensures
        is_joined(coalesce(raw)),
    decreases raw.len(),
{
    if raw.len() > 0 {
        lemma_coalesce_joined(raw.drop_last());
        let c = coalesce(raw.drop_last());
        let r = coalesce(raw);
        assert forall|j: int| 0 < j < r.len() implies !continues(r.take(j), #[trigger] r[j]) by {
            if j < c.len() - 1 || (j == c.len() - 1 && r.len() > c.len()) {
                assert(r[j] == c[j]);
                assert(r.take(j) =~= c.take(j));
                assert(!continues(c.take(j), c[j]));
            } else if r.len() > c.len() {
                assert(r.take(j) =~= c);
            } else {
                assert(r.take(j) =~= c.take(j));
                assert(!continues(c.take(j), c[j]));
            }
        }
    }
}

/// The timeline of `raw` with one more slice is the timeline of `raw` with
/// that slice appended.
pub proof fn lemma_timeline_push(raw: Seq<SegmentView>, x: SegmentView, merge: bool)
    ensures
        timeline_from(raw.push(x), merge) == append_slice(timeline_from(raw, merge), x, merge),
{
    assert(raw.push(x).drop_last() =~= raw);
}

/// Adds the slice of process `id` from `start` to `end` to the timeline,
/// joining it with the last segment where `merge` asks for it.
pub fn record_slice(timeline: &mut Vec<Segment>, id: &String, start: i32, end: i32, merge: bool)
    ensures
        segment_views(final(timeline)@) == append_slice(
            segment_views(old(timeline)@),
            SegmentView { id: id@, start: start as int, end: end as int },
            merge,
        ),
{
    let ghost before = segment_views(timeline@);
    let ghost x = SegmentView { id: id@, start: start as int, end: end as int };
    let n: usize = timeline.len();
    if merge && n > 0 && timeline[n - 1].id == *id && timeline[n - 1].end == start {
        assert(before.last() == timeline@[n - 1]@);
        let last = timeline.pop().unwrap();
        let joined = Segment { id: last.id, start: last.start, end };
        timeline.push(joined);
        assert(segment_views(timeline@) =~= append_slice(before, x, merge));
    } else {
        if n > 0 {
            assert(before.last() == timeline@[n - 1]@);
        }
        timeline.push(Segment { id: id.clone(), start, end });
        assert(segment_views(timeline@) =~= append_slice(before, x, merge));
    }
}

} // verus!
