//! The rows of a printed Gantt chart: the names of the segments, the
//! boundary times between them, and where each time is written.

use crate::process::{views, Process};
use crate::ready::{earliest_arrival, find_earliest_arrival};
use crate::timeline::{segment_views, Segment, SegmentView};
use vstd::prelude::*;

verus! {

/// The ids of the segments, in order.
pub open spec fn labels_of(tl: Seq<SegmentView>) -> Seq<Seq<char>> {
    Seq::new(tl.len(), |j: int| tl[j].id)
}

/// The models of a sequence of strings, element by element.
pub open spec fn string_views(strings: Seq<String>) -> Seq<Seq<char>> {
    Seq::new(strings.len(), |j: int| strings[j]@)
}

/// The process ids of a timeline, one for each segment: the row of names of
/// a Gantt chart.
pub fn labels(timeline: &Vec<Segment>) -> (names: Vec<String>)
    ensures
        string_views(names@) == labels_of(segment_views(timeline@)),
{
    let mut names: Vec<String> = Vec::new();
    let mut j: usize = 0;
    while j < timeline.len()
        invariant
            j <= timeline.len(),
            names.len() == j,
            forall|k: int| 0 <= k < j ==> (#[trigger] names@[k])@ == timeline@[k].id@,
        decreases timeline.len() - j,
    {
        names.push(timeline[j].id.clone());
        j += 1;
    }
    assert(string_views(names@) =~= labels_of(segment_views(timeline@)));
    names
}

/// The boundary timestamps of a Gantt chart: the earliest arrival among the
/// processes, then the end of each segment, so one more than there are
/// segments. Without processes there is no earliest arrival and no chart.
pub fn boundaries(processes: &Vec<Process>, timeline: &Vec<Segment>) -> (times: Option<Vec<i32>>)
    ensures
        times is Some <==> processes.len() > 0,
        times matches Some(t) ==> {
            &&& t.len() == timeline.len() + 1
            &&& t[0] == earliest_arrival(views(processes@))
            &&& forall|j: int| 1 <= j <= timeline.len() ==> #[trigger] t[j] == timeline[j - 1].end
        },
{
    if processes.len() == 0 {
        return None;
    }
    let mut times: Vec<i32> = Vec::new();
    times.push(find_earliest_arrival(processes));
    let mut j: usize = 0;
    while j < timeline.len()
        invariant
            j <= timeline.len(),
            times.len() == j + 1,
            times@[0] == earliest_arrival(views(processes@)),
            forall|k: int| 1 <= k <= j ==> #[trigger] times@[k] == timeline@[k - 1].end,
        decreases timeline.len() - j,
    {
        times.push(timeline[j].end);
        j += 1;
    }
    Some(times)
}

/// The width of one cell of a printed chart, its border included.
pub const CELL_WIDTH: usize = 5;

/// Where the label of the boundary behind cell number `position` starts on
/// the chart's bottom line, so that a label of `width` characters ends under
/// the right border of that cell. `None` where the label is too wide to fit
/// on the line, or the place is beyond what a `usize` holds.
pub fn label_offset(position: usize, width: usize) -> (offset: Option<usize>)
    ensures
        offset is Some <==> width <= position * CELL_WIDTH + 1 <= usize::MAX,
        offset matches Some(o) ==> o == position * CELL_WIDTH + 1 - width,
{
    if position > (usize::MAX - 1) / CELL_WIDTH {
        return None;
    }
    let end: usize = position * CELL_WIDTH + 1;
    if width > end {
        None
    } else {
        Some(end - width)
    }
}

} // verus!
