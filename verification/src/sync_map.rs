//! How the lines of a generated file map to the lines of the source they come from.
use crate::paths::{FilePath, PathView};
use vstd::prelude::*;

verus! {

/// A run of lines of a generated file that was taken from the source.
#[derive(Clone, Copy, Debug, PartialEq, Eq)]
pub struct SyncTexLineSegment {
    pub temp_start_line: u128,
    pub line_count: u128,
    pub source_start_line: u128,
}

impl SyncTexLineSegment {
    /// Both runs of lines end at numbers that can be written down.
    pub open spec fn wf(self) -> bool {
        &&& self.temp_start_line + self.line_count <= u128::MAX
        &&& self.source_start_line + self.line_count <= u128::MAX
    }

    /// Whether `line` of the generated file is in the run.
    pub open spec fn covers(self, line: int) -> bool {
        self.temp_start_line <= line < self.temp_start_line + self.line_count
    }
}

/// Every segment is well formed.
pub open spec fn segments_wf(segments: Seq<SyncTexLineSegment>) -> bool {
    forall|i: int| 0 <= i < segments.len() ==> (#[trigger] segments[i]).wf()
}

/// The source line of `line`: the last segment that covers the line decides, and a line that no
/// segment covers keeps its number.
pub open spec fn mapped_line(segments: Seq<SyncTexLineSegment>, line: nat) -> nat
    decreases segments.len(),
{
    if segments.len() == 0 {
        line
    } else if segments.last().covers(line as int) {
        (segments.last().source_start_line + (line - segments.last().temp_start_line)) as nat
    } else {
        mapped_line(segments.drop_last(), line)
    }
}

/// A line that no segment covers keeps its number.
pub proof fn law_uncovered_line_is_kept(segments: Seq<SyncTexLineSegment>, line: nat)
    requires
        forall|i: int|
            0 <= i < segments.len() ==> !(#[trigger] segments[i]).covers(line as int),
    ensures
        mapped_line(segments, line) == line,
    decreases segments.len(),
{
    if segments.len() > 0 {
        assert(!segments[segments.len() - 1].covers(line as int));
        assert forall|i: int| 0 <= i < segments.drop_last().len() implies !(
        #[trigger] segments.drop_last()[i]).covers(line as int) by {
            assert(!segments[i].covers(line as int));
        }
        law_uncovered_line_is_kept(segments.drop_last(), line);
    }
}

/// Where segments overlap, the one that was added last decides.
pub proof fn law_last_covering_segment_decides(
    segments: Seq<SyncTexLineSegment>,
    line: nat,
    k: int,
)
    requires
        0 <= k < segments.len(),
        segments[k].covers(line as int),
        forall|i: int|
            k < i < segments.len() ==> !(#[trigger] segments[i]).covers(line as int),
    ensures
        mapped_line(segments, line) == segments[k].source_start_line + (line
            - segments[k].temp_start_line),
    decreases segments.len(),
{
    if k < segments.len() - 1 {
        assert(!segments[segments.len() - 1].covers(line as int));
        assert forall|i: int| k < i < segments.drop_last().len() implies !(
        #[trigger] segments.drop_last()[i]).covers(line as int) by {
            assert(!segments[i].covers(line as int));
        }
        law_last_covering_segment_decides(segments.drop_last(), line, k);
    }
}

/// Neighbouring lines of one run stay neighbours: inside a segment the mapping keeps distances.
pub proof fn law_mapping_keeps_distance(
    segments: Seq<SyncTexLineSegment>,
    line: nat,
    next: nat,
    k: int,
)
    requires
        0 <= k < segments.len(),
        line <= next,
        segments[k].covers(line as int),
        segments[k].covers(next as int),
        forall|i: int|
            k < i < segments.len() ==> !(#[trigger] segments[i]).covers(line as int)
                && !segments[i].covers(next as int),
    ensures
        mapped_line(segments, next) - mapped_line(segments, line) == next - line,
{
    law_last_covering_segment_decides(segments, line, k);
    law_last_covering_segment_decides(segments, next, k);
}

/// The source line that a line of the generated file comes from.
pub fn map_temp_line_from_segments(segments: &[SyncTexLineSegment], temp_line: usize) -> (r: u128)
    requires
        segments_wf(segments@),
    ensures
        r == mapped_line(segments@, temp_line as nat),
{
    let line: u128 = temp_line as u128;
    let mut i: usize = segments.len();
    assert(segments@.take(i as int) =~= segments@);
    while i > 0
        invariant
            i <= segments.len(),
            line == temp_line,
            segments_wf(segments@),
            mapped_line(segments@.take(i as int), line as nat) == mapped_line(
                segments@,
                line as nat,
            ),
        decreases i,
    {
        let segment = segments[i - 1];
        assert(segments@.take(i as int).last() == segment);
        assert(segments@.take(i as int).drop_last() =~= segments@.take(i - 1));
        assert(segments@[i - 1].wf());
        if line >= segment.temp_start_line && line < segment.temp_start_line + segment.line_count {
            return segment.source_start_line + (line - segment.temp_start_line);
        }
        i -= 1;
    }
    line
}

/// How the lines of one generated file map to the lines of its source.
#[derive(Clone, Debug)]
pub struct FrameSyncTexMap {
    pub source_file: FilePath,
    pub temp_file_name: String,
    pub segments: Vec<SyncTexLineSegment>,
}

/// What a map holds.
#[verifier::ext_equal]
pub struct SyncMapView {
    pub source_file: PathView,
    pub temp_file_name: Seq<char>,
    pub segments: Seq<SyncTexLineSegment>,
}

impl View for FrameSyncTexMap {
    type V = SyncMapView;

    open spec fn view(&self) -> SyncMapView {
        SyncMapView {
            source_file: self.source_file@,
            temp_file_name: self.temp_file_name@,
            segments: self.segments@,
        }
    }
}

impl FrameSyncTexMap {
    /// Every segment is well formed.
    pub open spec fn wf(&self) -> bool {
        segments_wf(self.segments@)
    }

    /// The source line that a line of the generated file comes from.
    pub fn map_temp_line(&self, temp_line: usize) -> (r: u128)
        requires
            self.wf(),
        ensures
            r == mapped_line(self@.segments, temp_line as nat),
    {
        map_temp_line_from_segments(&self.segments, temp_line)
    }
}

}
