use vstd::prelude::*;

verus! {

/// Resolution state of a hunk.
#[derive(Debug, Clone, Copy, PartialEq, Eq, Structural)]
pub enum HunkStatus {
    Unresolved,
    AcceptedLocal,
    AcceptedRemote,
    AcceptedBoth,
    CustomEdit,
    AutoResolved,
}

/// Which side(s) contributed the change a hunk represents.
#[derive(Debug, Clone, Copy, PartialEq, Eq, Structural)]
pub enum HunkSource {
    Local,
    Remote,
    Both,
    Conflict,
}

/// A 1-indexed inclusive line span; `(0, 0)` stands for "no span".
#[derive(Debug, Clone, Copy, PartialEq, Eq, Structural)]
pub struct LineRange {
    pub start: usize,
    pub end: usize,
}

impl LineRange {
    pub open spec fn spec_is_empty(self) -> bool {
        self.start == 0 && self.end == 0
    }

    /// Number of lines the span covers; none when empty or inverted.
    pub open spec fn spec_line_count(self) -> int {
        if self.spec_is_empty() || self.end < self.start {
            0
        } else {
            self.end - self.start + 1
        }
    }

    pub fn new(start: usize, end: usize) -> (r: Self)
        ensures
            r.start == start,
            r.end == end,
    {
        LineRange { start, end }
    }

    pub fn empty() -> (r: Self)
        ensures
            r.start == 0,
            r.end == 0,
    {
        LineRange { start: 0, end: 0 }
    }

    pub fn is_empty(&self) -> (r: bool)
        ensures
            r == self.spec_is_empty(),
    {
        self.start == 0 && self.end == 0
    }

    /// The span's length; a span whose end lies before its start (a pure
    /// insertion point) counts as zero lines. The one count beyond `usize`
    /// (the span `0..=usize::MAX`) is reported as `usize::MAX`.
    pub fn line_count(&self) -> (r: usize)
        ensures
            r == (if self.spec_line_count() > usize::MAX { usize::MAX as int } else { self.spec_line_count() }),
    {
        if self.is_empty() || self.end < self.start {
            0
        } else {
            (self.end - self.start).saturating_add(1)
        }
    }
}

/// One changed or conflicting region, tracked across base, local, remote and
/// the live result text.
#[derive(Debug, Clone)]
pub struct MergeHunk {
    pub id: usize,
    pub base_range: LineRange,
    pub local_range: LineRange,
    pub remote_range: LineRange,
    pub result_range: LineRange,
    pub source: HunkSource,
    pub status: HunkStatus,
    pub local_content: String,
    pub remote_content: String,
    pub base_content: String,
}

/// Everything one merge invocation works on.
#[derive(Debug, Clone)]
pub struct MergeSession {
    pub base_path: String,
    pub local_path: String,
    pub remote_path: String,
    pub merged_path: String,
    pub base_content: String,
    pub local_content: String,
    pub remote_content: String,
    pub result_content: String,
    pub hunks: Vec<MergeHunk>,
    pub language: String,
}

/// Two hunks hold the same snapshots and the same base/local/remote spans:
/// the parts that never change once a hunk exists.
pub open spec fn same_snapshot(a: MergeHunk, b: MergeHunk) -> bool {
    &&& a.id == b.id
    &&& a.base_range == b.base_range
    &&& a.local_range == b.local_range
    &&& a.remote_range == b.remote_range
    &&& a.source == b.source
    &&& a.local_content@ == b.local_content@
    &&& a.remote_content@ == b.remote_content@
    &&& a.base_content@ == b.base_content@
}

/// Copies a hunk field by field; the copy equals the original in every field.
pub fn copy_hunk(h: &MergeHunk) -> (r: MergeHunk)
    ensures
        same_snapshot(r, *h),
        r.result_range == h.result_range,
        r.status == h.status,
{
    MergeHunk {
        id: h.id,
        base_range: h.base_range,
        local_range: h.local_range,
        remote_range: h.remote_range,
        result_range: h.result_range,
        source: h.source,
        status: h.status,
        local_content: h.local_content.clone(),
        remote_content: h.remote_content.clone(),
        base_content: h.base_content.clone(),
    }
}

} // verus!
