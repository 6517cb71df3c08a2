use vstd::prelude::*;
use crate::hunk::{same_snapshot, HunkSource, HunkStatus, LineRange, MergeHunk, MergeSession};
use crate::text::{lines_of, push_all, push_span, slice_lines, split_lines, views};
use crate::three_way::{rebuild_result, rebuilt};

verus! {

/// `x` moved by `new_count - old_count` lines, held within `0..=usize::MAX`.
pub open spec fn shifted(x: usize, new_count: int, old_count: int) -> usize {
    let v = x + new_count - old_count;
    if v < 0 {
        0
    } else if v > usize::MAX {
        usize::MAX
    } else {
        v as usize
    }
}

/// The span of a hunk after another hunk whose result span started at
/// `pivot` changed from `old_count` to `new_count` lines: spans starting after
/// the pivot move by the difference, others stay.
pub open spec fn rebased(r: LineRange, pivot: usize, new_count: int, old_count: int) -> LineRange {
    if r.start > pivot {
        LineRange { start: shifted(r.start, new_count, old_count), end: shifted(r.end, new_count, old_count) }
    } else {
        r
    }
}

/// The span of a resolved hunk whose new content has `new_count` lines: it
/// keeps its start, or becomes empty when there are no lines.
pub open spec fn own_range(r: LineRange, new_count: int) -> LineRange {
    if new_count > 0 {
        let e = r.start + new_count - 1;
        LineRange { start: r.start, end: if e > usize::MAX { usize::MAX } else { e as usize } }
    } else {
        LineRange { start: 0, end: 0 }
    }
}

/// The line count of a span as `LineRange::line_count` reports it.
pub open spec fn counted(r: LineRange) -> int {
    if r.spec_line_count() > usize::MAX {
        usize::MAX as int
    } else {
        r.spec_line_count()
    }
}

/// The session fields that no resolution touches are the same.
pub open spec fn same_inputs(a: MergeSession, b: MergeSession) -> bool {
    &&& a.base_path@ == b.base_path@
    &&& a.local_path@ == b.local_path@
    &&& a.remote_path@ == b.remote_path@
    &&& a.merged_path@ == b.merged_path@
    &&& a.base_content@ == b.base_content@
    &&& a.local_content@ == b.local_content@
    &&& a.remote_content@ == b.remote_content@
    &&& a.language@ == b.language@
}

/// `new` is `old` with hunk `k` resolved to the lines `content` under
/// `status`: the hunk's span in the result text is replaced by them, the
/// hunk takes the new status and span, and every other hunk starting after
/// it in the result moves by the change in line count.
pub open spec fn resolved_by(old: MergeSession, new: MergeSession, k: int, content: Seq<Seq<char>>, status: HunkStatus) -> bool {
    let target = old.hunks@[k];
    let n = content.len() as int;
    let c = counted(target.result_range);
    &&& same_inputs(old, new)
    &&& new.result_content@ == rebuilt(old.result_content@, target.result_range, content)
    &&& new.hunks@.len() == old.hunks@.len()
    &&& forall|i: int| 0 <= i < old.hunks@.len() ==> same_snapshot(#[trigger] new.hunks@[i], old.hunks@[i])
    &&& new.hunks@[k].status == status
    &&& new.hunks@[k].result_range == own_range(target.result_range, n)
    &&& forall|i: int|
        0 <= i < old.hunks@.len() && i != k ==> {
            &&& (#[trigger] new.hunks@[i]).status == old.hunks@[i].status
            &&& new.hunks@[i].result_range == rebased(old.hunks@[i].result_range, target.result_range.start, n, c)
        }
}

/// The lines of a side's text over a hunk's span in that text.
pub open spec fn side_lines(text: Seq<char>, r: LineRange) -> Seq<Seq<char>> {
    slice_lines(lines_of(text), r.start as int, r.end as int)
}

/// The lines that accepting both sides yields: the hunk's local lines, then
/// its remote lines.
pub open spec fn both_lines(s: MergeSession, h: MergeHunk) -> Seq<Seq<char>> {
    side_lines(s.local_content@, h.local_range) + side_lines(s.remote_content@, h.remote_range)
}

/// The lines a terminal decision puts in place of a hunk, taken from the
/// session's local and remote texts over the hunk's spans.
pub open spec fn chosen_lines(s: MergeSession, h: MergeHunk, status: HunkStatus) -> Seq<Seq<char>> {
    match status {
        HunkStatus::AcceptedLocal => side_lines(s.local_content@, h.local_range),
        HunkStatus::AcceptedRemote => side_lines(s.remote_content@, h.remote_range),
        _ => both_lines(s, h),
    }
}

pub open spec fn is_decision(status: HunkStatus) -> bool {
    status == HunkStatus::AcceptedLocal || status == HunkStatus::AcceptedRemote || status == HunkStatus::AcceptedBoth
}

/// `k` is the first position of a hunk numbered `id`.
pub open spec fn first_with_id(hs: Seq<MergeHunk>, id: usize, k: int) -> bool {
    &&& 0 <= k < hs.len()
    &&& hs[k].id == id
    &&& forall|j: int| 0 <= j < k ==> (#[trigger] hs[j]).id != id
}

fn shift(x: usize, new_count: usize, old_count: usize) -> (r: usize)
    ensures
        r == shifted(x, new_count as int, old_count as int),
{
    if new_count >= old_count {
        x.saturating_add(new_count - old_count)
    } else {
        x.saturating_sub(old_count - new_count)
    }
}

/// The lines of `text` over the span `r`.
pub fn span_lines(text: &str, r: LineRange) -> (v: Vec<String>)
    ensures
        views(v@) == side_lines(text@, r),
{
    let lines = split_lines(text);
    let mut v: Vec<String> = Vec::new();
    push_span(&mut v, &lines, r.start, r.end);
    proof {
        assert(views(v@) =~= side_lines(text@, r));
    }
    v
}

/// The lines of a hunk's local span followed by those of its remote span.
pub fn both_span_lines(session: &MergeSession, k: usize) -> (v: Vec<String>)
    requires
        k < session.hunks@.len(),
    ensures
        views(v@) == both_lines(*session, session.hunks@[k as int]),
{
    let mut v = span_lines(session.local_content.as_str(), session.hunks[k].local_range);
    let r = span_lines(session.remote_content.as_str(), session.hunks[k].remote_range);
    push_all(&mut v, &r);
    v
}

/// Replaces the result span of hunk `k` by `content`, gives that hunk
/// `status`, and moves every hunk after it by the change in line count.
pub fn apply_resolution(session: &mut MergeSession, k: usize, content: &Vec<String>, status: HunkStatus)
    requires
        k < old(session).hunks@.len(),
    ensures
        resolved_by(*old(session), *final(session), k as int, views(content@), status),
{
    let target = &session.hunks[k];
    let new_result = rebuild_result(session.result_content.as_str(), target, content);
    let old_count = target.result_range.line_count();
    let new_count = content.len();
    let pivot = target.result_range.start;
    let ghost old_hunks = session.hunks@;
    let mut i: usize = 0;
    while i < session.hunks.len()
        invariant
            i <= session.hunks@.len(),
            session.hunks@.len() == old_hunks.len(),
            k < old_hunks.len(),
            pivot == old_hunks[k as int].result_range.start,
            old_count == counted(old_hunks[k as int].result_range),
            same_inputs(*old(session), *session),
            session.result_content == old(session).result_content,
            old_hunks == old(session).hunks@,
            forall|j: int| 0 <= j < old_hunks.len() ==> same_snapshot(#[trigger] session.hunks@[j], old_hunks[j]),
            forall|j: int| i <= j < old_hunks.len() ==> (#[trigger] session.hunks@[j]) == old_hunks[j],
            i > k ==> session.hunks@[k as int].status == status,
            i > k ==> session.hunks@[k as int].result_range == own_range(old_hunks[k as int].result_range, new_count as int),
            forall|j: int|
                0 <= j < i && j != k ==> {
                    &&& (#[trigger] session.hunks@[j]).status == old_hunks[j].status
                    &&& session.hunks@[j].result_range == rebased(old_hunks[j].result_range, pivot, new_count as int, old_count as int)
                },
        decreases old_hunks.len() - i,
    {
        if i == k {
            let start = session.hunks[i].result_range.start;
            session.hunks[i].status = status;
            if new_count > 0 {
                session.hunks[i].result_range.end = start.saturating_add(new_count - 1);
            } else {
                session.hunks[i].result_range = LineRange::empty();
            }
        } else if session.hunks[i].result_range.start > pivot {
            let s = shift(session.hunks[i].result_range.start, new_count, old_count);
            let e = shift(session.hunks[i].result_range.end, new_count, old_count);
            session.hunks[i].result_range = LineRange::new(s, e);
        }
        i += 1;
    }
    session.result_content = new_result;
}

/// Resolves the first hunk numbered `hunk_id` by accepting local, remote or
/// both. An unknown id, or a status that is no such decision, leaves the
/// session as it is.
pub fn resolve_hunk(session: &mut MergeSession, hunk_id: usize, status: HunkStatus)
    ensures
        (forall|j: int| 0 <= j < old(session).hunks@.len() ==> (#[trigger] old(session).hunks@[j]).id != hunk_id)
            ==> *final(session) == *old(session),
        !is_decision(status) ==> *final(session) == *old(session),
        forall|k: int|
            first_with_id(old(session).hunks@, hunk_id, k) && is_decision(status) ==> resolved_by(
                *old(session),
                *final(session),
                k,
                chosen_lines(*old(session), old(session).hunks@[k], status),
                status,
            ),
{
    let mut k: usize = 0;
    while k < session.hunks.len() && session.hunks[k].id != hunk_id
        invariant
            k <= session.hunks@.len(),
            forall|j: int| 0 <= j < k ==> (#[trigger] session.hunks@[j]).id != hunk_id,
        decreases session.hunks@.len() - k,
    {
        k += 1;
    }
    if k == session.hunks.len() {
        return;
    }
    let content = match status {
        HunkStatus::AcceptedLocal => span_lines(session.local_content.as_str(), session.hunks[k].local_range),
        HunkStatus::AcceptedRemote => span_lines(session.remote_content.as_str(), session.hunks[k].remote_range),
        HunkStatus::AcceptedBoth => both_span_lines(session, k),
        _ => {
            return;
        },
    };
    proof {
        assert(first_with_id(session.hunks@, hunk_id, k as int));
        assert forall|k2: int| first_with_id(session.hunks@, hunk_id, k2) implies k2 == k by {
            if k2 < k {
                assert(session.hunks@[k2].id != hunk_id);
            } else if k2 > k {
                assert(session.hunks@[k as int].id != hunk_id);
            }
        }
    }
    apply_resolution(session, k, &content, status);
}

/// Marks every unresolved hunk that is not a conflict as auto-resolved.
pub fn auto_resolve_non_conflicts(session: &mut MergeSession)
    ensures
        same_inputs(*old(session), *final(session)),
        final(session).result_content == old(session).result_content,
        final(session).hunks@.len() == old(session).hunks@.len(),
        forall|i: int| 0 <= i < old(session).hunks@.len() ==> {
            let h = old(session).hunks@[i];
            &&& same_snapshot(#[trigger] final(session).hunks@[i], h)
            &&& final(session).hunks@[i].result_range == h.result_range
            &&& final(session).hunks@[i].status == if h.status == HunkStatus::Unresolved && h.source != HunkSource::Conflict {
                HunkStatus::AutoResolved
            } else {
                h.status
            }
        },
{
    let ghost old_hunks = session.hunks@;
    let mut i: usize = 0;
    while i < session.hunks.len()
        invariant
            i <= session.hunks@.len(),
            session.hunks@.len() == old_hunks.len(),
            old_hunks == old(session).hunks@,
            same_inputs(*old(session), *session),
            session.result_content == old(session).result_content,
            forall|j: int| 0 <= j < old_hunks.len() ==> same_snapshot(#[trigger] session.hunks@[j], old_hunks[j]),
            forall|j: int| 0 <= j < old_hunks.len() ==> (#[trigger] session.hunks@[j]).result_range == old_hunks[j].result_range,
            forall|j: int| i <= j < old_hunks.len() ==> (#[trigger] session.hunks@[j]).status == old_hunks[j].status,
            forall|j: int| 0 <= j < i ==> (#[trigger] session.hunks@[j]).status == if old_hunks[j].status == HunkStatus::Unresolved && old_hunks[j].source != HunkSource::Conflict {
                HunkStatus::AutoResolved
            } else {
                old_hunks[j].status
            },
        decreases old_hunks.len() - i,
    {
        if session.hunks[i].status == HunkStatus::Unresolved && session.hunks[i].source != HunkSource::Conflict {
            session.hunks[i].status = HunkStatus::AutoResolved;
        }
        i += 1;
    }
}

/// Resolving a hunk moves every other hunk that starts after it in the
/// result text by exactly the change in line count of the resolved span
/// (new lines minus old lines), and leaves that hunk's span length as it was
/// (where the moved span still starts at line 1 or later and ends within
/// `usize`).
pub proof fn resolution_shifts_later_hunks(
    old: MergeSession,
    new: MergeSession,
    k: int,
    content: Seq<Seq<char>>,
    status: HunkStatus,
    b: int,
)
    requires
        0 <= k < old.hunks@.len(),
        0 <= b < old.hunks@.len(),
        b != k,
        resolved_by(old, new, k, content, status),
        old.hunks@[b].result_range.start > old.hunks@[k].result_range.start,
        old.hunks@[b].result_range.start + content.len() - counted(old.hunks@[k].result_range) >= 1,
        old.hunks@[b].result_range.end + content.len() - counted(old.hunks@[k].result_range) >= 0,
        old.hunks@[b].result_range.end + content.len() - counted(old.hunks@[k].result_range) <= usize::MAX,
        old.hunks@[b].result_range.start <= old.hunks@[b].result_range.end,
    ensures
        new.hunks@[b].result_range.start == old.hunks@[b].result_range.start + content.len() - counted(old.hunks@[k].result_range),
        new.hunks@[b].result_range.end == old.hunks@[b].result_range.end + content.len() - counted(old.hunks@[k].result_range),
        new.hunks@[b].result_range.spec_line_count() == old.hunks@[b].result_range.spec_line_count(),
        new.hunks@[b].id == old.hunks@[b].id,
{
    assert(same_snapshot(new.hunks@[b], old.hunks@[b]));
}

} // verus!
