use vstd::prelude::*;
use crate::hunk::{copy_hunk, same_snapshot, HunkSource, HunkStatus, LineRange, MergeHunk};
use crate::text::{lemma_join_lines_of, no_cr, join_lines, join_nl, lines_of, push_all, push_line, push_span, slice_join, slice_lines, split_lines, views};

verus! {

/// One operation of a line-level edit script from a base text to a side text.
#[derive(Debug, Clone, Copy, PartialEq, Eq, Structural)]
pub enum DiffTag {
    Equal,
    Delete,
    Insert,
}

/// A maximal changed span: base lines `base_start..=base_end` became side
/// lines `side_start..=side_end`. A pure insertion has `base_end ==
/// base_start - 1`; a pure deletion has `side_end == side_start - 1`.
#[derive(Debug, Clone, Copy, PartialEq, Eq, Structural)]
pub struct DiffRegion {
    pub base_start: usize,
    pub base_end: usize,
    pub side_start: usize,
    pub side_end: usize,
}

/// The line edit script that `similar` computes from `old` to `new`.
pub uninterp spec fn line_script_of(old: Seq<char>, new: Seq<char>) -> Seq<DiffTag>;

/// Relies on `similar::TextDiff::from_lines` and `iter_all_changes`: the
/// script depends on the two texts alone (no deadline is configured). A
/// vector of one-byte items holds at most `isize::MAX` of them.
#[verifier::external_body]
fn line_script(old: &str, new: &str) -> (r: Vec<DiffTag>)
    ensures
        r@ == line_script_of(old@, new@),
        r@.len() <= isize::MAX,
{
    similar::TextDiff::from_lines(old, new)
        .iter_all_changes()
        .map(|c| match c.tag() {
            similar::ChangeTag::Equal => DiffTag::Equal,
            similar::ChangeTag::Delete => DiffTag::Delete,
            similar::ChangeTag::Insert => DiffTag::Insert,
        })
        .collect()
}

/// Scanner state while folding an edit script into regions: regions found so
/// far, 1-indexed base and side cursors, whether a region is open, and the
/// open region.
pub type ScanState = (Seq<DiffRegion>, int, int, bool, DiffRegion);

/// The open region closed just before the current cursors.
pub open spec fn closed(st: ScanState) -> DiffRegion {
    DiffRegion {
        base_end: (st.1 - 1) as usize,
        side_end: (st.2 - 1) as usize,
        ..st.4
    }
}

pub open spec fn scan_step(st: ScanState, tag: DiffTag) -> ScanState {
    match tag {
        DiffTag::Equal => {
            let regions = if st.3 { st.0.push(closed(st)) } else { st.0 };
            let cur = if st.3 { closed(st) } else { st.4 };
            (regions, st.1 + 1, st.2 + 1, false, cur)
        },
        DiffTag::Delete => {
            let cur = if st.3 {
                st.4
            } else {
                DiffRegion {
                    base_start: st.1 as usize,
                    base_end: st.1 as usize,
                    side_start: st.2 as usize,
                    side_end: (st.2 - 1) as usize,
                }
            };
            (st.0, st.1 + 1, st.2, true, cur)
        },
        DiffTag::Insert => {
            let cur = if st.3 {
                st.4
            } else {
                DiffRegion {
                    base_start: st.1 as usize,
                    base_end: (st.1 - 1) as usize,
                    side_start: st.2 as usize,
                    side_end: st.2 as usize,
                }
            };
            (st.0, st.1, st.2 + 1, true, cur)
        },
    }
}

pub open spec fn scan(tags: Seq<DiffTag>) -> ScanState
    decreases tags.len(),
{
    if tags.len() == 0 {
        (Seq::<DiffRegion>::empty(), 1, 1, false, DiffRegion { base_start: 0, base_end: 0, side_start: 0, side_end: 0 })
    } else {
        scan_step(scan(tags.drop_last()), tags.last())
    }
}

/// The changed regions of an edit script, in base order: each maximal run of
/// non-equal operations is one region.
pub open spec fn regions_of(tags: Seq<DiffTag>) -> Seq<DiffRegion> {
    let st = scan(tags);
    if st.3 { st.0.push(closed(st)) } else { st.0 }
}

proof fn lemma_scan_bounds(tags: Seq<DiffTag>)
    ensures
        1 <= scan(tags).1 <= tags.len() + 1,
        1 <= scan(tags).2 <= tags.len() + 1,
    decreases tags.len(),
{
    if tags.len() > 0 {
        lemma_scan_bounds(tags.drop_last());
    }
}

/// Regions in `rs` come in base order, each ending (inclusively) more than
/// one line before the next one starts, and no region ends before the line
/// preceding its start.
pub open spec fn regions_ordered(rs: Seq<DiffRegion>) -> bool {
    &&& forall|i: int, j: int| 0 <= i < j < rs.len() ==> rs[i].base_end + 1 < rs[j].base_start
    &&& forall|i: int| 0 <= i < rs.len() ==> rs[i].base_start <= rs[i].base_end + 1
}

spec fn scan_ordered(st: ScanState) -> bool {
    &&& regions_ordered(st.0)
    &&& forall|i: int| 0 <= i < st.0.len() ==> st.0[i].base_end + 1 < st.1
    &&& st.3 ==> {
        &&& 1 <= st.4.base_start <= st.1
        &&& forall|i: int| 0 <= i < st.0.len() ==> st.0[i].base_end + 1 < st.4.base_start
    }
}

proof fn lemma_scan_ordered(tags: Seq<DiffTag>)
    requires
        tags.len() < usize::MAX,
    ensures
        scan_ordered(scan(tags)),
    decreases tags.len(),
{
    if tags.len() > 0 {
        let prev = tags.drop_last();
        lemma_scan_ordered(prev);
        lemma_scan_bounds(prev);
        let st = scan(prev);
        let nx = scan(tags);
        assert(nx == scan_step(st, tags.last()));
        if tags.last() == DiffTag::Equal && st.3 {
            let c = closed(st);
            assert(c.base_end + 1 == st.1);
            assert(nx.0 == st.0.push(c));
            assert forall|i: int, j: int| 0 <= i < j < nx.0.len() implies nx.0[i].base_end + 1 < nx.0[j].base_start by {
                if j == st.0.len() {
                    assert(nx.0[i] == st.0[i]);
                } else {
                    assert(nx.0[i] == st.0[i] && nx.0[j] == st.0[j]);
                }
            }
            assert forall|i: int| 0 <= i < nx.0.len() implies nx.0[i].base_start <= nx.0[i].base_end + 1 by {
                if i < st.0.len() {
                    assert(nx.0[i] == st.0[i]);
                }
            }
            assert forall|i: int| 0 <= i < nx.0.len() implies nx.0[i].base_end + 1 < nx.1 by {
                if i < st.0.len() {
                    assert(nx.0[i] == st.0[i]);
                }
            }
        }
    }
}

/// The regions of an edit script come in ascending base order and never
/// overlap: each ends before the next starts.
pub proof fn regions_in_base_order(tags: Seq<DiffTag>)
    requires
        tags.len() < usize::MAX,
    ensures
        regions_ordered(regions_of(tags)),
        forall|i: int, j: int| 0 <= i < j < regions_of(tags).len() ==>
            regions_of(tags)[i].base_start < regions_of(tags)[j].base_start
            && regions_of(tags)[i].base_end < regions_of(tags)[j].base_start,
{
    lemma_scan_ordered(tags);
    lemma_scan_bounds(tags);
    let st = scan(tags);
    let rs = regions_of(tags);
    if st.3 {
        let c = closed(st);
        assert(rs == st.0.push(c));
        assert forall|i: int, j: int| 0 <= i < j < rs.len() implies rs[i].base_end + 1 < rs[j].base_start by {
            if j == st.0.len() {
                assert(rs[i] == st.0[i]);
            } else {
                assert(rs[i] == st.0[i] && rs[j] == st.0[j]);
            }
        }
        assert forall|i: int| 0 <= i < rs.len() implies rs[i].base_start <= rs[i].base_end + 1 by {
            if i < st.0.len() {
                assert(rs[i] == st.0[i]);
            }
        }
    }
    assert forall|i: int, j: int| 0 <= i < j < rs.len() implies rs[i].base_start < rs[j].base_start
        && rs[i].base_end < rs[j].base_start by {
        assert(rs[i].base_end + 1 < rs[j].base_start);
        assert(rs[i].base_start <= rs[i].base_end + 1);
    }
}

/// Folds an edit script into its changed regions.
pub fn extract_regions(script: &Vec<DiffTag>) -> (r: Vec<DiffRegion>)
    requires
        script@.len() < usize::MAX,
    ensures
        r@ == regions_of(script@),
{
    let mut regions: Vec<DiffRegion> = Vec::new();
    let mut base_line: usize = 1;
    let mut side_line: usize = 1;
    let mut in_change = false;
    let mut region = DiffRegion { base_start: 0, base_end: 0, side_start: 0, side_end: 0 };
    let mut i: usize = 0;
    while i < script.len()
        invariant
            i <= script@.len() < usize::MAX,
            scan(script@.subrange(0, i as int)) == (regions@, base_line as int, side_line as int, in_change, region),
        decreases script@.len() - i,
    {
        proof {
            assert(script@.subrange(0, i + 1).drop_last() =~= script@.subrange(0, i as int));
            assert(script@.subrange(0, i + 1).last() == script@[i as int]);
            lemma_scan_bounds(script@.subrange(0, i as int));
        }
        let ghost before = scan(script@.subrange(0, i as int));
        let ghost after = scan_step(before, script@[i as int]);
        match script[i] {
            DiffTag::Equal => {
                if in_change {
                    region.base_end = base_line - 1;
                    region.side_end = side_line - 1;
                    regions.push(region);
                    in_change = false;
                }
                base_line += 1;
                side_line += 1;
            },
            DiffTag::Delete => {
                if !in_change {
                    region = DiffRegion {
                        base_start: base_line,
                        base_end: base_line,
                        side_start: side_line,
                        side_end: side_line - 1,
                    };
                    in_change = true;
                }
                base_line += 1;
            },
            DiffTag::Insert => {
                if !in_change {
                    region = DiffRegion {
                        base_start: base_line,
                        base_end: base_line - 1,
                        side_start: side_line,
                        side_end: side_line,
                    };
                    in_change = true;
                }
                side_line += 1;
            },
        }
        assert((regions@, base_line as int, side_line as int, in_change, region) == after);
        i += 1;
    }
    proof {
        assert(script@.subrange(0, i as int) =~= script@);
        lemma_scan_bounds(script@);
    }
    if in_change {
        region.base_end = base_line - 1;
        region.side_end = side_line - 1;
        regions.push(region);
    }
    regions
}

/// Two regions' base spans meet; a pure insertion counts as the one line at
/// its recorded start.
pub open spec fn overlaps(a: DiffRegion, b: DiffRegion) -> bool {
    let a_end = if a.base_end >= a.base_start { a.base_end } else { a.base_start };
    let b_end = if b.base_end >= b.base_start { b.base_end } else { b.base_start };
    a.base_start <= b_end && b.base_start <= a_end
}

/// Checks whether two regions' base spans overlap.
pub fn ranges_overlap(a: &DiffRegion, b: &DiffRegion) -> (r: bool)
    ensures
        r == overlaps(*a, *b),
{
    let a_end = if a.base_end >= a.base_start { a.base_end } else { a.base_start };
    let b_end = if b.base_end >= b.base_start { b.base_end } else { b.base_start };
    a.base_start <= b_end && b.base_start <= a_end
}

pub open spec fn rem(len: nat, i: nat) -> nat {
    if i < len { (len - i) as nat } else { 0 }
}

/// The two-pointer walk over local regions `l` and remote regions `r` from
/// positions `li` and `ri`: each step names the hunk's source and the
/// positions of the regions it is made from.
pub open spec fn plan_from(l: Seq<DiffRegion>, r: Seq<DiffRegion>, li: nat, ri: nat) -> Seq<(HunkSource, nat, nat)>
    decreases rem(l.len(), li) + rem(r.len(), ri),
{
    if li < l.len() && ri < r.len() {
        if overlaps(l[li as int], r[ri as int]) {
            seq![(HunkSource::Conflict, li, ri)] + plan_from(l, r, li + 1, ri + 1)
        } else if l[li as int].base_start <= r[ri as int].base_start {
            seq![(HunkSource::Local, li, ri)] + plan_from(l, r, li + 1, ri)
        } else {
            seq![(HunkSource::Remote, li, ri)] + plan_from(l, r, li, ri + 1)
        }
    } else if li < l.len() {
        seq![(HunkSource::Local, li, ri)] + plan_from(l, r, li + 1, ri)
    } else if ri < r.len() {
        seq![(HunkSource::Remote, li, ri)] + plan_from(l, r, li, ri + 1)
    } else {
        Seq::empty()
    }
}

pub open spec fn span(start: usize, end: usize) -> LineRange {
    LineRange { start, end }
}

pub open spec fn min_u(a: usize, b: usize) -> usize {
    if a <= b { a } else { b }
}

pub open spec fn max_u(a: usize, b: usize) -> usize {
    if a >= b { a } else { b }
}

/// The joined lines `start..=end` of a text given as lines.
pub open spec fn text_span(lines: Seq<Seq<char>>, start: usize, end: usize) -> Seq<char> {
    join_nl(slice_lines(lines, start as int, end as int))
}

/// Hunk `h` is the one that the plan step `e` makes with number `id`, out of
/// the lines of base, local and remote and the two region lists; its result
/// span is not part of this.
pub open spec fn hunk_made(
    h: MergeHunk,
    e: (HunkSource, nat, nat),
    id: int,
    base: Seq<Seq<char>>,
    local: Seq<Seq<char>>,
    remote: Seq<Seq<char>>,
    l: Seq<DiffRegion>,
    r: Seq<DiffRegion>,
) -> bool {
    let lr = l[e.1 as int];
    let rr = r[e.2 as int];
    &&& h.id == id
    &&& h.source == e.0
    &&& match e.0 {
        HunkSource::Conflict => {
            &&& h.base_range == span(min_u(lr.base_start, rr.base_start), max_u(lr.base_end, rr.base_end))
            &&& h.local_range == span(lr.side_start, lr.side_end)
            &&& h.remote_range == span(rr.side_start, rr.side_end)
            &&& h.status == HunkStatus::Unresolved
            &&& h.local_content@ == text_span(local, lr.side_start, lr.side_end)
            &&& h.remote_content@ == text_span(remote, rr.side_start, rr.side_end)
            &&& h.base_content@ == text_span(base, h.base_range.start, h.base_range.end)
        },
        HunkSource::Local => {
            &&& h.base_range == span(lr.base_start, lr.base_end)
            &&& h.local_range == span(lr.side_start, lr.side_end)
            &&& h.remote_range == span(0, 0)
            &&& h.status == HunkStatus::AutoResolved
            &&& h.local_content@ == text_span(local, lr.side_start, lr.side_end)
            &&& h.remote_content@ == Seq::<char>::empty()
            &&& h.base_content@ == text_span(base, lr.base_start, lr.base_end)
        },
        _ => {
            &&& h.base_range == span(rr.base_start, rr.base_end)
            &&& h.local_range == span(0, 0)
            &&& h.remote_range == span(rr.side_start, rr.side_end)
            &&& h.status == HunkStatus::AutoResolved
            &&& h.local_content@ == Seq::<char>::empty()
            &&& h.remote_content@ == text_span(remote, rr.side_start, rr.side_end)
            &&& h.base_content@ == text_span(base, rr.base_start, rr.base_end)
        },
    }
}

/// The hunks of a merge, in order, as the region walk makes them.
pub open spec fn hunks_made(
    hunks: Seq<MergeHunk>,
    base: Seq<Seq<char>>,
    local: Seq<Seq<char>>,
    remote: Seq<Seq<char>>,
    l: Seq<DiffRegion>,
    r: Seq<DiffRegion>,
) -> bool {
    let plan = plan_from(l, r, 0, 0);
    &&& hunks.len() == plan.len()
    &&& forall|i: int| 0 <= i < hunks.len() ==> hunk_made(#[trigger] hunks[i], plan[i], i, base, local, remote, l, r)
}

fn side_hunk(
    id: usize,
    g: &DiffRegion,
    source: HunkSource,
    base: &Vec<String>,
    side: &Vec<String>,
) -> (h: MergeHunk)
    requires
        source == HunkSource::Local || source == HunkSource::Remote,
    ensures
        h.id == id,
        h.source == source,
        h.base_range == span(g.base_start, g.base_end),
        h.status == HunkStatus::AutoResolved,
        h.base_content@ == text_span(views(base@), g.base_start, g.base_end),
        h.result_range == span(0, 0),
        source == HunkSource::Local ==> {
            &&& h.local_range == span(g.side_start, g.side_end)
            &&& h.remote_range == span(0, 0)
            &&& h.local_content@ == text_span(views(side@), g.side_start, g.side_end)
            &&& h.remote_content@ == Seq::<char>::empty()
        },
        source == HunkSource::Remote ==> {
            &&& h.local_range == span(0, 0)
            &&& h.remote_range == span(g.side_start, g.side_end)
            &&& h.local_content@ == Seq::<char>::empty()
            &&& h.remote_content@ == text_span(views(side@), g.side_start, g.side_end)
        },
{
    let content = slice_join(side, g.side_start, g.side_end);
    let is_local = match source {
        HunkSource::Local => true,
        _ => false,
    };
    MergeHunk {
        id,
        base_range: LineRange::new(g.base_start, g.base_end),
        local_range: if is_local { LineRange::new(g.side_start, g.side_end) } else { LineRange::empty() },
        remote_range: if is_local { LineRange::empty() } else { LineRange::new(g.side_start, g.side_end) },
        result_range: LineRange::empty(),
        source,
        status: HunkStatus::AutoResolved,
        local_content: if is_local { content.clone() } else { String::new() },
        remote_content: if is_local { String::new() } else { content },
        base_content: slice_join(base, g.base_start, g.base_end),
    }
}

fn conflict_hunk(
    id: usize,
    l: &DiffRegion,
    r: &DiffRegion,
    base: &Vec<String>,
    local: &Vec<String>,
    remote: &Vec<String>,
) -> (h: MergeHunk)
    ensures
        h.id == id,
        h.source == HunkSource::Conflict,
        h.base_range == span(min_u(l.base_start, r.base_start), max_u(l.base_end, r.base_end)),
        h.local_range == span(l.side_start, l.side_end),
        h.remote_range == span(r.side_start, r.side_end),
        h.status == HunkStatus::Unresolved,
        h.local_content@ == text_span(views(local@), l.side_start, l.side_end),
        h.remote_content@ == text_span(views(remote@), r.side_start, r.side_end),
        h.base_content@ == text_span(views(base@), h.base_range.start, h.base_range.end),
        h.result_range == span(0, 0),
{
    let bs = if l.base_start <= r.base_start { l.base_start } else { r.base_start };
    let be = if l.base_end >= r.base_end { l.base_end } else { r.base_end };
    MergeHunk {
        id,
        base_range: LineRange::new(bs, be),
        local_range: LineRange::new(l.side_start, l.side_end),
        remote_range: LineRange::new(r.side_start, r.side_end),
        result_range: LineRange::empty(),
        source: HunkSource::Conflict,
        status: HunkStatus::Unresolved,
        local_content: slice_join(local, l.side_start, l.side_end),
        remote_content: slice_join(remote, r.side_start, r.side_end),
        base_content: slice_join(base, bs, be),
    }
}

/// Walks the local and remote regions in base order and makes one hunk per
/// step: a conflict where the next two regions overlap, else a one-sided hunk
/// from whichever starts first.
fn merge_regions(
    lregs: &Vec<DiffRegion>,
    rregs: &Vec<DiffRegion>,
    base: &Vec<String>,
    local: &Vec<String>,
    remote: &Vec<String>,
) -> (hunks: Vec<MergeHunk>)
    ensures
        hunks_made(hunks@, views(base@), views(local@), views(remote@), lregs@, rregs@),
        forall|i: int| 0 <= i < hunks@.len() ==> (#[trigger] hunks@[i]).result_range == span(0, 0),
{
    let ghost l = lregs@;
    let ghost r = rregs@;
    let ghost bl = views(base@);
    let ghost ll = views(local@);
    let ghost rl = views(remote@);
    let ghost mut done: Seq<(HunkSource, nat, nat)> = Seq::empty();
    let mut hunks: Vec<MergeHunk> = Vec::new();
    let mut li: usize = 0;
    let mut ri: usize = 0;
    while li < lregs.len() || ri < rregs.len()
        invariant
            li <= l.len(),
            ri <= r.len(),
            l == lregs@,
            r == rregs@,
            bl == views(base@),
            ll == views(local@),
            rl == views(remote@),
            plan_from(l, r, 0, 0) == done + plan_from(l, r, li as nat, ri as nat),
            hunks@.len() == done.len(),
            hunks@.len() <= li + ri,
            forall|i: int| 0 <= i < hunks@.len() ==> hunk_made(#[trigger] hunks@[i], done[i], i, bl, ll, rl, l, r),
            forall|i: int| 0 <= i < hunks@.len() ==> (#[trigger] hunks@[i]).result_range == span(0, 0),
        decreases rem(l.len(), li as nat) + rem(r.len(), ri as nat),
    {
        let id = hunks.len();
        let ghost rest = plan_from(l, r, li as nat, ri as nat);
        let ghost e: (HunkSource, nat, nat);
        if li < lregs.len() && ri < rregs.len() && ranges_overlap(&lregs[li], &rregs[ri]) {
            let h = conflict_hunk(id, &lregs[li], &rregs[ri], base, local, remote);
            proof {
                e = (HunkSource::Conflict, li as nat, ri as nat);
                assert(rest == seq![e] + plan_from(l, r, li as nat + 1, ri as nat + 1));
            }
            hunks.push(h);
            li += 1;
            ri += 1;
        } else if li < lregs.len() && (ri >= rregs.len() || lregs[li].base_start <= rregs[ri].base_start) {
            let h = side_hunk(id, &lregs[li], HunkSource::Local, base, local);
            proof {
                e = (HunkSource::Local, li as nat, ri as nat);
                assert(rest == seq![e] + plan_from(l, r, li as nat + 1, ri as nat));
            }
            hunks.push(h);
            li += 1;
        } else {
            let h = side_hunk(id, &rregs[ri], HunkSource::Remote, base, remote);
            proof {
                e = (HunkSource::Remote, li as nat, ri as nat);
                assert(rest == seq![e] + plan_from(l, r, li as nat, ri as nat + 1));
            }
            hunks.push(h);
            ri += 1;
        }
        proof {
            assert(done.push(e) + plan_from(l, r, li as nat, ri as nat) =~= done + rest);
            done = done.push(e);
        }
    }
    proof {
        assert(plan_from(l, r, li as nat, ri as nat) =~= Seq::<(HunkSource, nat, nat)>::empty());
        assert(done =~= plan_from(l, r, 0, 0));
    }
    hunks
}

/// A side's lines over the span `r` (clamped, empty for an empty span).
pub open spec fn side_span(lines: Seq<Seq<char>>, r: LineRange) -> Seq<Seq<char>> {
    slice_lines(lines, r.start as int, r.end as int)
}

pub open spec fn open_marker() -> Seq<char> {
    "<<<<<<< LOCAL"@
}

pub open spec fn sep_marker() -> Seq<char> {
    "======="@
}

pub open spec fn close_marker() -> Seq<char> {
    ">>>>>>> REMOTE"@
}

/// The lines a hunk contributes to a freshly built result, taken from the
/// local lines `ll` and remote lines `rl` over the hunk's spans: the side's
/// change for a one-sided hunk, the local change for one both sides made,
/// and a marked block holding both sides for a conflict.
pub open spec fn block_of(h: MergeHunk, ll: Seq<Seq<char>>, rl: Seq<Seq<char>>) -> Seq<Seq<char>> {
    match h.source {
        HunkSource::Local => side_span(ll, h.local_range),
        HunkSource::Remote => side_span(rl, h.remote_range),
        HunkSource::Both => side_span(ll, h.local_range),
        HunkSource::Conflict => seq![open_marker()] + side_span(ll, h.local_range) + seq![sep_marker()]
            + side_span(rl, h.remote_range) + seq![close_marker()],
    }
}

/// Builder state after some hunks: lines written, 0-indexed base cursor, and
/// the result span of each hunk handled so far.
pub type BuildState = (Seq<Seq<char>>, int, Seq<LineRange>);

/// Where the base cursor copies up to before hunk `h`: the line before the
/// hunk's base start (or the cursor itself for a start of 0), clamped to the
/// base; the cursor never moves back while copying.
pub open spec fn copy_upto(base_len: int, pos: int, h: MergeHunk) -> int {
    let target = if h.base_range.start > 0 { h.base_range.start - 1 } else { pos };
    if pos < target && pos < base_len {
        if target < base_len { target } else { base_len }
    } else {
        pos
    }
}

pub open spec fn build(base: Seq<Seq<char>>, ll: Seq<Seq<char>>, rl: Seq<Seq<char>>, hs: Seq<MergeHunk>) -> BuildState
    decreases hs.len(),
{
    if hs.len() == 0 {
        (Seq::<Seq<char>>::empty(), 0, Seq::<LineRange>::empty())
    } else {
        let st = build(base, ll, rl, hs.drop_last());
        let h = hs.last();
        let upto = copy_upto(base.len() as int, st.1, h);
        let out1 = st.0 + base.subrange(st.1, upto);
        let out2 = out1 + block_of(h, ll, rl);
        let range = if block_of(h, ll, rl).len() == 0 {
            span(0, 0)
        } else {
            span((out1.len() + 1) as usize, out2.len() as usize)
        };
        let pos = if h.base_range.end < base.len() { h.base_range.end as int } else { base.len() as int };
        (out2, pos, st.2.push(range))
    }
}

/// The lines of the result built from `base` and the hunks: untouched base
/// lines, each hunk's block in place of its base span, then the rest of the
/// base.
pub open spec fn result_lines(base: Seq<Seq<char>>, ll: Seq<Seq<char>>, rl: Seq<Seq<char>>, hs: Seq<MergeHunk>) -> Seq<Seq<char>> {
    let st = build(base, ll, rl, hs);
    st.0 + base.subrange(st.1, base.len() as int)
}

proof fn lemma_subrange_push(s: Seq<Seq<char>>, a: int, b: int)
    requires
        0 <= a <= b < s.len(),
    ensures
        s.subrange(a, b + 1) == s.subrange(a, b).push(s[b]),
{
    assert(s.subrange(a, b + 1) =~= s.subrange(a, b).push(s[b]));
}

proof fn lemma_build_pos(base: Seq<Seq<char>>, ll: Seq<Seq<char>>, rl: Seq<Seq<char>>, hs: Seq<MergeHunk>)
    ensures
        0 <= build(base, ll, rl, hs).1 <= base.len(),
        build(base, ll, rl, hs).2.len() == hs.len(),
    decreases hs.len(),
{
    if hs.len() > 0 {
        lemma_build_pos(base, ll, rl, hs.drop_last());
    }
}

/// Appends the block of `h`, taken from the local and remote lines, to
/// `out`.
fn push_block(out: &mut Vec<String>, h: &MergeHunk, local: &Vec<String>, remote: &Vec<String>)
    ensures
        views(final(out)@) == views(old(out)@) + block_of(*h, views(local@), views(remote@)),
{
    match h.source {
        HunkSource::Local | HunkSource::Both => {
            push_span(out, local, h.local_range.start, h.local_range.end);
        },
        HunkSource::Remote => {
            push_span(out, remote, h.remote_range.start, h.remote_range.end);
        },
        HunkSource::Conflict => {
            push_line(out, "<<<<<<< LOCAL");
            push_span(out, local, h.local_range.start, h.local_range.end);
            push_line(out, "=======");
            push_span(out, remote, h.remote_range.start, h.remote_range.end);
            push_line(out, ">>>>>>> REMOTE");
            proof {
                assert(views(out@) =~= views(old(out)@) + block_of(*h, views(local@), views(remote@)));
            }
        },
    }
}

/// Builds the result lines from the base lines and the hunks, in hunk order,
/// and the result span each hunk's block landed on.
fn build_result(
    base: &Vec<String>,
    local: &Vec<String>,
    remote: &Vec<String>,
    hunks: &Vec<MergeHunk>,
) -> (r: (String, Vec<LineRange>))
    ensures
        r.0@ == join_nl(result_lines(views(base@), views(local@), views(remote@), hunks@)),
        r.1@ == build(views(base@), views(local@), views(remote@), hunks@).2,
{
    let ghost ll = views(local@);
    let ghost rl = views(remote@);
    let ghost bl = views(base@);
    let mut out: Vec<String> = Vec::new();
    let mut ranges: Vec<LineRange> = Vec::new();
    let mut base_pos: usize = 0;
    let mut k: usize = 0;
    proof {
        assert(hunks@.subrange(0, 0) =~= Seq::<MergeHunk>::empty());
    }
    while k < hunks.len()
        invariant
            k <= hunks@.len(),
            bl == views(base@),
            ll == views(local@),
            rl == views(remote@),
            base_pos <= base@.len(),
            build(bl, ll, rl, hunks@.subrange(0, k as int)) == (views(out@), base_pos as int, ranges@),
        decreases hunks@.len() - k,
    {
        let h = &hunks[k];
        let ghost prefix = hunks@.subrange(0, k as int);
        proof {
            assert(hunks@.subrange(0, k + 1).drop_last() =~= prefix);
            assert(hunks@.subrange(0, k + 1).last() == *h);
        }
        let ghost out0 = views(out@);
        let target: usize = if h.base_range.start > 0 { h.base_range.start - 1 } else { base_pos };
        let ghost p0 = base_pos as int;
        while base_pos < target && base_pos < base.len()
            invariant
                0 <= p0 <= base_pos <= base@.len(),
                base_pos == p0 || base_pos <= target,
                bl == views(base@),
                views(out@) =~= out0 + bl.subrange(p0, base_pos as int),
            decreases base@.len() - base_pos,
        {
            let l = base[base_pos].clone();
            proof {
                assert(views(out@.push(l)) =~= views(out@).push(l@));
                assert(bl.len() == base@.len());
                lemma_subrange_push(bl, p0, base_pos as int);
            }
            out.push(l);
            base_pos += 1;
        }
        proof {
            assert(base_pos as int == copy_upto(bl.len() as int, p0, *h));
        }
        let before = out.len();
        push_block(&mut out, h, local, remote);
        proof {
            assert(views(out@).len() == out@.len());
            assert(out@.len() == before + block_of(*h, ll, rl).len());
        }
        if out.len() == before {
            ranges.push(LineRange::empty());
        } else {
            ranges.push(LineRange::new(before + 1, out.len()));
        }
        base_pos = if h.base_range.end < base.len() { h.base_range.end } else { base.len() };
        k += 1;
    }
    proof {
        assert(hunks@.subrange(0, k as int) =~= hunks@);
    }
    let ghost mid = views(out@);
    let ghost p1 = base_pos as int;
    while base_pos < base.len()
        invariant
            0 <= p1 <= base_pos <= base@.len(),
            bl == views(base@),
            views(out@) =~= mid + bl.subrange(p1, base_pos as int),
        decreases base@.len() - base_pos,
    {
        let l = base[base_pos].clone();
        proof {
            assert(views(out@.push(l)) =~= views(out@).push(l@));
            assert(bl.len() == base@.len());
            lemma_subrange_push(bl, p1, base_pos as int);
        }
        out.push(l);
        base_pos += 1;
    }
    (join_lines(&out), ranges)
}

proof fn lemma_build_same(base: Seq<Seq<char>>, ll: Seq<Seq<char>>, rl: Seq<Seq<char>>, a: Seq<MergeHunk>, b: Seq<MergeHunk>)
    requires
        a.len() == b.len(),
        forall|i: int| 0 <= i < a.len() ==> same_snapshot(#[trigger] a[i], b[i]),
    ensures
        build(base, ll, rl, a) == build(base, ll, rl, b),
    decreases a.len(),
{
    if a.len() > 0 {
        lemma_build_same(base, ll, rl, a.drop_last(), b.drop_last());
        assert(same_snapshot(a[a.len() - 1], b[b.len() - 1]));
        assert(block_of(a.last(), ll, rl) == block_of(b.last(), ll, rl));
    }
}

/// What a merge of `base`, `local` and `remote` yields, given the edit
/// scripts from base to each side: the hunks of the region walk, each with
/// the result span its block landed on, and the built result text.
pub open spec fn merge_outcome(
    hunks: Seq<MergeHunk>,
    result: Seq<char>,
    base: Seq<char>,
    local: Seq<char>,
    remote: Seq<char>,
    local_script: Seq<DiffTag>,
    remote_script: Seq<DiffTag>,
) -> bool {
    let bl = lines_of(base);
    let ll = lines_of(local);
    let rl = lines_of(remote);
    &&& hunks_made(hunks, bl, ll, rl, regions_of(local_script), regions_of(remote_script))
    &&& forall|i: int| 0 <= i < hunks.len() ==> (#[trigger] hunks[i]).result_range == build(bl, ll, rl, hunks).2[i]
    &&& result == join_nl(result_lines(bl, ll, rl, hunks))
}

/// Merges the three texts given the line edit scripts from base to local and
/// from base to remote.
pub fn merge_with_scripts(
    base: &str,
    local: &str,
    remote: &str,
    local_script: &Vec<DiffTag>,
    remote_script: &Vec<DiffTag>,
) -> (r: (Vec<MergeHunk>, String))
    requires
        local_script@.len() < usize::MAX,
        remote_script@.len() < usize::MAX,
    ensures
        merge_outcome(r.0@, r.1@, base@, local@, remote@, local_script@, remote_script@),
{
    let lregs = extract_regions(local_script);
    let rregs = extract_regions(remote_script);
    let base_lines = split_lines(base);
    let local_lines = split_lines(local);
    let remote_lines = split_lines(remote);
    let hunks = merge_regions(&lregs, &rregs, &base_lines, &local_lines, &remote_lines);
    let (result, ranges) = build_result(&base_lines, &local_lines, &remote_lines, &hunks);
    let ghost bl = views(base_lines@);
    let ghost ll = views(local_lines@);
    let ghost rl = views(remote_lines@);
    proof {
        lemma_build_pos(bl, ll, rl, hunks@);
    }
    let mut out: Vec<MergeHunk> = Vec::new();
    let mut i: usize = 0;
    while i < hunks.len()
        invariant
            i <= hunks@.len(),
            ranges@.len() == hunks@.len(),
            ranges@ == build(bl, ll, rl, hunks@).2,
            out@.len() == i,
            forall|j: int| 0 <= j < i ==> same_snapshot(#[trigger] out@[j], hunks@[j]),
            forall|j: int| 0 <= j < i ==> (#[trigger] out@[j]).status == hunks@[j].status,
            forall|j: int| 0 <= j < i ==> (#[trigger] out@[j]).result_range == ranges@[j],
        decreases hunks@.len() - i,
    {
        let mut h = copy_hunk(&hunks[i]);
        h.result_range = ranges[i];
        out.push(h);
        i += 1;
    }
    proof {
        lemma_build_same(bl, ll, rl, out@, hunks@);
        let l = regions_of(local_script@);
        let r = regions_of(remote_script@);
        let plan = plan_from(l, r, 0, 0);
        assert forall|j: int| 0 <= j < out@.len() implies hunk_made(#[trigger] out@[j], plan[j], j, bl, views(local_lines@), views(remote_lines@), l, r) by {
            assert(hunk_made(hunks@[j], plan[j], j, bl, views(local_lines@), views(remote_lines@), l, r));
            assert(same_snapshot(out@[j], hunks@[j]));
        }
    }
    (out, result)
}

/// Merges `local` and `remote` against their common ancestor `base`: the
/// hunks in base order and the initial result text, with conflict blocks for
/// the overlapping changes.
pub fn three_way_merge(base: &str, local: &str, remote: &str) -> (r: (Vec<MergeHunk>, String))
    ensures
        merge_outcome(
            r.0@,
            r.1@,
            base@,
            local@,
            remote@,
            line_script_of(base@, local@),
            line_script_of(base@, remote@),
        ),
{
    let local_script = line_script(base, local);
    let remote_script = line_script(base, remote);
    merge_with_scripts(base, local, remote, &local_script, &remote_script)
}

/// Lines of `current` with the span `range` replaced by `content`; an empty
/// span leaves the text as it is.
pub open spec fn rebuilt(current: Seq<char>, range: LineRange, content: Seq<Seq<char>>) -> Seq<char> {
    if range.spec_is_empty() {
        current
    } else {
        let lines = lines_of(current);
        let keep = if range.start == 0 {
            0
        } else if range.start - 1 < lines.len() {
            range.start - 1
        } else {
            lines.len() as int
        };
        let tail = if (range.end as int) < lines.len() {
            lines.subrange(range.end as int, lines.len() as int)
        } else {
            Seq::<Seq<char>>::empty()
        };
        join_nl(lines.subrange(0, keep) + content + tail)
    }
}

/// Replaces the lines of `hunk`'s result span in `current_result` by
/// `new_lines`.
pub fn rebuild_result(current_result: &str, hunk: &MergeHunk, new_lines: &Vec<String>) -> (r: String)
    ensures
        r@ == rebuilt(current_result@, hunk.result_range, views(new_lines@)),
{
    if hunk.result_range.is_empty() {
        return String::from_str(current_result);
    }
    let lines = split_lines(current_result);
    let ghost ls = views(lines@);
    let keep: usize = if hunk.result_range.start == 0 {
        0
    } else if hunk.result_range.start - 1 < lines.len() {
        hunk.result_range.start - 1
    } else {
        lines.len()
    };
    let mut out: Vec<String> = Vec::new();
    let mut i: usize = 0;
    while i < keep
        invariant
            i <= keep <= lines@.len(),
            ls == views(lines@),
            views(out@) =~= ls.subrange(0, i as int),
        decreases keep - i,
    {
        let l = lines[i].clone();
        proof {
            assert(views(out@.push(l)) =~= views(out@).push(l@));
            lemma_subrange_push(ls, 0, i as int);
        }
        out.push(l);
        i += 1;
    }
    push_all(&mut out, new_lines);
    let ghost mid = views(out@);
    let mut j: usize = hunk.result_range.end;
    let ghost j0 = j as int;
    if j < lines.len() {
        while j < lines.len()
            invariant
                0 <= j0 <= j <= lines@.len(),
                ls == views(lines@),
                views(out@) =~= mid + ls.subrange(j0, j as int),
            decreases lines@.len() - j,
        {
            let l = lines[j].clone();
            proof {
                assert(views(out@.push(l)) =~= views(out@).push(l@));
                lemma_subrange_push(ls, j0, j as int);
            }
            out.push(l);
            j += 1;
        }
    }
    join_lines(&out)
}

/// Every operation of the script keeps the line.
pub open spec fn all_equal(tags: Seq<DiffTag>) -> bool {
    forall|i: int| 0 <= i < tags.len() ==> tags[i] == DiffTag::Equal
}

proof fn lemma_all_equal_no_regions(tags: Seq<DiffTag>)
    requires
        all_equal(tags),
    ensures
        scan(tags).0.len() == 0,
        !scan(tags).3,
        regions_of(tags).len() == 0,
    decreases tags.len(),
{
    if tags.len() > 0 {
        assert(all_equal(tags.drop_last()));
        lemma_all_equal_no_regions(tags.drop_last());
        assert(tags.last() == DiffTag::Equal);
    }
}

/// The hunks of a merge are numbered by their position, so no two share an
/// id.
pub proof fn merged_hunk_ids_are_positions(
    hunks: Seq<MergeHunk>,
    result: Seq<char>,
    base: Seq<char>,
    local: Seq<char>,
    remote: Seq<char>,
    local_script: Seq<DiffTag>,
    remote_script: Seq<DiffTag>,
)
    requires
        merge_outcome(hunks, result, base, local, remote, local_script, remote_script),
    ensures
        forall|i: int| 0 <= i < hunks.len() ==> (#[trigger] hunks[i]).id == i,
        forall|i: int, j: int| 0 <= i < j < hunks.len() ==> hunks[i].id != hunks[j].id,
{
    let l = regions_of(local_script);
    let r = regions_of(remote_script);
    let plan = plan_from(l, r, 0, 0);
    assert forall|i: int| 0 <= i < hunks.len() implies (#[trigger] hunks[i]).id == i by {
        assert(hunk_made(hunks[i], plan[i], i, lines_of(base), lines_of(local), lines_of(remote), l, r));
    }
    assert forall|i: int, j: int| 0 <= i < j < hunks.len() implies hunks[i].id != hunks[j].id by {
        assert(hunks[i].id == i);
        assert(hunks[j].id == j);
    }
}

/// When neither side changes a line of the base, the merge has no hunks and
/// its result is the base's lines joined: the base itself, for a base that
/// holds no carriage return and does not end with a newline.
pub proof fn identical_inputs_merge_cleanly(
    hunks: Seq<MergeHunk>,
    result: Seq<char>,
    base: Seq<char>,
    local: Seq<char>,
    remote: Seq<char>,
    local_script: Seq<DiffTag>,
    remote_script: Seq<DiffTag>,
)
    requires
        all_equal(local_script),
        all_equal(remote_script),
        merge_outcome(hunks, result, base, local, remote, local_script, remote_script),
    ensures
        hunks.len() == 0,
        result == join_nl(lines_of(base)),
        no_cr(base) && (base.len() == 0 || base.last() != '\n') ==> result == base,
{
    lemma_all_equal_no_regions(local_script);
    lemma_all_equal_no_regions(remote_script);
    let bl = lines_of(base);
    let ll = lines_of(local);
    let rl = lines_of(remote);
    assert(plan_from(regions_of(local_script), regions_of(remote_script), 0, 0) =~= Seq::empty());
    assert(hunks =~= Seq::<MergeHunk>::empty());
    assert(build(bl, ll, rl, hunks).0 =~= Seq::<Seq<char>>::empty());
    assert(result_lines(bl, ll, rl, hunks) =~= bl);
    if no_cr(base) && (base.len() == 0 || base.last() != '\n') {
        lemma_join_lines_of(base);
    }
}

proof fn lemma_plan_local_only(l: Seq<DiffRegion>, r: Seq<DiffRegion>, li: nat)
    requires
        r.len() == 0,
    ensures
        forall|i: int| 0 <= i < plan_from(l, r, li, 0).len() ==> (#[trigger] plan_from(l, r, li, 0)[i]).0 == HunkSource::Local,
    decreases rem(l.len(), li),
{
    if li < l.len() {
        lemma_plan_local_only(l, r, li + 1);
        let rest = plan_from(l, r, li + 1, 0);
        assert(plan_from(l, r, li, 0) == seq![(HunkSource::Local, li, 0nat)] + rest);
        assert forall|i: int| 0 <= i < plan_from(l, r, li, 0).len() implies (#[trigger] plan_from(l, r, li, 0)[i]).0 == HunkSource::Local by {
            if i > 0 {
                assert(plan_from(l, r, li, 0)[i] == rest[i - 1]);
            }
        }
    }
}

proof fn lemma_change_gives_region(tags: Seq<DiffTag>)
    ensures
        !all_equal(tags) ==> scan(tags).0.len() > 0 || scan(tags).3,
        scan(tags).0.len() > 0 || scan(tags).3 ==> regions_of(tags).len() > 0,
    decreases tags.len(),
{
    if tags.len() > 0 {
        let prev = tags.drop_last();
        lemma_change_gives_region(prev);
        if !all_equal(tags) && all_equal(prev) {
            assert(tags.last() != DiffTag::Equal) by {
                let k = choose|k: int| 0 <= k < tags.len() && tags[k] != DiffTag::Equal;
                if k < tags.len() - 1 {
                    assert(prev[k] == tags[k]);
                }
            }
        }
        if !all_equal(prev) {
            assert(!all_equal(tags)) by {
                let k = choose|k: int| 0 <= k < prev.len() && prev[k] != DiffTag::Equal;
                assert(tags[k] == prev[k]);
            }
        }
    }
}

proof fn lemma_plan_len_one_sided(l: Seq<DiffRegion>, r: Seq<DiffRegion>, li: nat)
    requires
        r.len() == 0,
        li <= l.len(),
    ensures
        plan_from(l, r, li, 0).len() == l.len() - li,
    decreases rem(l.len(), li),
{
    if li < l.len() {
        lemma_plan_len_one_sided(l, r, li + 1);
    }
}

/// When only the local side changes the base, every hunk comes from the
/// local side and is already resolved, and there is at least one hunk when
/// the local script holds a change.
pub proof fn pure_local_change_hunks(
    hunks: Seq<MergeHunk>,
    result: Seq<char>,
    base: Seq<char>,
    local: Seq<char>,
    remote: Seq<char>,
    local_script: Seq<DiffTag>,
    remote_script: Seq<DiffTag>,
)
    requires
        all_equal(remote_script),
        merge_outcome(hunks, result, base, local, remote, local_script, remote_script),
    ensures
        forall|i: int| 0 <= i < hunks.len() ==> (#[trigger] hunks[i]).source == HunkSource::Local
            && hunks[i].status == HunkStatus::AutoResolved,
        !all_equal(local_script) ==> hunks.len() >= 1,
{
    lemma_all_equal_no_regions(remote_script);
    lemma_change_gives_region(local_script);
    lemma_plan_len_one_sided(regions_of(local_script), regions_of(remote_script), 0);
    let l = regions_of(local_script);
    let r = regions_of(remote_script);
    lemma_plan_local_only(l, r, 0);
    assert forall|i: int| 0 <= i < hunks.len() implies (#[trigger] hunks[i]).source == HunkSource::Local
        && hunks[i].status == HunkStatus::AutoResolved by {
        assert(hunk_made(hunks[i], plan_from(l, r, 0, 0)[i], i, lines_of(base), lines_of(local), lines_of(remote), l, r));
    }
}

proof fn lemma_build_ranges(base: Seq<Seq<char>>, ll: Seq<Seq<char>>, rl: Seq<Seq<char>>, hs: Seq<MergeHunk>)
    requires
        build(base, ll, rl, hs).0.len() <= usize::MAX,
    ensures
        forall|i: int| 0 <= i < hs.len() ==> {
            let r = #[trigger] build(base, ll, rl, hs).2[i];
            &&& block_of(hs[i], ll, rl).len() == 0 ==> r == span(0, 0)
            &&& block_of(hs[i], ll, rl).len() > 0 ==> {
                &&& 1 <= r.start <= r.end <= build(base, ll, rl, hs).0.len()
                &&& build(base, ll, rl, hs).0.subrange(r.start - 1, r.end as int) == block_of(hs[i], ll, rl)
            }
        },
    decreases hs.len(),
{
    if hs.len() > 0 {
        let prev = hs.drop_last();
        let st = build(base, ll, rl, prev);
        lemma_build_pos(base, ll, rl, prev);
        let h = hs.last();
        let upto = copy_upto(base.len() as int, st.1, h);
        let out1 = st.0 + base.subrange(st.1, upto);
        let out2 = out1 + block_of(h, ll, rl);
        assert(build(base, ll, rl, hs).0 == out2);
        lemma_build_ranges(base, ll, rl, prev);
        assert forall|i: int| 0 <= i < hs.len() implies {
            let r = #[trigger] build(base, ll, rl, hs).2[i];
            &&& block_of(hs[i], ll, rl).len() == 0 ==> r == span(0, 0)
            &&& block_of(hs[i], ll, rl).len() > 0 ==> {
                &&& 1 <= r.start <= r.end <= build(base, ll, rl, hs).0.len()
                &&& build(base, ll, rl, hs).0.subrange(r.start - 1, r.end as int) == block_of(hs[i], ll, rl)
            }
        } by {
            if i < hs.len() - 1 {
                assert(hs[i] == prev[i]);
                assert(build(base, ll, rl, hs).2[i] == st.2[i]);
                let r = st.2[i];
                if block_of(hs[i], ll, rl).len() > 0 {
                    assert(out2.subrange(r.start - 1, r.end as int) =~= st.0.subrange(r.start - 1, r.end as int));
                }
            } else {
                assert(hs[i] == h);
                if block_of(h, ll, rl).len() > 0 {
                    assert(out2.subrange(out1.len() as int, out2.len() as int) =~= block_of(h, ll, rl));
                }
            }
        }
    }
}

/// In a freshly built result, each hunk's result span holds exactly the
/// lines of its block (the hunk's change, or its marked conflict block), and
/// a hunk with no lines has the empty span.
pub proof fn built_ranges_hold_blocks(base: Seq<Seq<char>>, ll: Seq<Seq<char>>, rl: Seq<Seq<char>>, hunks: Seq<MergeHunk>)
    requires
        result_lines(base, ll, rl, hunks).len() <= usize::MAX,
    ensures
        forall|i: int| 0 <= i < hunks.len() ==> {
            let r = #[trigger] build(base, ll, rl, hunks).2[i];
            &&& block_of(hunks[i], ll, rl).len() == 0 ==> r == span(0, 0)
            &&& block_of(hunks[i], ll, rl).len() > 0 ==> {
                &&& 1 <= r.start <= r.end <= result_lines(base, ll, rl, hunks).len()
                &&& result_lines(base, ll, rl, hunks).subrange(r.start - 1, r.end as int) == block_of(hunks[i], ll, rl)
            }
        },
{
    lemma_build_pos(base, ll, rl, hunks);
    let st = build(base, ll, rl, hunks);
    assert(result_lines(base, ll, rl, hunks).len() >= st.0.len());
    lemma_build_ranges(base, ll, rl, hunks);
    assert forall|i: int| 0 <= i < hunks.len() implies {
        let r = #[trigger] build(base, ll, rl, hunks).2[i];
        &&& block_of(hunks[i], ll, rl).len() == 0 ==> r == span(0, 0)
        &&& block_of(hunks[i], ll, rl).len() > 0 ==> {
            &&& 1 <= r.start <= r.end <= result_lines(base, ll, rl, hunks).len()
            &&& result_lines(base, ll, rl, hunks).subrange(r.start - 1, r.end as int) == block_of(hunks[i], ll, rl)
        }
    } by {
        let r = st.2[i];
        if block_of(hunks[i], ll, rl).len() > 0 {
            assert(result_lines(base, ll, rl, hunks).subrange(r.start - 1, r.end as int) =~= st.0.subrange(r.start - 1, r.end as int));
        }
    }
}

/// One operation of a script, taken at the cursors of `st`, fits the two
/// texts' lines: a kept line is the same on both sides, and a deleted or
/// inserted line exists on its side.
pub open spec fn step_fits(st: ScanState, tag: DiffTag, bl: Seq<Seq<char>>, sl: Seq<Seq<char>>) -> bool {
    match tag {
        DiffTag::Equal => st.1 - 1 < bl.len() && st.2 - 1 < sl.len() && bl[st.1 - 1] == sl[st.2 - 1],
        DiffTag::Delete => st.1 - 1 < bl.len(),
        DiffTag::Insert => st.2 - 1 < sl.len(),
    }
}

/// `tags` is an edit script from the lines `bl` to the lines `sl`: each
/// operation fits, and the script walks both texts to their ends.
pub open spec fn script_fits(tags: Seq<DiffTag>, bl: Seq<Seq<char>>, sl: Seq<Seq<char>>) -> bool {
    &&& forall|i: int| 0 <= i < tags.len() ==> #[trigger] step_fits(scan(tags.subrange(0, i)), tags[i], bl, sl)
    &&& scan(tags).1 - 1 == bl.len()
    &&& scan(tags).2 - 1 == sl.len()
}

proof fn lemma_scan_prefix(tags: Seq<DiffTag>, i: int, n: int)
    requires
        0 <= i <= n <= tags.len(),
    ensures
        scan(tags.subrange(0, i)).0.len() <= scan(tags.subrange(0, n)).0.len(),
        scan(tags.subrange(0, i)).0 == scan(tags.subrange(0, n)).0.subrange(0, scan(tags.subrange(0, i)).0.len() as int),
    decreases n - i,
{
    if i < n {
        lemma_scan_prefix(tags, i, n - 1);
        assert(tags.subrange(0, n).drop_last() =~= tags.subrange(0, n - 1));
        let a = scan(tags.subrange(0, n - 1)).0;
        let b = scan(tags.subrange(0, n)).0;
        let c = scan(tags.subrange(0, i)).0;
        if b.len() > a.len() {
            assert(b == a.push(b.last()));
            assert(b.subrange(0, c.len() as int) =~= a.subrange(0, c.len() as int));
        } else {
            assert(b == a);
        }
    } else {
        assert(scan(tags.subrange(0, i)).0.subrange(0, scan(tags.subrange(0, i)).0.len() as int) =~= scan(tags.subrange(0, i)).0);
    }
}

proof fn lemma_plan_index_local(l: Seq<DiffRegion>, r: Seq<DiffRegion>, li: nat)
    requires
        r.len() == 0,
        li <= l.len(),
    ensures
        plan_from(l, r, li, 0).len() == l.len() - li,
        forall|m: int| 0 <= m < plan_from(l, r, li, 0).len() ==> #[trigger] plan_from(l, r, li, 0)[m] == (HunkSource::Local, (li + m) as nat, 0nat),
    decreases rem(l.len(), li),
{
    if li < l.len() {
        lemma_plan_index_local(l, r, li + 1);
        let rest = plan_from(l, r, li + 1, 0);
        assert(plan_from(l, r, li, 0) == seq![(HunkSource::Local, li, 0nat)] + rest);
        assert forall|m: int| 0 <= m < plan_from(l, r, li, 0).len() implies #[trigger] plan_from(l, r, li, 0)[m] == (HunkSource::Local, (li + m) as nat, 0nat) by {
            if m > 0 {
                assert(plan_from(l, r, li, 0)[m] == rest[m - 1]);
            }
        }
    }
}

/// The hunks are one local hunk per region of `rs`, with the region's spans.
pub open spec fn local_hunks_of(hunks: Seq<MergeHunk>, rs: Seq<DiffRegion>) -> bool {
    &&& hunks.len() == rs.len()
    &&& forall|j: int| 0 <= j < hunks.len() ==> {
        &&& (#[trigger] hunks[j]).source == HunkSource::Local
        &&& hunks[j].base_range == span(rs[j].base_start, rs[j].base_end)
        &&& hunks[j].local_range == span(rs[j].side_start, rs[j].side_end)
    }
}

/// After the first `n` operations, the result built from the regions closed
/// so far, followed by the base lines not yet handed over, is the side's
/// lines walked so far (up to the open region's start while one is open).
spec fn walk_holds(tags: Seq<DiffTag>, n: int, bl: Seq<Seq<char>>, ll: Seq<Seq<char>>, rl: Seq<Seq<char>>, hunks: Seq<MergeHunk>) -> bool {
    let st = scan(tags.subrange(0, n));
    let k = st.0.len() as int;
    let b = build(bl, ll, rl, hunks.subrange(0, k));
    &&& k <= hunks.len()
    &&& 1 <= st.1 && st.1 - 1 <= bl.len()
    &&& 1 <= st.2 && st.2 - 1 <= ll.len()
    &&& !st.3 ==> 0 <= b.1 <= st.1 - 1 && b.0 + bl.subrange(b.1, st.1 - 1) == ll.subrange(0, st.2 - 1)
    &&& st.3 ==> {
        &&& 1 <= st.4.base_start && 1 <= st.4.side_start
        &&& 0 <= b.1 <= st.4.base_start - 1 <= st.1 - 1
        &&& st.4.side_start - 1 <= st.2 - 1
        &&& b.0 + bl.subrange(b.1, st.4.base_start - 1) == ll.subrange(0, st.4.side_start - 1)
    }
}

/// Building the hunk of the region `c`, closed at cursors `bpos`/`spos`, from
/// a state that matches the side up to the region's start gives the side up
/// to `spos - 1` with the base cursor at `bpos - 1`.
proof fn lemma_close_region(
    bl: Seq<Seq<char>>,
    ll: Seq<Seq<char>>,
    rl: Seq<Seq<char>>,
    hs: Seq<MergeHunk>,
    c: DiffRegion,
    bpos: int,
    spos: int,
)
    requires
        hs.len() > 0,
        hs.last().source == HunkSource::Local,
        hs.last().base_range == span(c.base_start, c.base_end),
        hs.last().local_range == span(c.side_start, c.side_end),
        c.base_end == bpos - 1,
        c.side_end == spos - 1,
        1 <= c.base_start,
        1 <= c.side_start,
        0 <= build(bl, ll, rl, hs.drop_last()).1 <= c.base_start - 1 <= bpos - 1 <= bl.len(),
        c.side_start - 1 <= spos - 1 <= ll.len(),
        build(bl, ll, rl, hs.drop_last()).0 + bl.subrange(build(bl, ll, rl, hs.drop_last()).1, c.base_start - 1)
            == ll.subrange(0, c.side_start - 1),
    ensures
        build(bl, ll, rl, hs).1 == bpos - 1,
        build(bl, ll, rl, hs).0 == ll.subrange(0, spos - 1),
{
    let st = build(bl, ll, rl, hs.drop_last());
    let h = hs.last();
    assert(copy_upto(bl.len() as int, st.1, h) == c.base_start - 1);
    let out1 = st.0 + bl.subrange(st.1, c.base_start - 1);
    if spos - 1 < c.side_start {
        assert(block_of(h, ll, rl) =~= Seq::<Seq<char>>::empty());
        assert(out1 + block_of(h, ll, rl) =~= ll.subrange(0, spos - 1));
    } else {
        assert(block_of(h, ll, rl) =~= ll.subrange(c.side_start - 1, spos - 1));
        assert(out1 + block_of(h, ll, rl) =~= ll.subrange(0, spos - 1));
    }
}

proof fn lemma_regions_extend_scan(tags: Seq<DiffTag>)
    ensures
        regions_of(tags).len() >= scan(tags).0.len(),
        forall|j: int| 0 <= j < scan(tags).0.len() ==> #[trigger] regions_of(tags)[j] == scan(tags).0[j],
{
}

#[verifier::rlimit(100)]
proof fn lemma_walk_step(tags: Seq<DiffTag>, n: int, bl: Seq<Seq<char>>, ll: Seq<Seq<char>>, rl: Seq<Seq<char>>, hunks: Seq<MergeHunk>)
    requires
        tags.len() < usize::MAX,
        0 < n <= tags.len(),
        script_fits(tags, bl, ll),
        local_hunks_of(hunks, regions_of(tags)),
        walk_holds(tags, n - 1, bl, ll, rl, hunks),
    ensures
        walk_holds(tags, n, bl, ll, rl, hunks),
{
    let t = tags.subrange(0, n);
    let st = scan(t);
    lemma_scan_bounds(t);
    lemma_scan_prefix(tags, n, tags.len() as int);
    assert(tags.subrange(0, tags.len() as int) =~= tags);
    lemma_regions_extend_scan(tags);
    let k = st.0.len() as int;
    let prev = tags.subrange(0, n - 1);
    assert(t.drop_last() =~= prev);
    assert(t.last() == tags[n - 1]);
    let st0 = scan(prev);
    lemma_scan_bounds(prev);
    assert(st == scan_step(st0, tags[n - 1]));
    assert(step_fits(scan(tags.subrange(0, n - 1)), tags[n - 1], bl, ll));
    let k0 = st0.0.len() as int;
    let b0 = build(bl, ll, rl, hunks.subrange(0, k0));
    if tags[n - 1] == DiffTag::Equal && st0.3 {
        let c = closed(st0);
        assert(st.0 == st0.0.push(c));
        let hs = hunks.subrange(0, k);
        assert(hs.drop_last() =~= hunks.subrange(0, k0));
        assert(scan(tags).0[k0] == st.0[k0]);
        assert(regions_of(tags)[k0] == c);
        assert(hs.last() == hunks[k0]);
        lemma_close_region(bl, ll, rl, hs, c, st0.1, st0.2);
        let b = build(bl, ll, rl, hs);
        assert(b.0 + bl.subrange(b.1, st.1 - 1) =~= ll.subrange(0, st.2 - 1));
    } else if tags[n - 1] == DiffTag::Equal {
        assert(st.0 == st0.0);
        assert(b0.0 + bl.subrange(b0.1, st.1 - 1) =~= (b0.0 + bl.subrange(b0.1, st0.1 - 1)).push(bl[st0.1 - 1]));
        assert(ll.subrange(0, st.2 - 1) =~= ll.subrange(0, st0.2 - 1).push(ll[st0.2 - 1]));
    } else {
        assert(st.0 == st0.0);
    }
}

proof fn lemma_walk(tags: Seq<DiffTag>, n: int, bl: Seq<Seq<char>>, ll: Seq<Seq<char>>, rl: Seq<Seq<char>>, hunks: Seq<MergeHunk>)
    requires
        tags.len() < usize::MAX,
        0 <= n <= tags.len(),
        script_fits(tags, bl, ll),
        local_hunks_of(hunks, regions_of(tags)),
    ensures
        walk_holds(tags, n, bl, ll, rl, hunks),
    decreases n,
{
    if n == 0 {
        assert(tags.subrange(0, 0) =~= Seq::<DiffTag>::empty());
        assert(hunks.subrange(0, 0) =~= Seq::<MergeHunk>::empty());
        let b = build(bl, ll, rl, hunks.subrange(0, 0));
        assert(b.0 + bl.subrange(0, 0) =~= ll.subrange(0, 0));
        lemma_scan_prefix(tags, 0, tags.len() as int);
        assert(tags.subrange(0, tags.len() as int) =~= tags);
        lemma_regions_extend_scan(tags);
    } else {
        lemma_walk(tags, n - 1, bl, ll, rl, hunks);
        lemma_walk_step(tags, n, bl, ll, rl, hunks);
    }
}

/// When the remote side keeps every line of the base and the local script is
/// an edit script from the base's lines to the local lines, the merge's
/// result is the local lines joined: the local text itself, for a text with
/// no carriage return that does not end with a newline.
pub proof fn pure_local_change_gives_local(
    hunks: Seq<MergeHunk>,
    result: Seq<char>,
    base: Seq<char>,
    local: Seq<char>,
    remote: Seq<char>,
    local_script: Seq<DiffTag>,
    remote_script: Seq<DiffTag>,
)
    requires
        all_equal(remote_script),
        local_script.len() < usize::MAX,
        script_fits(local_script, lines_of(base), lines_of(local)),
        merge_outcome(hunks, result, base, local, remote, local_script, remote_script),
    ensures
        result == join_nl(lines_of(local)),
        no_cr(local) && (local.len() == 0 || local.last() != '\n') ==> result == local,
{
    let bl = lines_of(base);
    let ll = lines_of(local);
    let rl = lines_of(remote);
    let l = regions_of(local_script);
    let r = regions_of(remote_script);
    lemma_all_equal_no_regions(remote_script);
    lemma_plan_index_local(l, r, 0);
    let plan = plan_from(l, r, 0, 0);
    assert forall|j: int| 0 <= j < hunks.len() implies {
        &&& (#[trigger] hunks[j]).source == HunkSource::Local
        &&& hunks[j].base_range == span(l[j].base_start, l[j].base_end)
        &&& hunks[j].local_range == span(l[j].side_start, l[j].side_end)
    } by {
        assert(plan[j] == (HunkSource::Local, j as nat, 0nat));
        assert(hunk_made(hunks[j], plan[j], j, bl, ll, rl, l, r));
    }
    assert(local_hunks_of(hunks, l));
    let n = local_script.len() as int;
    lemma_walk(local_script, n, bl, ll, rl, hunks);
    assert(local_script.subrange(0, n) =~= local_script);
    let st = scan(local_script);
    lemma_scan_bounds(local_script);
    if st.3 {
        let c = closed(st);
        assert(l == st.0.push(c));
        assert(hunks.subrange(0, hunks.len() as int) =~= hunks);
        assert(hunks.drop_last() =~= hunks.subrange(0, st.0.len() as int));
        lemma_close_region(bl, ll, rl, hunks, c, st.1, st.2);
        assert(ll.subrange(0, ll.len() as int) =~= ll);
        assert(result_lines(bl, ll, rl, hunks) =~= ll);
    } else {
        assert(hunks.subrange(0, st.0.len() as int) =~= hunks);
        assert(ll.subrange(0, ll.len() as int) =~= ll);
        assert(result_lines(bl, ll, rl, hunks) =~= ll);
    }
    if no_cr(local) && (local.len() == 0 || local.last() != '\n') {
        lemma_join_lines_of(local);
    }
}

/// The base line a plan step's hunk starts at.
pub open spec fn step_start(l: Seq<DiffRegion>, r: Seq<DiffRegion>, e: (HunkSource, nat, nat)) -> int {
    match e.0 {
        HunkSource::Conflict => min_u(l[e.1 as int].base_start, r[e.2 as int].base_start) as int,
        HunkSource::Local => l[e.1 as int].base_start as int,
        _ => r[e.2 as int].base_start as int,
    }
}

/// Region starts strictly increase.
pub open spec fn starts_increase(rs: Seq<DiffRegion>) -> bool {
    forall|i: int, j: int| 0 <= i < j < rs.len() ==> rs[i].base_start < rs[j].base_start
}

/// The smallest start among the next unconsumed regions.
pub open spec fn next_start(l: Seq<DiffRegion>, r: Seq<DiffRegion>, li: nat, ri: nat) -> int {
    if li < l.len() && ri < r.len() {
        min_u(l[li as int].base_start, r[ri as int].base_start) as int
    } else if li < l.len() {
        l[li as int].base_start as int
    } else if ri < r.len() {
        r[ri as int].base_start as int
    } else {
        0
    }
}

proof fn lemma_plan_sorted(l: Seq<DiffRegion>, r: Seq<DiffRegion>, li: nat, ri: nat)
    requires
        starts_increase(l),
        starts_increase(r),
    ensures
        plan_from(l, r, li, ri).len() > 0 ==> step_start(l, r, plan_from(l, r, li, ri)[0]) == next_start(l, r, li, ri),
        forall|m: int| 0 <= m < plan_from(l, r, li, ri).len() ==> next_start(l, r, li, ri) <= #[trigger] step_start(l, r, plan_from(l, r, li, ri)[m]),
        forall|a: int, b: int| 0 <= a <= b < plan_from(l, r, li, ri).len() ==> step_start(l, r, plan_from(l, r, li, ri)[a]) <= step_start(l, r, plan_from(l, r, li, ri)[b]),
    decreases rem(l.len(), li) + rem(r.len(), ri),
{
    let p = plan_from(l, r, li, ri);
    if li < l.len() || ri < r.len() {
        let (nli, nri): (nat, nat) = if li < l.len() && ri < r.len() {
            if overlaps(l[li as int], r[ri as int]) {
                (li + 1, ri + 1)
            } else if l[li as int].base_start <= r[ri as int].base_start {
                (li + 1, ri)
            } else {
                (li, ri + 1)
            }
        } else if li < l.len() {
            (li + 1, ri)
        } else {
            (li, ri + 1)
        };
        lemma_plan_sorted(l, r, nli, nri);
        let rest = plan_from(l, r, nli, nri);
        assert(p == seq![p[0]] + rest);
        assert(next_start(l, r, li, ri) <= next_start(l, r, nli, nri) || rest.len() == 0);
        assert forall|m: int| 0 <= m < p.len() implies next_start(l, r, li, ri) <= #[trigger] step_start(l, r, p[m]) by {
            if m > 0 {
                assert(p[m] == rest[m - 1]);
            }
        }
        assert forall|a: int, b: int| 0 <= a <= b < p.len() implies step_start(l, r, p[a]) <= step_start(l, r, p[b]) by {
            assert(p[b] == if b == 0 { p[0] } else { rest[b - 1] });
            if a > 0 {
                assert(p[a] == rest[a - 1]);
            } else {
                assert(next_start(l, r, li, ri) <= step_start(l, r, p[b]));
            }
        }
    }
}

/// The hunks of a merge come in base order: their base starts never
/// decrease in discovery order.
pub proof fn hunk_base_starts_non_decreasing(
    hunks: Seq<MergeHunk>,
    result: Seq<char>,
    base: Seq<char>,
    local: Seq<char>,
    remote: Seq<char>,
    local_script: Seq<DiffTag>,
    remote_script: Seq<DiffTag>,
)
    requires
        local_script.len() < usize::MAX,
        remote_script.len() < usize::MAX,
        merge_outcome(hunks, result, base, local, remote, local_script, remote_script),
    ensures
        forall|i: int, j: int| 0 <= i <= j < hunks.len() ==> hunks[i].base_range.start <= hunks[j].base_range.start,
{
    let l = regions_of(local_script);
    let r = regions_of(remote_script);
    regions_in_base_order(local_script);
    regions_in_base_order(remote_script);
    lemma_plan_sorted(l, r, 0, 0);
    let p = plan_from(l, r, 0, 0);
    assert forall|i: int| 0 <= i < hunks.len() implies (#[trigger] hunks[i]).base_range.start == step_start(l, r, p[i]) by {
        assert(hunk_made(hunks[i], p[i], i, lines_of(base), lines_of(local), lines_of(remote), l, r));
    }
    assert forall|i: int, j: int| 0 <= i <= j < hunks.len() implies hunks[i].base_range.start <= hunks[j].base_range.start by {
        assert(hunks[i].base_range.start == step_start(l, r, p[i]));
        assert(hunks[j].base_range.start == step_start(l, r, p[j]));
    }
}

/// How many lines of the base a script walks over (every operation but an
/// insertion).
pub open spec fn base_walked(t: Seq<DiffTag>) -> int
    decreases t.len(),
{
    if t.len() == 0 {
        0
    } else {
        base_walked(t.drop_last()) + if t.last() == DiffTag::Insert { 0int } else { 1int }
    }
}

/// How many lines of the side a script walks over (every operation but a
/// deletion).
pub open spec fn side_walked(t: Seq<DiffTag>) -> int
    decreases t.len(),
{
    if t.len() == 0 {
        0
    } else {
        side_walked(t.drop_last()) + if t.last() == DiffTag::Delete { 0int } else { 1int }
    }
}

/// Operations `a..b` of `t` are a run of changes that no further change
/// extends on either side (within `t`).
pub open spec fn change_run(t: Seq<DiffTag>, a: int, b: int) -> bool {
    &&& 0 <= a < b <= t.len()
    &&& forall|i: int| a <= i < b ==> t[i] != DiffTag::Equal
    &&& a == 0 || t[a - 1] == DiffTag::Equal
    &&& b == t.len() || t[b] == DiffTag::Equal
}

/// `g` is the region of the run `a..b` of `t`: the base lines the run
/// deletes and the side lines it inserts, numbered from 1.
pub open spec fn region_of_run(t: Seq<DiffTag>, g: DiffRegion, a: int, b: int) -> bool {
    &&& change_run(t, a, b)
    &&& g.base_start == 1 + base_walked(t.subrange(0, a))
    &&& g.base_end == base_walked(t.subrange(0, b))
    &&& g.side_start == 1 + side_walked(t.subrange(0, a))
    &&& g.side_end == side_walked(t.subrange(0, b))
}

/// `g` is the region of some run of changes of `t`.
pub open spec fn is_run_region(t: Seq<DiffTag>, g: DiffRegion) -> bool {
    exists|a: int, b: int| #[trigger] region_of_run(t, g, a, b)
}

/// `g` is the region of a run of changes that an unchanged line of `t` ends.
spec fn is_closed_run_region(t: Seq<DiffTag>, g: DiffRegion) -> bool {
    exists|a: int, b: int| b < t.len() && #[trigger] region_of_run(t, g, a, b)
}

spec fn scan_runs(t: Seq<DiffTag>) -> bool {
    let st = scan(t);
    &&& st.1 == 1 + base_walked(t)
    &&& st.2 == 1 + side_walked(t)
    &&& forall|j: int| 0 <= j < st.0.len() ==> is_closed_run_region(t, #[trigger] st.0[j])
    &&& st.3 ==> exists|a: int|
        0 <= a < t.len() && (forall|i: int| a <= i < t.len() ==> t[i] != DiffTag::Equal) && (a == 0 || t[a - 1] == DiffTag::Equal)
            && st.4.base_start == 1 + base_walked(#[trigger] t.subrange(0, a)) && st.4.side_start == 1 + side_walked(t.subrange(0, a))
    &&& !st.3 ==> t.len() == 0 || t.last() == DiffTag::Equal
}

proof fn lemma_walked_bounds(t: Seq<DiffTag>)
    ensures
        0 <= base_walked(t) <= t.len(),
        0 <= side_walked(t) <= t.len(),
    decreases t.len(),
{
    if t.len() > 0 {
        lemma_walked_bounds(t.drop_last());
    }
}

#[verifier::rlimit(100)]
proof fn lemma_scan_runs(t: Seq<DiffTag>)
    requires
        t.len() < usize::MAX,
    ensures
        scan_runs(t),
    decreases t.len(),
{
    if t.len() == 0 {
        return;
    }
    let p = t.drop_last();
    lemma_scan_runs(p);
    lemma_walked_bounds(p);
    lemma_walked_bounds(t);
    let st0 = scan(p);
    let st = scan(t);
    let x = t.last();
    assert(t.subrange(0, p.len() as int) =~= p);
    assert forall|a: int| 0 <= a <= p.len() implies #[trigger] t.subrange(0, a) == p.subrange(0, a) by {
        assert(t.subrange(0, a) =~= p.subrange(0, a));
    }
    assert forall|g: DiffRegion, a: int, b: int| b < p.len() && #[trigger] region_of_run(p, g, a, b) implies region_of_run(t, g, a, b) by {
        assert(t.subrange(0, a) == p.subrange(0, a));
        assert(t.subrange(0, b) == p.subrange(0, b));
        assert forall|i: int| a <= i < b implies t[i] != DiffTag::Equal by {
            assert(t[i] == p[i]);
        }
        assert(t[b] == p[b]);
        if a > 0 {
            assert(t[a - 1] == p[a - 1]);
        }
    }
    assert forall|j: int| 0 <= j < st0.0.len() implies is_closed_run_region(t, #[trigger] st0.0[j]) by {
        assert(is_closed_run_region(p, st0.0[j]));
        let (a, b) = choose|a: int, b: int| b < p.len() && #[trigger] region_of_run(p, st0.0[j], a, b);
        assert(region_of_run(t, st0.0[j], a, b));
    }
    if x == DiffTag::Equal && st0.3 {
        let a = choose|a: int|
            0 <= a < p.len() && (forall|i: int| a <= i < p.len() ==> p[i] != DiffTag::Equal) && (a == 0 || p[a - 1] == DiffTag::Equal)
                && st0.4.base_start == 1 + base_walked(#[trigger] p.subrange(0, a)) && st0.4.side_start == 1 + side_walked(p.subrange(0, a));
        let c = closed(st0);
        assert(st.0 == st0.0.push(c));
        let b = p.len() as int;
        assert(t.subrange(0, a) == p.subrange(0, a));
        assert forall|i: int| a <= i < b implies t[i] != DiffTag::Equal by {
            assert(t[i] == p[i]);
        }
        if a > 0 {
            assert(t[a - 1] == p[a - 1]);
        }
        assert(region_of_run(t, c, a, b));
        assert forall|j: int| 0 <= j < st.0.len() implies is_closed_run_region(t, #[trigger] st.0[j]) by {
            if j < st0.0.len() {
                assert(st.0[j] == st0.0[j]);
                assert(is_closed_run_region(t, st0.0[j]));
            } else {
                assert(st.0[j] == c);
                assert(region_of_run(t, st.0[j], a, b));
            }
        }
    } else if x == DiffTag::Equal {
        assert(st.0 == st0.0);
    } else if st0.3 {
        assert(st.0 == st0.0);
        let a = choose|a: int|
            0 <= a < p.len() && (forall|i: int| a <= i < p.len() ==> p[i] != DiffTag::Equal) && (a == 0 || p[a - 1] == DiffTag::Equal)
                && st0.4.base_start == 1 + base_walked(#[trigger] p.subrange(0, a)) && st0.4.side_start == 1 + side_walked(p.subrange(0, a));
        assert(t.subrange(0, a) == p.subrange(0, a));
        assert forall|i: int| a <= i < t.len() implies t[i] != DiffTag::Equal by {
            if i < p.len() {
                assert(t[i] == p[i]);
            }
        }
        if a > 0 {
            assert(t[a - 1] == p[a - 1]);
        }
    } else {
        assert(st.0 == st0.0);
        let a = p.len() as int;
        assert(t.subrange(0, a) == p);
        if a > 0 {
            assert(t[a - 1] == p.last());
        }
        assert(st.4.base_start == 1 + base_walked(t.subrange(0, a)));
    }
}

/// Each region of a script is the span of a maximal run of changes: the base
/// lines the run deletes (from one past the base lines walked before it to
/// the base lines walked through it) and the side lines it inserts (likewise).
pub proof fn regions_are_change_runs(tags: Seq<DiffTag>)
    requires
        tags.len() < usize::MAX,
    ensures
        forall|j: int| 0 <= j < regions_of(tags).len() ==> is_run_region(tags, #[trigger] regions_of(tags)[j]),
{
    lemma_scan_runs(tags);
    lemma_walked_bounds(tags);
    let st = scan(tags);
    assert forall|j: int| 0 <= j < regions_of(tags).len() implies is_run_region(tags, #[trigger] regions_of(tags)[j]) by {
        if j < st.0.len() {
            assert(regions_of(tags)[j] == st.0[j]);
            assert(is_closed_run_region(tags, st.0[j]));
            let (a, b) = choose|a: int, b: int| b < tags.len() && #[trigger] region_of_run(tags, st.0[j], a, b);
            assert(region_of_run(tags, regions_of(tags)[j], a, b));
        } else {
            let a = choose|a: int|
                0 <= a < tags.len() && (forall|i: int| a <= i < tags.len() ==> tags[i] != DiffTag::Equal) && (a == 0 || tags[a - 1] == DiffTag::Equal)
                    && st.4.base_start == 1 + base_walked(#[trigger] tags.subrange(0, a)) && st.4.side_start == 1 + side_walked(tags.subrange(0, a));
            assert(tags.subrange(0, tags.len() as int) =~= tags);
            assert(region_of_run(tags, regions_of(tags)[j], a, tags.len() as int));
        }
    }
}

} // verus!
