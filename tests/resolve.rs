use weaver::{auto_resolve_non_conflicts, resolve_hunk, three_way_merge, HunkSource, HunkStatus, LineRange, MergeHunk, MergeSession};

fn hunk(id: usize, start: usize, end: usize, local: &str, remote: &str) -> MergeHunk {
    let side = |c: &str| if c.is_empty() { LineRange::empty() } else { LineRange::new(id + 1, id + 1) };
    MergeHunk {
        id,
        base_range: LineRange::empty(),
        local_range: side(local),
        remote_range: side(remote),
        result_range: LineRange::new(start, end),
        source: HunkSource::Conflict,
        status: HunkStatus::Unresolved,
        local_content: local.to_string(),
        remote_content: remote.to_string(),
        base_content: String::new(),
    }
}

/// A session whose local and remote texts hold each hunk's content on the
/// line numbered one past its id.
fn session(result: &str, hunks: Vec<MergeHunk>) -> MergeSession {
    let local: Vec<String> = hunks.iter().map(|h| h.local_content.clone()).collect();
    let remote: Vec<String> = hunks.iter().map(|h| h.remote_content.clone()).collect();
    MergeSession {
        base_path: "b".to_string(),
        local_path: "l".to_string(),
        remote_path: "r".to_string(),
        merged_path: "m".to_string(),
        base_content: String::new(),
        local_content: local.join("\n"),
        remote_content: remote.join("\n"),
        result_content: result.to_string(),
        hunks,
        language: "plaintext".to_string(),
    }
}

fn merged_session(base: &str, local: &str, remote: &str) -> MergeSession {
    let (hunks, result) = three_way_merge(base, local, remote);
    let mut s = session(&result, hunks);
    s.base_content = base.to_string();
    s.local_content = local.to_string();
    s.remote_content = remote.to_string();
    s
}

fn twelve_lines() -> String {
    (1..=12).map(|i| format!("l{}", i)).collect::<Vec<_>>().join("\n")
}

#[test]
fn resolving_first_hunk_rebases_later_one() {
    let mut s = session(&twelve_lines(), vec![hunk(0, 1, 3, "x", "y"), hunk(1, 10, 12, "p", "q")]);
    resolve_hunk(&mut s, 0, HunkStatus::AcceptedLocal);
    assert_eq!(s.hunks[0].status, HunkStatus::AcceptedLocal);
    assert_eq!((s.hunks[0].result_range.start, s.hunks[0].result_range.end), (1, 1));
    assert_eq!((s.hunks[1].result_range.start, s.hunks[1].result_range.end), (8, 10));
    assert_eq!(s.hunks[1].result_range.line_count(), 3);
    assert_eq!(s.result_content, "x\nl4\nl5\nl6\nl7\nl8\nl9\nl10\nl11\nl12");
}

#[test]
fn resolving_later_hunk_leaves_earlier_one() {
    let mut s = session(&twelve_lines(), vec![hunk(0, 1, 3, "x", "y"), hunk(1, 10, 12, "p", "q")]);
    resolve_hunk(&mut s, 1, HunkStatus::AcceptedRemote);
    assert_eq!((s.hunks[0].result_range.start, s.hunks[0].result_range.end), (1, 3));
    assert_eq!((s.hunks[1].result_range.start, s.hunks[1].result_range.end), (10, 10));
    assert_eq!(s.result_content, "l1\nl2\nl3\nl4\nl5\nl6\nl7\nl8\nl9\nq");
}

#[test]
fn accept_both_joins_sides() {
    let mut s = merged_session("a\nb\nc", "a\nL\nc", "a\nR\nc");
    resolve_hunk(&mut s, 0, HunkStatus::AcceptedBoth);
    assert_eq!(s.result_content, "a\nL\nR\nc");
    assert_eq!(s.hunks[0].status, HunkStatus::AcceptedBoth);
    assert_eq!((s.hunks[0].result_range.start, s.hunks[0].result_range.end), (2, 3));
}

#[test]
fn re_resolving_uses_current_length() {
    let mut s = merged_session("a\nb\nc\nd\ne", "a\nL\nc\nX\ne", "a\nR\nc\nd\ne");
    assert_eq!(s.hunks.len(), 2);
    resolve_hunk(&mut s, 0, HunkStatus::AcceptedBoth);
    resolve_hunk(&mut s, 0, HunkStatus::AcceptedLocal);
    assert_eq!(s.result_content, "a\nL\nc\nX\ne");
    assert_eq!((s.hunks[1].result_range.start, s.hunks[1].result_range.end), (4, 4));
}

#[test]
fn unknown_id_is_a_no_op() {
    let mut s = session("a\nb", vec![hunk(0, 1, 1, "x", "y")]);
    resolve_hunk(&mut s, 7, HunkStatus::AcceptedLocal);
    assert_eq!(s.result_content, "a\nb");
    assert_eq!(s.hunks[0].status, HunkStatus::Unresolved);
}

#[test]
fn non_decision_status_is_a_no_op() {
    let mut s = session("a\nb", vec![hunk(0, 1, 1, "x", "y")]);
    resolve_hunk(&mut s, 0, HunkStatus::CustomEdit);
    assert_eq!(s.result_content, "a\nb");
    assert_eq!(s.hunks[0].status, HunkStatus::Unresolved);
}

#[test]
fn resolving_to_empty_content_empties_span() {
    let mut s = session("a\nb\nc", vec![hunk(0, 2, 2, "", "y"), hunk(1, 3, 3, "p", "q")]);
    resolve_hunk(&mut s, 0, HunkStatus::AcceptedLocal);
    assert!(s.hunks[0].result_range.is_empty());
    assert_eq!((s.hunks[1].result_range.start, s.hunks[1].result_range.end), (2, 2));
    assert_eq!(s.result_content, "a\nc");
}

#[test]
fn accepting_a_blank_line_keeps_it() {
    let mut s = merged_session("a\nb\nc", "a\n\nc", "a\nR\nc");
    assert_eq!(s.hunks.len(), 1);
    resolve_hunk(&mut s, 0, HunkStatus::AcceptedLocal);
    assert_eq!(s.result_content, "a\n\nc");
    assert_eq!((s.hunks[0].result_range.start, s.hunks[0].result_range.end), (2, 2));
}

#[test]
fn auto_resolve_marks_only_non_conflicts() {
    let mut one = hunk(0, 1, 1, "x", "y");
    one.source = HunkSource::Local;
    let two = hunk(1, 2, 2, "p", "q");
    let mut s = session("a\nb", vec![one, two]);
    auto_resolve_non_conflicts(&mut s);
    assert_eq!(s.hunks[0].status, HunkStatus::AutoResolved);
    assert_eq!(s.hunks[1].status, HunkStatus::Unresolved);
}
