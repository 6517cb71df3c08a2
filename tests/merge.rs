use weaver::three_way::{extract_regions, merge_with_scripts, DiffRegion, DiffTag};
use weaver::text::get_lines;
use weaver::{rebuild_result, three_way_merge, HunkSource, HunkStatus, LineRange, MergeHunk};

fn hunk_at(start: usize, end: usize) -> MergeHunk {
    MergeHunk {
        id: 0,
        base_range: LineRange::empty(),
        local_range: LineRange::empty(),
        remote_range: LineRange::empty(),
        result_range: LineRange::new(start, end),
        source: HunkSource::Conflict,
        status: HunkStatus::Unresolved,
        local_content: String::new(),
        remote_content: String::new(),
        base_content: String::new(),
    }
}

#[test]
fn line_range_counts() {
    assert_eq!(LineRange::new(3, 5).line_count(), 3);
    assert_eq!(LineRange::new(4, 4).line_count(), 1);
    assert_eq!(LineRange::empty().line_count(), 0);
    assert!(LineRange::empty().is_empty());
    assert!(!LineRange::new(0, 2).is_empty());
    assert_eq!(LineRange::new(5, 4).line_count(), 0);
}

#[test]
fn identical_inputs_give_no_hunks() {
    let x = "a\nb\nc";
    let (hunks, result) = three_way_merge(x, x, x);
    assert!(hunks.is_empty());
    assert_eq!(result, x);
}

#[test]
fn empty_inputs_give_no_hunks() {
    let (hunks, result) = three_way_merge("", "", "");
    assert!(hunks.is_empty());
    assert_eq!(result, "");
}

#[test]
fn pure_local_change_is_taken() {
    let base = "a\nb\nc";
    let local = "a\nB\nc\nd";
    let (hunks, result) = three_way_merge(base, local, base);
    assert!(!hunks.is_empty());
    for h in &hunks {
        assert_eq!(h.source, HunkSource::Local);
        assert_eq!(h.status, HunkStatus::AutoResolved);
    }
    assert_eq!(result, local);
}

#[test]
fn non_overlapping_double_edit() {
    let (hunks, result) = three_way_merge("a\nb\nc", "a\nX\nc", "a\nb\nY");
    assert_eq!(hunks.len(), 2);
    assert_eq!(hunks[0].source, HunkSource::Local);
    assert_eq!(hunks[1].source, HunkSource::Remote);
    assert_eq!(hunks[0].status, HunkStatus::AutoResolved);
    assert_eq!(hunks[1].status, HunkStatus::AutoResolved);
    assert_eq!(hunks[0].local_content, "X");
    assert_eq!(hunks[1].remote_content, "Y");
    assert_eq!(hunks[0].id, 0);
    assert_eq!(hunks[1].id, 1);
    assert_eq!((hunks[0].result_range.start, hunks[0].result_range.end), (2, 2));
    assert_eq!((hunks[1].result_range.start, hunks[1].result_range.end), (3, 3));
    assert_eq!(result, "a\nX\nY");
}

#[test]
fn true_conflict_gets_markers() {
    let (hunks, result) = three_way_merge("a\nb\nc", "a\nL\nc", "a\nR\nc");
    assert_eq!(hunks.len(), 1);
    let h = &hunks[0];
    assert_eq!(h.source, HunkSource::Conflict);
    assert_eq!(h.status, HunkStatus::Unresolved);
    assert_eq!(h.local_content, "L");
    assert_eq!(h.remote_content, "R");
    assert_eq!(h.base_content, "b");
    assert_eq!((h.base_range.start, h.base_range.end), (2, 2));
    assert_eq!(result, "a\n<<<<<<< LOCAL\nL\n=======\nR\n>>>>>>> REMOTE\nc");
    assert_eq!((h.result_range.start, h.result_range.end), (2, 6));
}

#[test]
fn conflict_base_range_is_union() {
    let (hunks, _) = three_way_merge("a\nb\nc\nd", "a\nX\nY\nd", "a\nb\nZ\nd");
    assert_eq!(hunks.len(), 1);
    assert_eq!(hunks[0].source, HunkSource::Conflict);
    assert_eq!((hunks[0].base_range.start, hunks[0].base_range.end), (2, 3));
    assert_eq!(hunks[0].base_content, "b\nc");
    assert_eq!(hunks[0].local_content, "X\nY");
    assert_eq!(hunks[0].remote_content, "Z");
}

#[test]
fn pure_deletion_hunk_has_empty_block() {
    let (hunks, result) = three_way_merge("a\nb\nc", "a\nc", "a\nb\nc");
    assert_eq!(hunks.len(), 1);
    assert_eq!(hunks[0].local_content, "");
    assert!(hunks[0].result_range.is_empty());
    assert_eq!(result, "a\nc");
}

#[test]
fn regions_from_script() {
    let script = vec![DiffTag::Equal, DiffTag::Delete, DiffTag::Insert, DiffTag::Insert, DiffTag::Equal, DiffTag::Insert];
    let regions = extract_regions(&script);
    assert_eq!(
        regions,
        vec![
            DiffRegion { base_start: 2, base_end: 2, side_start: 2, side_end: 3 },
            DiffRegion { base_start: 4, base_end: 3, side_start: 5, side_end: 5 },
        ]
    );
}

#[test]
fn regions_at_file_start_and_deletion() {
    let script = vec![DiffTag::Delete, DiffTag::Delete, DiffTag::Equal];
    let regions = extract_regions(&script);
    assert_eq!(regions, vec![DiffRegion { base_start: 1, base_end: 2, side_start: 1, side_end: 0 }]);
}

#[test]
fn merge_from_given_scripts() {
    let e = DiffTag::Equal;
    let (hunks, result) = merge_with_scripts(
        "a\nb",
        "a\nb\nc",
        "a\nb",
        &vec![e, e, DiffTag::Insert],
        &vec![e, e],
    );
    assert_eq!(hunks.len(), 1);
    assert_eq!(hunks[0].local_content, "c");
    assert_eq!((hunks[0].base_range.start, hunks[0].base_range.end), (3, 2));
    assert_eq!(result, "a\nb\nc");
}

#[test]
fn get_lines_clamps() {
    assert_eq!(get_lines("a\nb\nc", 2, 3), "b\nc");
    assert_eq!(get_lines("a\nb\nc", 2, 9), "b\nc");
    assert_eq!(get_lines("a\nb\nc", 0, 2), "");
    assert_eq!(get_lines("a\nb\nc", 3, 2), "");
    assert_eq!(get_lines("a\r\nb\n", 1, 2), "a\nb");
}

fn lines(v: &[&str]) -> Vec<String> {
    v.iter().map(|s| s.to_string()).collect()
}

#[test]
fn rebuild_replaces_span() {
    let h = hunk_at(2, 3);
    assert_eq!(rebuild_result("a\nb\nc\nd", &h, &lines(&["X"])), "a\nX\nd");
    assert_eq!(rebuild_result("a\nb\nc\nd", &h, &lines(&[])), "a\nd");
    assert_eq!(rebuild_result("a\nb\nc\nd", &h, &lines(&[""])), "a\n\nd");
    assert_eq!(rebuild_result("a\nb\nc\nd", &h, &lines(&["X", "Y", "Z"])), "a\nX\nY\nZ\nd");
}

#[test]
fn rebuild_with_empty_span_keeps_text() {
    let h = hunk_at(0, 0);
    assert_eq!(rebuild_result("a\nb", &h, &lines(&["X"])), "a\nb");
}

#[test]
fn inserted_blank_line_is_kept() {
    let (hunks, result) = three_way_merge("a\nb", "a\n\nb", "a\nb");
    assert_eq!(hunks.len(), 1);
    assert_eq!(hunks[0].source, HunkSource::Local);
    assert_eq!(hunks[0].local_content, "");
    assert_eq!((hunks[0].local_range.start, hunks[0].local_range.end), (2, 2));
    assert_eq!((hunks[0].result_range.start, hunks[0].result_range.end), (2, 2));
    assert_eq!(result, "a\n\nb");
}

#[test]
fn blank_line_in_conflict_block_is_kept() {
    let (_, result) = three_way_merge("a\nb\nc", "a\n\nc", "a\nR\nc");
    assert_eq!(result, "a\n<<<<<<< LOCAL\n\n=======\nR\n>>>>>>> REMOTE\nc");
}
