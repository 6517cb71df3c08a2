use weaver::structural::{
    can_structural_resolve, end_of_line_byte, find_spanning_nodes, get_language, line_to_byte,
    structural_resolve_with, Grammar, SyntaxInputs,
};
use weaver::{structural_auto_resolve, three_way_merge, HunkSource, HunkStatus, MergeSession};

fn session(base: &str, local: &str, remote: &str, language: &str) -> MergeSession {
    let (hunks, result) = three_way_merge(base, local, remote);
    MergeSession {
        base_path: "base.rs".to_string(),
        local_path: "local.rs".to_string(),
        remote_path: "remote.rs".to_string(),
        merged_path: "merged.rs".to_string(),
        base_content: base.to_string(),
        local_content: local.to_string(),
        remote_content: remote.to_string(),
        result_content: result,
        hunks,
        language: language.to_string(),
    }
}

const BASE: &str = "fn f() { 1 }\n\nfn g() { 2 }";

#[test]
fn disjoint_functions_are_auto_resolved() {
    let local = "fn f() { 10 }\nfn g() { 2 }";
    let remote = "fn f() { 1 }\nfn g() { 20 }";
    let mut s = session(BASE, local, remote, "rust");
    assert_eq!(s.hunks.len(), 1);
    assert_eq!(s.hunks[0].source, HunkSource::Conflict);
    let n = structural_auto_resolve(&mut s);
    assert_eq!(n, 1);
    assert_eq!(s.hunks[0].status, HunkStatus::AutoResolved);
    assert_eq!(s.result_content, "fn f() { 10 }\nfn g() { 20 }");
    assert_eq!((s.hunks[0].result_range.start, s.hunks[0].result_range.end), (1, 2));
}

#[test]
fn same_function_stays_unresolved() {
    let local = "fn f() { 10 }\nfn g() { 2 }";
    let remote = "fn f() { 100 }\n\nfn g() { 2 }";
    let mut s = session(BASE, local, remote, "rust");
    assert_eq!(s.hunks.len(), 1);
    assert_eq!(s.hunks[0].source, HunkSource::Conflict);
    let before = s.result_content.clone();
    let n = structural_auto_resolve(&mut s);
    assert_eq!(n, 0);
    assert_eq!(s.hunks[0].status, HunkStatus::Unresolved);
    assert_eq!(s.result_content, before);
}

#[test]
fn unknown_language_resolves_nothing() {
    let local = "fn f() { 10 }\nfn g() { 2 }";
    let remote = "fn f() { 1 }\nfn g() { 20 }";
    let mut s = session(BASE, local, remote, "plaintext");
    let before = s.result_content.clone();
    assert_eq!(structural_auto_resolve(&mut s), 0);
    assert_eq!(s.hunks[0].status, HunkStatus::Unresolved);
    assert_eq!(s.result_content, before);
}

#[test]
fn grammar_lookup() {
    assert_eq!(get_language("rust"), Some(Grammar::Rust));
    assert_eq!(get_language("typescript"), Some(Grammar::TypeScript));
    assert_eq!(get_language("cpp"), Some(Grammar::Cpp));
    assert_eq!(get_language("c"), Some(Grammar::C));
    assert_eq!(get_language("markdown"), None);
    assert_eq!(get_language(""), None);
}

#[test]
fn line_byte_offsets() {
    let b = "ab\ncd\nef".as_bytes().to_vec();
    assert_eq!(line_to_byte(&b, 0), 0);
    assert_eq!(line_to_byte(&b, 1), 0);
    assert_eq!(line_to_byte(&b, 2), 3);
    assert_eq!(line_to_byte(&b, 3), 6);
    assert_eq!(line_to_byte(&b, 9), 8);
    assert_eq!(end_of_line_byte(&b, 1), 3);
    assert_eq!(end_of_line_byte(&b, 2), 6);
    assert_eq!(end_of_line_byte(&b, 3), 8);
    assert_eq!(end_of_line_byte(&b, 0), 8);
    let u = "é\nx".as_bytes().to_vec();
    assert_eq!(line_to_byte(&u, 2), 3);
}

#[test]
fn spanning_nodes_skip_and_stop() {
    let nodes = vec![(0, 5), (6, 10), (11, 20), (21, 30)];
    assert_eq!(find_spanning_nodes(&nodes, 5, 12), vec![(6, 10), (11, 20)]);
    assert_eq!(find_spanning_nodes(&nodes, 0, 6), vec![(0, 5)]);
    assert_eq!(find_spanning_nodes(&nodes, 30, 40), Vec::<(usize, usize)>::new());
}

#[test]
fn safety_check_on_given_nodes() {
    let mut s = session(BASE, "fn f() { 10 }\nfn g() { 2 }", "fn f() { 1 }\nfn g() { 20 }", "rust");
    let p = SyntaxInputs {
        base: BASE.as_bytes().to_vec(),
        local: "fn f() { 10 }\nfn g() { 2 }".as_bytes().to_vec(),
        remote: "fn f() { 1 }\nfn g() { 20 }".as_bytes().to_vec(),
        base_nodes: vec![(0, 12), (14, 26)],
        local_nodes: vec![(0, 13), (14, 26)],
        remote_nodes: vec![(0, 12), (13, 26)],
    };
    assert!(can_structural_resolve(&s.hunks[0], &p));
    let overlapping = SyntaxInputs { remote_nodes: vec![(0, 26)], ..p };
    assert!(!can_structural_resolve(&s.hunks[0], &overlapping));
    assert_eq!(structural_resolve_with(&mut s, &overlapping), 0);
    assert_eq!(s.hunks[0].status, HunkStatus::Unresolved);
}
