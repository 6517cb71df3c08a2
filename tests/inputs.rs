use weaver::{detect_language, language_for_extension, open_session, parse_conflict_markers, CliArgs};

fn args(v: &[&str]) -> Vec<String> {
    v.iter().map(|s| s.to_string()).collect()
}

#[test]
fn languages_from_paths() {
    assert_eq!(detect_language("/tmp/x/main.rs"), "rust");
    assert_eq!(detect_language("App.TSX"), "typescript");
    assert_eq!(detect_language("a.hpp"), "cpp");
    assert_eq!(detect_language("notes.md"), "markdown");
    assert_eq!(detect_language("Makefile"), "plaintext");
    assert_eq!(detect_language(".bashrc"), "plaintext");
    assert_eq!(detect_language("run.zsh"), "shell");
}

#[test]
fn languages_from_extensions() {
    assert_eq!(language_for_extension("py"), "python");
    assert_eq!(language_for_extension("yml"), "yaml");
    assert_eq!(language_for_extension("h"), "c");
    assert_eq!(language_for_extension("RS"), "plaintext");
    assert_eq!(language_for_extension(""), "plaintext");
}

#[test]
fn markers_are_parsed() {
    let text = "x\n<<<<<<< LOCAL\na\nb\n=======\nc\n>>>>>>> REMOTE\ny\n<<<<<<< HEAD\n=======\nd\n>>>>>>> other";
    let got = parse_conflict_markers(text).unwrap();
    assert_eq!(got, vec![("a\nb".to_string(), "c".to_string()), (String::new(), "d".to_string())]);
}

#[test]
fn no_markers_gives_none() {
    assert_eq!(parse_conflict_markers("a\nb"), None);
    assert_eq!(parse_conflict_markers(">>>>>>> x"), None);
    assert_eq!(parse_conflict_markers("<<<<<<< open\nonly"), None);
}

#[test]
fn cli_takes_first_four_non_flags() {
    let a = CliArgs::from_args(&args(&["prog", "--flag", "b", "l", "-x", "r", "m", "extra"])).unwrap();
    assert_eq!((a.base.as_str(), a.local.as_str(), a.remote.as_str(), a.merged.as_str()), ("b", "l", "r", "m"));
    assert!(CliArgs::from_args(&args(&["prog", "b", "l", "r"])).is_none());
}

#[test]
fn session_merges_against_base() {
    let a = CliArgs::from_args(&args(&["prog", "b.rs", "l.rs", "r.rs", "m.rs"])).unwrap();
    let s = open_session(&a, "a\nb\nc".to_string(), "a\nL\nc".to_string(), "a\nR\nc".to_string(), "");
    assert_eq!(s.language, "rust");
    assert_eq!(s.hunks.len(), 1);
    assert_eq!(s.merged_path, "m.rs");
    assert!(s.result_content.contains("<<<<<<< LOCAL"));
}

#[test]
fn session_without_ancestor_keeps_local() {
    let a = CliArgs::from_args(&args(&["prog", "b", "l", "r", "m.txt"])).unwrap();
    let s = open_session(&a, String::new(), "local".to_string(), "remote".to_string(), "plain");
    assert!(s.hunks.is_empty());
    assert_eq!(s.result_content, "local");
    assert_eq!(s.language, "plaintext");
}

#[test]
fn session_falls_back_to_merged_markers() {
    let a = CliArgs::from_args(&args(&["prog", "b", "l", "r", "m"])).unwrap();
    let merged = "a\n<<<<<<< LOCAL\nL\n=======\nR\n>>>>>>> REMOTE";
    let s = open_session(&a, String::new(), "a\nL".to_string(), "a\nR".to_string(), merged);
    assert!(!s.hunks.is_empty());
    assert_eq!(s.hunks[0].source, weaver::HunkSource::Conflict);
}
