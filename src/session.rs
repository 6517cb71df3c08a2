use vstd::prelude::*;
use crate::cli::CliArgs;
use crate::detect::{detect_language, extension_of, language_of_ext, lower_of};
use crate::hunk::{MergeHunk, MergeSession};
use crate::markers::{conflicts_in, occurs_in, parse_conflict_markers};
use crate::three_way::{line_script_of, merge_outcome, three_way_merge};

verus! {

/// Where the merge takes its common ancestor from: the base text when it
/// has content; else the merged file's text when it holds conflict blocks;
/// else there is nothing to merge.
pub open spec fn ancestor_of(base: Seq<char>, merged: Seq<char>) -> Option<Seq<char>> {
    if base.len() > 0 {
        Some(base)
    } else if occurs_in(merged, "<<<<<<<"@) && conflicts_in(merged).len() > 0 {
        Some(merged)
    } else {
        None
    }
}

/// Starts a session from the four paths and the texts read from them. The
/// hunks and the result come from merging local and remote against the
/// ancestor; with none, there are no hunks and the result is the local text.
pub fn open_session(
    args: &CliArgs,
    base: String,
    local: String,
    remote: String,
    merged: &str,
) -> (s: MergeSession)
    ensures
        s.base_path@ == args.base@,
        s.local_path@ == args.local@,
        s.remote_path@ == args.remote@,
        s.merged_path@ == args.merged@,
        s.base_content@ == base@,
        s.local_content@ == local@,
        s.remote_content@ == remote@,
        s.language@ == match extension_of(args.merged@) {
            Some(e) => language_of_ext(lower_of(e)),
            None => language_of_ext(Seq::<char>::empty()),
        },
        match ancestor_of(base@, merged@) {
            Some(a) => merge_outcome(
                s.hunks@,
                s.result_content@,
                a,
                local@,
                remote@,
                line_script_of(a, local@),
                line_script_of(a, remote@),
            ),
            None => s.hunks@.len() == 0 && s.result_content@ == local@,
        },
{
    let language = detect_language(args.merged.as_str());
    let (hunks, result_content) = if base.unicode_len() > 0 {
        three_way_merge(base.as_str(), local.as_str(), remote.as_str())
    } else if parse_conflict_markers(merged).is_some() {
        three_way_merge(merged, local.as_str(), remote.as_str())
    } else {
        let none: Vec<MergeHunk> = Vec::new();
        (none, local.clone())
    };
    MergeSession {
        base_path: args.base.clone(),
        local_path: args.local.clone(),
        remote_path: args.remote.clone(),
        merged_path: args.merged.clone(),
        base_content: base,
        local_content: local,
        remote_content: remote,
        result_content,
        hunks,
        language,
    }
}

} // verus!
