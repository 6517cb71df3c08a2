//! Three-way line merge with hunk bookkeeping, interactive resolution and a
//! syntax-aware pass that settles conflicts touching disjoint declarations.

pub mod hunk;
pub mod text;
pub mod three_way;
pub mod resolver;
pub mod structural;
pub mod detect;
pub mod markers;
pub mod cli;
pub mod session;

pub use cli::CliArgs;
pub use detect::{detect_language, language_for_extension};
pub use hunk::{HunkSource, HunkStatus, LineRange, MergeHunk, MergeSession};
pub use markers::parse_conflict_markers;
pub use resolver::{auto_resolve_non_conflicts, resolve_hunk};
pub use session::open_session;
pub use structural::structural_auto_resolve;
pub use three_way::{rebuild_result, three_way_merge};
