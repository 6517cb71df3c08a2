use vstd::prelude::*;
use crate::hunk::{same_snapshot, HunkSource, HunkStatus, MergeHunk, MergeSession};
use crate::resolver::{apply_resolution, both_lines, both_span_lines, resolved_by, same_inputs};
use crate::text::views;
use vstd::string::StrSliceExecFns;
use vstd::utf8::encode_utf8;
use crate::text::str_is;

verus! {

/// The grammars the structural pass knows.
#[derive(Debug, Clone, Copy, PartialEq, Eq, Structural)]
pub enum Grammar {
    Rust,
    TypeScript,
    JavaScript,
    Python,
    Go,
    Java,
    C,
    Cpp,
}

/// The grammar registered for a language identifier, if any.
pub open spec fn grammar_named(lang: Seq<char>) -> Option<Grammar> {
    if lang == "rust"@ {
        Some(Grammar::Rust)
    } else if lang == "typescript"@ {
        Some(Grammar::TypeScript)
    } else if lang == "javascript"@ {
        Some(Grammar::JavaScript)
    } else if lang == "python"@ {
        Some(Grammar::Python)
    } else if lang == "go"@ {
        Some(Grammar::Go)
    } else if lang == "java"@ {
        Some(Grammar::Java)
    } else if lang == "c"@ {
        Some(Grammar::C)
    } else if lang == "cpp"@ {
        Some(Grammar::Cpp)
    } else {
        None
    }
}

/// Looks up the grammar for a language identifier.
pub fn get_language(lang: &str) -> (r: Option<Grammar>)
    ensures
        r == grammar_named(lang@),
{
    if str_is(lang, "rust") {
        Some(Grammar::Rust)
    } else if str_is(lang, "typescript") {
        Some(Grammar::TypeScript)
    } else if str_is(lang, "javascript") {
        Some(Grammar::JavaScript)
    } else if str_is(lang, "python") {
        Some(Grammar::Python)
    } else if str_is(lang, "go") {
        Some(Grammar::Go)
    } else if str_is(lang, "java") {
        Some(Grammar::Java)
    } else if str_is(lang, "c") {
        Some(Grammar::C)
    } else if str_is(lang, "cpp") {
        Some(Grammar::Cpp)
    } else {
        None
    }
}

/// The byte ranges of the top-level syntax nodes (the immediate children of
/// the root), in order, that tree-sitter finds in `src` with grammar `g`;
/// `None` where it gives no tree.
pub uninterp spec fn top_spans_of(g: Grammar, src: Seq<char>) -> Option<Seq<(usize, usize)>>;

/// Relies on the grammar crates' `LANGUAGE` constants, `tree_sitter::Parser`
/// (`new`, `set_language`, `parse` with no old tree, no timeout and no
/// cancellation flag) and `Node::children`, `start_byte`, `end_byte`: the
/// top-level node spans depend on the grammar and the text alone.
#[verifier::external_body]
fn top_spans(g: Grammar, source: &str) -> (r: Option<Vec<(usize, usize)>>)
    ensures
        match r {
            Some(v) => top_spans_of(g, source@) == Some(v@),
            None => top_spans_of(g, source@) is None,
        },
{
    let language: tree_sitter::Language = match g {
        Grammar::Rust => tree_sitter_rust::LANGUAGE,
        Grammar::TypeScript => tree_sitter_typescript::LANGUAGE_TYPESCRIPT,
        Grammar::JavaScript => tree_sitter_javascript::LANGUAGE,
        Grammar::Python => tree_sitter_python::LANGUAGE,
        Grammar::Go => tree_sitter_go::LANGUAGE,
        Grammar::Java => tree_sitter_java::LANGUAGE,
        Grammar::C => tree_sitter_c::LANGUAGE,
        Grammar::Cpp => tree_sitter_cpp::LANGUAGE,
    }.into();
    let mut parser = tree_sitter::Parser::new();
    parser.set_language(&language).ok()?;
    let tree = parser.parse(source, None)?;
    let mut cursor = tree.walk();
    Some(tree.root_node().children(&mut cursor).map(|n| (n.start_byte(), n.end_byte())).collect())
}

/// Byte offset at which 1-indexed line `line` of the UTF-8 text `b` starts;
/// 0 for lines up to the first, the text's length past its last line.
pub open spec fn line_start(b: Seq<u8>, line: int) -> int
    decreases b.len(),
{
    if line <= 1 || b.len() == 0 {
        0
    } else {
        1 + line_start(b.drop_first(), if b[0] == 10u8 { line - 1 } else { line })
    }
}

/// Byte offset just past the newline that ends 1-indexed line `line` of `b`;
/// the text's length where that line has no newline.
pub open spec fn line_end(b: Seq<u8>, line: int) -> int
    decreases b.len(),
{
    if b.len() == 0 {
        0
    } else if b[0] == 10u8 && line == 1 {
        1
    } else {
        1 + line_end(b.drop_first(), if b[0] == 10u8 { line - 1 } else { line })
    }
}

proof fn lemma_line_start_bound(b: Seq<u8>, line: int)
    ensures
        0 <= line_start(b, line) <= b.len(),
    decreases b.len(),
{
    if !(line <= 1 || b.len() == 0) {
        lemma_line_start_bound(b.drop_first(), if b[0] == 10u8 { line - 1 } else { line });
    }
}

proof fn lemma_line_end_bound(b: Seq<u8>, line: int)
    ensures
        0 <= line_end(b, line) <= b.len(),
    decreases b.len(),
{
    if b.len() > 0 && !(b[0] == 10u8 && line == 1) {
        lemma_line_end_bound(b.drop_first(), if b[0] == 10u8 { line - 1 } else { line });
    }
}

/// Byte offset of the start of 1-indexed line `line` in the text whose
/// UTF-8 bytes are `b`.
pub fn line_to_byte(b: &Vec<u8>, line: usize) -> (r: usize)
    ensures
        r == line_start(b@, line as int),
{
    let mut off: usize = 0;
    let mut rest: usize = line;
    proof {
        assert(b@.subrange(0, b@.len() as int) =~= b@);
    }
    while off < b.len() && rest > 1
        invariant
            off <= b@.len(),
            line_start(b@.subrange(off as int, b@.len() as int), rest as int) + off == line_start(b@, line as int),
        decreases b@.len() - off,
    {
        proof {
            assert(b@.subrange(off as int, b@.len() as int).drop_first() =~= b@.subrange(off + 1, b@.len() as int));
        }
        if b[off] == 10u8 {
            rest -= 1;
        }
        off += 1;
    }
    off
}

/// Byte offset just past the end of 1-indexed line `line` (its newline
/// included) in the text whose UTF-8 bytes are `b`.
pub fn end_of_line_byte(b: &Vec<u8>, line: usize) -> (r: usize)
    ensures
        r == line_end(b@, line as int),
{
    let mut off: usize = 0;
    let mut rest: usize = line;
    proof {
        assert(b@.subrange(0, b@.len() as int) =~= b@);
    }
    while off < b.len()
        invariant
            off <= b@.len(),
            line_end(b@.subrange(off as int, b@.len() as int), rest as int) + off == line_end(b@, line as int),
        decreases b@.len() - off,
    {
        proof {
            assert(b@.subrange(off as int, b@.len() as int).drop_first() =~= b@.subrange(off + 1, b@.len() as int));
        }
        if b[off] == 10u8 {
            if rest == 1 {
                return off + 1;
            }
            if rest > 0 {
                rest -= 1;
            } else {
                proof {
                    lemma_never_one(b@.subrange(off + 1, b@.len() as int), -1);
                    lemma_never_one(b@.subrange(off + 1, b@.len() as int), 0);
                }
            }
        }
        off += 1;
    }
    proof {
        assert(b@.subrange(off as int, b@.len() as int) =~= Seq::<u8>::empty());
    }
    off
}

/// Below line 1 no newline ever ends the line asked for, so the end is the
/// text's length whatever the line number.
proof fn lemma_never_one(b: Seq<u8>, line: int)
    requires
        line <= 0,
    ensures
        line_end(b, line) == b.len(),
        line_end(b, line) == line_end(b, 0),
    decreases b.len(),
{
    if b.len() > 0 {
        lemma_never_one(b.drop_first(), if b[0] == 10u8 { line - 1 } else { line });
        lemma_never_one(b.drop_first(), if b[0] == 10u8 { -1 } else { 0 });
    }
}

/// The top-level nodes (as byte ranges, in order) that meet the byte range
/// `start..end`: nodes ending at or before `start` are passed over, and the
/// walk stops at the first node starting at or after `end`.
pub open spec fn spanning(nodes: Seq<(usize, usize)>, start: usize, end: usize) -> Seq<(usize, usize)>
    decreases nodes.len(),
{
    if nodes.len() == 0 {
        Seq::empty()
    } else if nodes[0].1 <= start {
        spanning(nodes.drop_first(), start, end)
    } else if nodes[0].0 >= end {
        Seq::empty()
    } else {
        seq![nodes[0]] + spanning(nodes.drop_first(), start, end)
    }
}

/// Finds the top-level nodes whose byte ranges meet `start..end`.
pub fn find_spanning_nodes(nodes: &Vec<(usize, usize)>, start: usize, end: usize) -> (r: Vec<(usize, usize)>)
    ensures
        r@ == spanning(nodes@, start, end),
{
    let mut out: Vec<(usize, usize)> = Vec::new();
    let mut i: usize = 0;
    proof {
        assert(nodes@.subrange(0, nodes@.len() as int) =~= nodes@);
        assert(out@ + nodes@ =~= nodes@);
    }
    while i < nodes.len()
        invariant
            i <= nodes@.len(),
            spanning(nodes@, start, end) == out@ + spanning(nodes@.subrange(i as int, nodes@.len() as int), start, end),
        decreases nodes@.len() - i,
    {
        let ghost rest = nodes@.subrange(i as int, nodes@.len() as int);
        proof {
            assert(rest.drop_first() =~= nodes@.subrange(i + 1, nodes@.len() as int));
        }
        let n = nodes[i];
        if n.1 <= start {
            i += 1;
        } else if n.0 >= end {
            proof {
                assert(out@ + Seq::<(usize, usize)>::empty() =~= out@);
            }
            return out;
        } else {
            proof {
                assert(out@.push(n) + spanning(rest.drop_first(), start, end) =~= out@ + (seq![n] + spanning(rest.drop_first(), start, end)));
            }
            out.push(n);
            i += 1;
        }
    }
    proof {
        assert(out@ + Seq::<(usize, usize)>::empty() =~= out@);
    }
    out
}

/// No node of `a` overlaps a node of `b` (half-open byte ranges).
pub open spec fn disjoint_nodes(a: Seq<(usize, usize)>, b: Seq<(usize, usize)>) -> bool {
    forall|i: int, j: int| 0 <= i < a.len() && 0 <= j < b.len() ==> !(a[i].0 < b[j].1 && b[j].0 < a[i].1)
}

fn nodes_disjoint(a: &Vec<(usize, usize)>, b: &Vec<(usize, usize)>) -> (r: bool)
    ensures
        r == disjoint_nodes(a@, b@),
{
    let mut i: usize = 0;
    while i < a.len()
        invariant
            i <= a@.len(),
            forall|x: int, y: int| 0 <= x < i && 0 <= y < b@.len() ==> !(a@[x].0 < b@[y].1 && b@[y].0 < a@[x].1),
        decreases a@.len() - i,
    {
        let mut j: usize = 0;
        while j < b.len()
            invariant
                i < a@.len(),
                j <= b@.len(),
                forall|x: int, y: int| 0 <= x < i && 0 <= y < b@.len() ==> !(a@[x].0 < b@[y].1 && b@[y].0 < a@[x].1),
                forall|y: int| 0 <= y < j ==> !(a@[i as int].0 < b@[y].1 && b@[y].0 < a@[i as int].1),
            decreases b@.len() - j,
        {
            if a[i].0 < b[j].1 && b[j].0 < a[i].1 {
                return false;
            }
            j += 1;
        }
        i += 1;
    }
    true
}

/// What the structural pass reads of the three texts: each text's UTF-8
/// bytes and the byte ranges of its top-level syntax nodes, in order.
pub struct SyntaxInputs {
    pub base: Vec<u8>,
    pub local: Vec<u8>,
    pub remote: Vec<u8>,
    pub base_nodes: Vec<(usize, usize)>,
    pub local_nodes: Vec<(usize, usize)>,
    pub remote_nodes: Vec<(usize, usize)>,
}

/// The mathematical content of `SyntaxInputs`.
pub struct SyntaxView {
    pub base: Seq<u8>,
    pub local: Seq<u8>,
    pub remote: Seq<u8>,
    pub base_nodes: Seq<(usize, usize)>,
    pub local_nodes: Seq<(usize, usize)>,
    pub remote_nodes: Seq<(usize, usize)>,
}

impl View for SyntaxInputs {
    type V = SyntaxView;

    open spec fn view(&self) -> SyntaxView {
        SyntaxView {
            base: self.base@,
            local: self.local@,
            remote: self.remote@,
            base_nodes: self.base_nodes@,
            local_nodes: self.local_nodes@,
            remote_nodes: self.remote_nodes@,
        }
    }
}

/// What the structural pass reads of a session's three texts under grammar
/// `g`: their UTF-8 bytes and top-level node spans; `None` where a text gives
/// no tree.
pub open spec fn parsed_inputs(g: Grammar, base: Seq<char>, local: Seq<char>, remote: Seq<char>) -> Option<SyntaxView> {
    match (top_spans_of(g, base), top_spans_of(g, local), top_spans_of(g, remote)) {
        (Some(bn), Some(ln), Some(rn)) => Some(
            SyntaxView {
                base: encode_utf8(base),
                local: encode_utf8(local),
                remote: encode_utf8(remote),
                base_nodes: bn,
                local_nodes: ln,
                remote_nodes: rn,
            },
        ),
        _ => None,
    }
}

/// The top-level nodes that the byte range of lines `start..=end` of a text
/// meets.
pub open spec fn nodes_of_lines(bytes: Seq<u8>, nodes: Seq<(usize, usize)>, start: usize, end: usize) -> Seq<(usize, usize)> {
    spanning(nodes, line_start(bytes, start as int) as usize, line_end(bytes, end as int) as usize)
}

/// Hunk `h` is an unresolved conflict whose base span meets at least two
/// top-level nodes, while no node its local edit meets overlaps a node its
/// remote edit meets.
pub open spec fn structurally_safe(h: MergeHunk, p: SyntaxView) -> bool {
    let bn = nodes_of_lines(p.base, p.base_nodes, h.base_range.start, h.base_range.end);
    let ln = nodes_of_lines(p.local, p.local_nodes, h.local_range.start, h.local_range.end);
    let rn = nodes_of_lines(p.remote, p.remote_nodes, h.remote_range.start, h.remote_range.end);
    &&& h.source == HunkSource::Conflict
    &&& h.status == HunkStatus::Unresolved
    &&& bn.len() >= 2
    &&& disjoint_nodes(ln, rn)
}

/// Decides whether an unresolved conflict's local and remote edits touch
/// disjoint top-level syntax nodes while its base span meets two or more.
pub fn can_structural_resolve(hunk: &MergeHunk, p: &SyntaxInputs) -> (r: bool)
    ensures
        r == structurally_safe(*hunk, p@),
{
    if hunk.source != HunkSource::Conflict || hunk.status != HunkStatus::Unresolved {
        return false;
    }
    let base_start = line_to_byte(&p.base, hunk.base_range.start);
    let base_end = end_of_line_byte(&p.base, hunk.base_range.end);
    let bn = find_spanning_nodes(&p.base_nodes, base_start, base_end);
    if bn.len() < 2 {
        return false;
    }
    let local_start = line_to_byte(&p.local, hunk.local_range.start);
    let local_end = end_of_line_byte(&p.local, hunk.local_range.end);
    let remote_start = line_to_byte(&p.remote, hunk.remote_range.start);
    let remote_end = end_of_line_byte(&p.remote, hunk.remote_range.end);
    let ln = find_spanning_nodes(&p.local_nodes, local_start, local_end);
    let rn = find_spanning_nodes(&p.remote_nodes, remote_start, remote_end);
    nodes_disjoint(&ln, &rn)
}

/// How many of the hunks the structural pass settles.
pub open spec fn safe_count(hs: Seq<MergeHunk>, p: SyntaxView) -> nat
    decreases hs.len(),
{
    if hs.len() == 0 {
        0
    } else {
        safe_count(hs.drop_last(), p) + if structurally_safe(hs.last(), p) { 1nat } else { 0nat }
    }
}

/// The status the structural pass leaves a hunk with.
pub open spec fn status_after(h: MergeHunk, p: SyntaxView) -> HunkStatus {
    if structurally_safe(h, p) { HunkStatus::AutoResolved } else { h.status }
}

/// One step of the structural pass, at hunk `i`: a structurally safe hunk is
/// resolved to both sides' content with status `AutoResolved`; otherwise the
/// session stays as it is.
pub open spec fn structural_step(a: MergeSession, b: MergeSession, i: int, p: SyntaxView) -> bool {
    let h = a.hunks@[i];
    if structurally_safe(h, p) {
        resolved_by(a, b, i, both_lines(a, h), HunkStatus::AutoResolved)
    } else {
        b == a
    }
}

/// `steps` are the sessions the structural pass goes through, one step per
/// hunk in order, from `steps[0]` to its last entry.
pub open spec fn structural_run(steps: Seq<MergeSession>, p: SyntaxView) -> bool {
    &&& steps.len() == steps[0].hunks@.len() + 1
    &&& forall|i: int| 0 <= i < steps.len() - 1 ==> #[trigger] structural_step(steps[i], steps[i + 1], i, p)
}

/// Some run of the structural pass over `p` leads from `old` to `new`.
pub open spec fn structural_reaches(old: MergeSession, new: MergeSession, p: SyntaxView) -> bool {
    exists|steps: Seq<MergeSession>| steps[0] == old && steps.last() == new && #[trigger] structural_run(steps, p)
}

/// Runs the structural pass over the session's hunks in order, given the
/// parsed texts: each structurally safe conflict is resolved to both sides'
/// content (as accepting both does) with status `AutoResolved`, and later
/// hunks move in the result text at once. Returns how many were resolved.
pub fn structural_resolve_with(session: &mut MergeSession, p: &SyntaxInputs) -> (r: usize)
    ensures
        same_inputs(*old(session), *final(session)),
        final(session).hunks@.len() == old(session).hunks@.len(),
        forall|i: int| 0 <= i < old(session).hunks@.len() ==> {
            &&& same_snapshot(#[trigger] final(session).hunks@[i], old(session).hunks@[i])
            &&& final(session).hunks@[i].status == status_after(old(session).hunks@[i], p@)
        },
        r == safe_count(old(session).hunks@, p@),
        structural_reaches(*old(session), *final(session), p@),
{
    let ghost orig = session.hunks@;
    let ghost mut steps: Seq<MergeSession> = seq![*session];
    let mut count: usize = 0;
    let mut i: usize = 0;
    while i < session.hunks.len()
        invariant
            i <= session.hunks@.len(),
            session.hunks@.len() == orig.len(),
            orig == old(session).hunks@,
            same_inputs(*old(session), *session),
            count == safe_count(orig.subrange(0, i as int), p@),
            count <= i,
            forall|j: int| 0 <= j < orig.len() ==> same_snapshot(#[trigger] session.hunks@[j], orig[j]),
            forall|j: int| i <= j < orig.len() ==> (#[trigger] session.hunks@[j]).status == orig[j].status,
            forall|j: int| 0 <= j < i ==> (#[trigger] session.hunks@[j]).status == status_after(orig[j], p@),
            steps.len() == i + 1,
            steps[0] == *old(session),
            steps.last() == *session,
            forall|j: int| 0 <= j < i ==> #[trigger] structural_step(steps[j], steps[j + 1], j, p@),
        decreases orig.len() - i,
    {
        proof {
            assert(orig.subrange(0, i + 1).drop_last() =~= orig.subrange(0, i as int));
            assert(same_snapshot(session.hunks@[i as int], orig[i as int]));
        }
        let safe = can_structural_resolve(&session.hunks[i], p);
        proof {
            assert(structurally_safe(session.hunks@[i as int], p@) == structurally_safe(orig[i as int], p@));
        }
        if safe {
            let content = both_span_lines(session, i);
            let ghost before = *session;
            apply_resolution(session, i, &content, HunkStatus::AutoResolved);
            proof {
                assert(resolved_by(before, *session, i as int, views(content@), HunkStatus::AutoResolved));
                assert forall|j: int| 0 <= j < orig.len() implies same_snapshot(#[trigger] session.hunks@[j], orig[j]) by {
                    assert(same_snapshot(session.hunks@[j], before.hunks@[j]));
                }
            }
            count += 1;
        }
        proof {
            let prev = steps;
            steps = steps.push(*session);
            assert(steps[i as int] == prev.last());
            assert forall|j: int| 0 <= j < i + 1 implies #[trigger] structural_step(steps[j], steps[j + 1], j, p@) by {
                if j < i {
                    assert(steps[j] == prev[j]);
                    assert(steps[j + 1] == prev[j + 1]);
                }
            }
        }
        i += 1;
    }
    proof {
        assert(orig.subrange(0, i as int) =~= orig);
        assert(structural_run(steps, p@));
    }
    count
}

/// The structural pass on a whole session: with no grammar for its language,
/// or a text that gives no syntax tree, nothing is resolved and the session
/// stays as it is; otherwise `count` hunks are resolved and `new` is reached
/// from `old` by the pass's steps over the parsed texts.
pub open spec fn structural_outcome(old: MergeSession, new: MergeSession, count: int) -> bool {
    match grammar_named(old.language@) {
        None => count == 0 && new == old,
        Some(g) => match parsed_inputs(g, old.base_content@, old.local_content@, old.remote_content@) {
            None => count == 0 && new == old,
            Some(p) => count == safe_count(old.hunks@, p) && structural_reaches(old, new, p),
        },
    }
}

/// Parses the three texts with the grammar named by the session's language
/// and runs the structural pass over them, as `structural_resolve_with`
/// does. Without a grammar for the language, or when a text gives no syntax
/// tree, it returns 0 and the session stays as it is.
pub fn structural_auto_resolve(session: &mut MergeSession) -> (r: usize)
    ensures
        structural_outcome(*old(session), *final(session), r as int),
        same_inputs(*old(session), *final(session)),
        final(session).hunks@.len() == old(session).hunks@.len(),
        r <= old(session).hunks@.len(),
        forall|i: int| 0 <= i < old(session).hunks@.len() ==> {
            let h = old(session).hunks@[i];
            &&& same_snapshot(#[trigger] final(session).hunks@[i], h)
            &&& (final(session).hunks@[i].status == h.status || (h.source == HunkSource::Conflict && h.status
                == HunkStatus::Unresolved && final(session).hunks@[i].status == HunkStatus::AutoResolved))
        },
{
    let grammar = match get_language(session.language.as_str()) {
        Some(g) => g,
        None => {
            return 0;
        },
    };
    let base_nodes = match top_spans(grammar, session.base_content.as_str()) {
        Some(v) => v,
        None => {
            return 0;
        },
    };
    let local_nodes = match top_spans(grammar, session.local_content.as_str()) {
        Some(v) => v,
        None => {
            return 0;
        },
    };
    let remote_nodes = match top_spans(grammar, session.remote_content.as_str()) {
        Some(v) => v,
        None => {
            return 0;
        },
    };
    let p = SyntaxInputs {
        base: session.base_content.as_str().as_bytes_vec(),
        local: session.local_content.as_str().as_bytes_vec(),
        remote: session.remote_content.as_str().as_bytes_vec(),
        base_nodes,
        local_nodes,
        remote_nodes,
    };
    proof {
        assert(p@ =~= SyntaxView {
            base: encode_utf8(session.base_content@),
            local: encode_utf8(session.local_content@),
            remote: encode_utf8(session.remote_content@),
            base_nodes: base_nodes@,
            local_nodes: local_nodes@,
            remote_nodes: remote_nodes@,
        });
        assert(parsed_inputs(grammar, session.base_content@, session.local_content@, session.remote_content@) == Some(p@));
    }
    let r = structural_resolve_with(session, &p);
    proof {
        lemma_safe_count_bound(old(session).hunks@, p@);
        assert(grammar_named(old(session).language@) == Some(grammar));
        assert(r == safe_count(old(session).hunks@, p@));
        assert(structural_outcome(*old(session), *session, r as int));
    }
    r
}

proof fn lemma_safe_count_bound(hs: Seq<MergeHunk>, p: SyntaxView)
    ensures
        safe_count(hs, p) <= hs.len(),
    decreases hs.len(),
{
    if hs.len() > 0 {
        lemma_safe_count_bound(hs.drop_last(), p);
    }
}

} // verus!
