use vstd::prelude::*;
use crate::text::{join_lines, join_nl, lines_of, split_lines, views};

verus! {

/// `s` begins with `p`.
pub open spec fn begins_with(s: Seq<char>, p: Seq<char>) -> bool {
    s.len() >= p.len() && s.subrange(0, p.len() as int) == p
}

/// `pat` occurs somewhere in `s`.
pub open spec fn occurs_in(s: Seq<char>, pat: Seq<char>) -> bool {
    exists|i: int| 0 <= i && i + pat.len() <= s.len() && #[trigger] s.subrange(i, i + pat.len()) == pat
}

/// Relies on `str::contains` with a string pattern: whether `pat` occurs in
/// `s`.
#[verifier::external_body]
fn text_contains(s: &str, pat: &str) -> (r: bool)
    ensures
        r == occurs_in(s@, pat@),
{
    s.contains(pat)
}

/// Checks whether `s` begins with `p`.
pub fn starts_with(s: &str, p: &str) -> (r: bool)
    ensures
        r == begins_with(s@, p@),
{
    let n = p.unicode_len();
    if s.unicode_len() < n {
        return false;
    }
    let mut i: usize = 0;
    while i < n
        invariant
            n == p@.len() <= s@.len(),
            i <= n,
            forall|j: int| 0 <= j < i ==> s@[j] == p@[j],
        decreases n - i,
    {
        if s.get_char(i) != p.get_char(i) {
            assert(s@.subrange(0, n as int)[i as int] != p@[i as int]);
            return false;
        }
        i += 1;
    }
    assert(s@.subrange(0, n as int) =~= p@);
    true
}

/// Scanner state over the lines of a text with conflict markers: conflicts
/// found, the local and remote lines of the current block, and whether the
/// scan is in a block's local or remote part.
pub type MarkerState = (Seq<(Seq<char>, Seq<char>)>, Seq<Seq<char>>, Seq<Seq<char>>, bool, bool);

pub open spec fn marker_step(st: MarkerState, line: Seq<char>) -> MarkerState {
    if begins_with(line, "<<<<<<<"@) {
        (st.0, Seq::empty(), Seq::empty(), true, st.4)
    } else if begins_with(line, "======="@) {
        (st.0, st.1, st.2, false, true)
    } else if begins_with(line, ">>>>>>>"@) {
        (st.0.push((join_nl(st.1), join_nl(st.2))), st.1, st.2, st.3, false)
    } else if st.3 {
        (st.0, st.1.push(line), st.2, st.3, st.4)
    } else if st.4 {
        (st.0, st.1, st.2.push(line), st.3, st.4)
    } else {
        st
    }
}

pub open spec fn marker_scan(lines: Seq<Seq<char>>) -> MarkerState
    decreases lines.len(),
{
    if lines.len() == 0 {
        (Seq::empty(), Seq::empty(), Seq::empty(), false, false)
    } else {
        marker_step(marker_scan(lines.drop_last()), lines.last())
    }
}

/// The (local, remote) pairs of the conflict blocks in a text.
pub open spec fn conflicts_in(content: Seq<char>) -> Seq<(Seq<char>, Seq<char>)> {
    marker_scan(lines_of(content)).0
}

pub open spec fn pair_views(v: Seq<(String, String)>) -> Seq<(Seq<char>, Seq<char>)> {
    v.map_values(|p: (String, String)| (p.0@, p.1@))
}

/// Reads the conflict blocks of an already merged text: for each block the
/// local lines and the remote lines, joined. `None` where the text holds no
/// opening marker or no block is closed.
pub fn parse_conflict_markers(content: &str) -> (r: Option<Vec<(String, String)>>)
    ensures
        match r {
            Some(v) => occurs_in(content@, "<<<<<<<"@) && pair_views(v@) == conflicts_in(content@) && v@.len() > 0,
            None => !occurs_in(content@, "<<<<<<<"@) || conflicts_in(content@).len() == 0,
        },
{
    if !text_contains(content, "<<<<<<<") {
        return None;
    }
    let lines = split_lines(content);
    let ghost ls = views(lines@);
    let mut conflicts: Vec<(String, String)> = Vec::new();
    let mut local_lines: Vec<String> = Vec::new();
    let mut remote_lines: Vec<String> = Vec::new();
    let mut in_local = false;
    let mut in_remote = false;
    let mut i: usize = 0;
    while i < lines.len()
        invariant
            i <= lines@.len(),
            ls == views(lines@),
            ls == lines_of(content@),
            marker_scan(ls.subrange(0, i as int)) == (pair_views(conflicts@), views(local_lines@), views(remote_lines@), in_local, in_remote),
        decreases lines@.len() - i,
    {
        proof {
            assert(ls.subrange(0, i + 1).drop_last() =~= ls.subrange(0, i as int));
            assert(ls.subrange(0, i + 1).last() == lines@[i as int]@);
        }
        let line = &lines[i];
        if starts_with(line.as_str(), "<<<<<<<") {
            in_local = true;
            local_lines = Vec::new();
            remote_lines = Vec::new();
            proof {
                assert(views(local_lines@) =~= Seq::<Seq<char>>::empty());
                assert(views(remote_lines@) =~= Seq::<Seq<char>>::empty());
            }
        } else if starts_with(line.as_str(), "=======") {
            in_local = false;
            in_remote = true;
        } else if starts_with(line.as_str(), ">>>>>>>") {
            in_remote = false;
            let pair = (join_lines(&local_lines), join_lines(&remote_lines));
            proof {
                assert(pair_views(conflicts@.push(pair)) =~= pair_views(conflicts@).push((pair.0@, pair.1@)));
            }
            conflicts.push(pair);
        } else if in_local {
            let l = line.clone();
            proof {
                assert(views(local_lines@.push(l)) =~= views(local_lines@).push(l@));
            }
            local_lines.push(l);
        } else if in_remote {
            let l = line.clone();
            proof {
                assert(views(remote_lines@.push(l)) =~= views(remote_lines@).push(l@));
            }
            remote_lines.push(l);
        }
        i += 1;
    }
    proof {
        assert(ls.subrange(0, i as int) =~= ls);
    }
    if conflicts.len() == 0 {
        None
    } else {
        Some(conflicts)
    }
}

} // verus!
