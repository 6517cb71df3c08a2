use vstd::prelude::*;

verus! {

/// The pieces of `s` between `'\n'` characters; always at least one piece.
pub open spec fn nl_pieces(s: Seq<char>) -> Seq<Seq<char>>
    decreases s.len(),
{
    if s.len() == 0 {
        seq![Seq::<char>::empty()]
    } else {
        let p = nl_pieces(s.drop_last());
        if s.last() == '\n' {
            p.push(Seq::<char>::empty())
        } else {
            p.update(p.len() - 1, p.last().push(s.last()))
        }
    }
}

/// A line with one trailing carriage return removed.
pub open spec fn strip_cr(l: Seq<char>) -> Seq<char> {
    if l.len() > 0 && l.last() == '\r' {
        l.drop_last()
    } else {
        l
    }
}

/// The lines of a text: split at `"\n"` or `"\r\n"`, the final line ending
/// being optional, so an empty text has no lines.
pub open spec fn lines_of(s: Seq<char>) -> Seq<Seq<char>> {
    let p = nl_pieces(s);
    let n: int = if s.len() == 0 || s.last() == '\n' {
        p.len() - 1
    } else {
        p.len() as int
    };
    Seq::new(n as nat, |i: int| if i + 1 < p.len() { strip_cr(p[i]) } else { p[i] })
}

/// Lines joined with a `'\n'` between each two.
pub open spec fn join_nl(ls: Seq<Seq<char>>) -> Seq<char>
    decreases ls.len(),
{
    if ls.len() == 0 {
        Seq::<char>::empty()
    } else if ls.len() == 1 {
        ls[0]
    } else {
        join_nl(ls.drop_last()) + seq!['\n'] + ls.last()
    }
}

/// The views of a sequence of strings.
pub open spec fn views(v: Seq<String>) -> Seq<Seq<char>> {
    v.map_values(|s: String| s@)
}

/// Lines `start..=end` (1-indexed) of `lines`, clamped to its length; empty
/// when `start` is 0 or `end < start`.
pub open spec fn slice_lines(lines: Seq<Seq<char>>, start: int, end: int) -> Seq<Seq<char>> {
    if start == 0 || end < start {
        Seq::<Seq<char>>::empty()
    } else {
        let s = if start - 1 < lines.len() { start - 1 } else { lines.len() as int };
        let e = if end < lines.len() { end } else { lines.len() as int };
        lines.subrange(s, e)
    }
}

/// Relies on `str::lines`: lines split at `"\n"` or `"\r\n"`, the last line
/// ending optional.
#[verifier::external_body]
pub fn split_lines(s: &str) -> (r: Vec<String>)
    ensures
        views(r@) == lines_of(s@),
{
    s.lines().map(|l| l.to_string()).collect()
}

/// Relies on `[String]::join`: the strings with `"\n"` between each two.
#[verifier::external_body]
pub fn join_lines(v: &Vec<String>) -> (r: String)
    ensures
        r@ == join_nl(views(v@)),
{
    v.join("\n")
}

/// Copies lines `start..=end` (1-indexed, clamped) out of `lines` and joins
/// them with newlines.
pub fn slice_join(lines: &Vec<String>, start: usize, end: usize) -> (r: String)
    ensures
        r@ == join_nl(slice_lines(views(lines@), start as int, end as int)),
{
    let mut out: Vec<String> = Vec::new();
    if start == 0 || end < start {
        proof {
            assert(views(out@) =~= slice_lines(views(lines@), start as int, end as int));
        }
        return join_lines(&out);
    }
    let s: usize = if start - 1 < lines.len() { start - 1 } else { lines.len() };
    let e: usize = if end < lines.len() { end } else { lines.len() };
    let mut i: usize = s;
    while i < e
        invariant
            s <= i <= e <= lines.len(),
            views(out@) =~= views(lines@).subrange(s as int, i as int),
        decreases e - i,
    {
        let l = lines[i].clone();
        proof {
            assert(views(out@.push(l)) =~= views(out@).push(l@));
        }
        out.push(l);
        i += 1;
    }
    proof {
        assert(views(out@) =~= slice_lines(views(lines@), start as int, end as int));
    }
    join_lines(&out)
}

/// Lines `start..=end` (1-indexed, clamped) of `content`, joined with
/// newlines.
pub fn get_lines(content: &str, start: usize, end: usize) -> (r: String)
    ensures
        r@ == join_nl(slice_lines(lines_of(content@), start as int, end as int)),
{
    let lines = split_lines(content);
    slice_join(&lines, start, end)
}

/// Appends clones of `src`'s lines to `out`.
pub fn push_all(out: &mut Vec<String>, src: &Vec<String>)
    ensures
        views(final(out)@) == views(old(out)@) + views(src@),
{
    let mut i: usize = 0;
    while i < src.len()
        invariant
            i <= src@.len(),
            views(out@) =~= views(old(out)@) + views(src@).subrange(0, i as int),
        decreases src@.len() - i,
    {
        let l = src[i].clone();
        proof {
            assert(views(out@.push(l)) =~= views(out@).push(l@));
        }
        out.push(l);
        i += 1;
    }
    proof {
        assert(views(src@).subrange(0, i as int) =~= views(src@));
    }
}

/// Appends a clone of `s` as one more line of `out`.
pub fn push_line(out: &mut Vec<String>, s: &str)
    ensures
        views(final(out)@) == views(old(out)@).push(s@),
{
    let l = String::from_str(s);
    proof {
        assert(views(out@.push(l)) =~= views(out@).push(l@));
    }
    out.push(l);
}

/// Compares two strings character by character.
pub fn str_is(s: &str, t: &str) -> (r: bool)
    ensures
        r == (s@ == t@),
{
    let n = s.unicode_len();
    if n != t.unicode_len() {
        return false;
    }
    let mut i: usize = 0;
    while i < n
        invariant
            n == s@.len() == t@.len(),
            i <= n,
            forall|j: int| 0 <= j < i ==> s@[j] == t@[j],
        decreases n - i,
    {
        if s.get_char(i) != t.get_char(i) {
            return false;
        }
        i += 1;
    }
    proof {
        assert(s@ =~= t@);
    }
    true
}

/// Joining the newline-separated pieces of a text gives the text back.
pub proof fn lemma_join_pieces(s: Seq<char>)
    ensures
        join_nl(nl_pieces(s)) == s,
        nl_pieces(s).len() >= 1,
    decreases s.len(),
{
    if s.len() > 0 {
        let t = s.drop_last();
        let c = s.last();
        lemma_join_pieces(t);
        let p = nl_pieces(t);
        if c == '\n' {
            let q = p.push(Seq::<char>::empty());
            assert(q.drop_last() =~= p);
            assert(join_nl(q) == join_nl(p) + seq!['\n'] + Seq::<char>::empty());
            assert(s =~= t + seq!['\n'] + Seq::<char>::empty());
        } else {
            let q = p.update(p.len() - 1, p.last().push(c));
            if p.len() == 1 {
                assert(join_nl(q) == q[0]);
                assert(s =~= t.push(c));
            } else {
                assert(q.drop_last() =~= p.drop_last());
                assert(join_nl(q) == join_nl(p.drop_last()) + seq!['\n'] + p.last().push(c));
                assert(join_nl(p) == join_nl(p.drop_last()) + seq!['\n'] + p.last());
                assert(join_nl(q) =~= join_nl(p).push(c));
                assert(s =~= t.push(c));
            }
        }
    }
}

/// No character of `s` is a carriage return.
pub open spec fn no_cr(s: Seq<char>) -> bool {
    forall|i: int| 0 <= i < s.len() ==> s[i] != '\r'
}

proof fn lemma_pieces_no_cr(s: Seq<char>)
    requires
        no_cr(s),
    ensures
        forall|i: int| 0 <= i < nl_pieces(s).len() ==> no_cr(#[trigger] nl_pieces(s)[i]),
    decreases s.len(),
{
    if s.len() > 0 {
        let t = s.drop_last();
        assert(no_cr(t)) by {
            assert forall|i: int| 0 <= i < t.len() implies t[i] != '\r' by {
                assert(t[i] == s[i]);
            }
        }
        lemma_pieces_no_cr(t);
        lemma_join_pieces(t);
        let p = nl_pieces(t);
        if s.last() != '\n' {
            let q = p.update(p.len() - 1, p.last().push(s.last()));
            assert forall|i: int| 0 <= i < q.len() implies no_cr(#[trigger] q[i]) by {
                if i == p.len() - 1 {
                    assert(no_cr(p[i]));
                    assert(s.last() == s[s.len() - 1]);
                    assert forall|j: int| 0 <= j < q[i].len() implies q[i][j] != '\r' by {
                        if j < p[i].len() {
                            assert(q[i][j] == p[i][j]);
                        }
                    }
                } else {
                    assert(q[i] == p[i]);
                }
            }
        } else {
            let q = p.push(Seq::<char>::empty());
            assert forall|i: int| 0 <= i < q.len() implies no_cr(#[trigger] q[i]) by {
                if i < p.len() {
                    assert(q[i] == p[i]);
                }
            }
        }
    }
}

/// Splitting a text into lines and joining them again gives the text back,
/// when it holds no carriage return and does not end with a newline.
pub proof fn lemma_join_lines_of(s: Seq<char>)
    requires
        no_cr(s),
        s.len() == 0 || s.last() != '\n',
    ensures
        join_nl(lines_of(s)) == s,
{
    lemma_join_pieces(s);
    if s.len() == 0 {
        assert(lines_of(s) =~= Seq::<Seq<char>>::empty());
    } else {
        lemma_pieces_no_cr(s);
        let p = nl_pieces(s);
        assert forall|i: int| 0 <= i < p.len() implies strip_cr(#[trigger] p[i]) == p[i] by {
            assert(no_cr(p[i]));
            if p[i].len() > 0 {
                assert(p[i].last() == p[i][p[i].len() - 1]);
            }
        }
        assert(lines_of(s) =~= p);
    }
}

/// Appends clones of lines `start..=end` (1-indexed, clamped) of `lines` to
/// `out`.
pub fn push_span(out: &mut Vec<String>, lines: &Vec<String>, start: usize, end: usize)
    ensures
        views(final(out)@) == views(old(out)@) + slice_lines(views(lines@), start as int, end as int),
{
    if start == 0 || end < start {
        proof {
            assert(views(out@) =~= views(out@) + slice_lines(views(lines@), start as int, end as int));
        }
        return;
    }
    let s: usize = if start - 1 < lines.len() { start - 1 } else { lines.len() };
    let e: usize = if end < lines.len() { end } else { lines.len() };
    let ghost o = views(out@);
    let mut i: usize = s;
    while i < e
        invariant
            s <= i <= e <= lines.len(),
            views(out@) =~= o + views(lines@).subrange(s as int, i as int),
        decreases e - i,
    {
        let l = lines[i].clone();
        proof {
            assert(views(out@.push(l)) =~= views(out@).push(l@));
        }
        out.push(l);
        i += 1;
    }
}

} // verus!
