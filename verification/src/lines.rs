//! The line model of the normalizer: splitting a text into lines on `'\n'`,
//! rejoining them, and whitespace trimming.

use vstd::prelude::*;

use crate::chars::is_ws_char;

verus! {

/// The lines of a text: a full split on `'\n'`. A text with `n` newline
/// characters has exactly `n + 1` lines; the empty text has one empty line.
/// A carriage return before a newline stays on its line: it is whitespace to
/// trimming and to every classification downstream, so only the raw bytes of
/// kept lines can differ from a split that strips it.
pub open spec fn lines_of(t: Seq<char>) -> Seq<Seq<char>>
    decreases t.len(),
{
    if t.len() == 0 {
        seq![Seq::<char>::empty()]
    } else if t.last() == '\n' {
        lines_of(t.drop_last()).push(Seq::<char>::empty())
    } else {
        let ls = lines_of(t.drop_last());
        ls.update(ls.len() - 1, ls.last().push(t.last()))
    }
}

/// A text with no newline character is a single line.
pub proof fn lemma_lines_of_single(t: Seq<char>)
    requires
        forall|i: int| 0 <= i < t.len() ==> t[i] != '\n',
    ensures
        lines_of(t) == seq![t],
    decreases t.len(),
{
    if t.len() > 0 {
        assert(forall|i: int| 0 <= i < t.drop_last().len() ==> t.drop_last()[i] != '\n');
        lemma_lines_of_single(t.drop_last());
        assert(t.drop_last().push(t.last()) =~= t);
    }
    assert(lines_of(t) =~~= seq![t]);
}

/// Rejoin lines with a single `'\n'` between consecutive lines.
pub open spec fn join_nl(ls: Seq<Seq<char>>) -> Seq<char>
    decreases ls.len(),
{
    if ls.len() == 0 {
        Seq::<char>::empty()
    } else if ls.len() == 1 {
        ls[0]
    } else {
        join_nl(ls.drop_last()) + seq!['\n'] + ls.last()
    }
}

/// The views of a vector of line buffers.
pub open spec fn line_views(ls: Seq<Vec<char>>) -> Seq<Seq<char>> {
    ls.map_values(|l: Vec<char>| l@)
}

/// Split a character buffer into its lines.
pub fn split_lines(v: &Vec<char>) -> (out: Vec<Vec<char>>)
    ensures
        line_views(out@) == lines_of(v@),
{
    let mut out: Vec<Vec<char>> = Vec::new();
    let mut cur: Vec<char> = Vec::new();
    let n = v.len();
    for i in 0..n
        invariant
            n == v.len(),
            line_views(out@).push(cur@) =~= lines_of(v@.take(i as int)),
    {
        let c = v[i];
        assert(v@.take(i + 1).drop_last() =~= v@.take(i as int));
        assert(v@.take(i + 1).last() == v@[i as int]);
        if c == '\n' {
            out.push(cur);
            cur = Vec::new();
            assert(line_views(out@).push(cur@) =~= lines_of(v@.take(i + 1)));
        } else {
            cur.push(c);
            assert(line_views(out@).push(cur@) =~= lines_of(v@.take(i + 1)));
        }
    }
    assert(v@.take(n as int) =~= v@);
    out.push(cur);
    assert(line_views(out@) =~= lines_of(v@));
    out
}

/// Join line buffers with `'\n'`.
pub fn join_lines(ls: &Vec<Vec<char>>) -> (out: Vec<char>)
    ensures
        out@ == join_nl(line_views(ls@)),
{
    let mut out: Vec<char> = Vec::new();
    let n = ls.len();
    for i in 0..n
        invariant
            n == ls.len(),
            out@ =~= join_nl(line_views(ls@).take(i as int)),
    {
        if i > 0 {
            out.push('\n');
        }
        let line = &ls[i];
        let m = line.len();
        let ghost base = out@;
        for j in 0..m
            invariant
                m == line.len(),
                out@ =~= base + line@.take(j as int),
        {
            out.push(line[j]);
            assert(line@.take(j + 1) =~= line@.take(j as int).push(line@[j as int]));
        }
        assert(line@.take(m as int) =~= line@);
        assert(line_views(ls@).take(i + 1).drop_last() =~= line_views(ls@).take(i as int));
        assert(out@ =~= join_nl(line_views(ls@).take(i + 1)));
    }
    assert(line_views(ls@).take(n as int) =~= line_views(ls@));
    out
}

/// Strip leading whitespace.
pub open spec fn trim_start_rec(t: Seq<char>) -> Seq<char>
    decreases t.len(),
{
    if t.len() > 0 && is_ws_char(t[0]) {
        trim_start_rec(t.skip(1))
    } else {
        t
    }
}

/// Strip trailing whitespace.
pub open spec fn trim_end_rec(t: Seq<char>) -> Seq<char>
    decreases t.len(),
{
    if t.len() > 0 && is_ws_char(t.last()) {
        trim_end_rec(t.drop_last())
    } else {
        t
    }
}

/// Strip leading and trailing whitespace, as `str::trim` does.
pub open spec fn trim_spec(t: Seq<char>) -> Seq<char> {
    trim_end_rec(trim_start_rec(t))
}

pub proof fn lemma_trim_start_at(t: Seq<char>, lo: int)
    requires
        0 <= lo <= t.len(),
        forall|k: int| 0 <= k < lo ==> is_ws_char(t[k]),
        lo < t.len() ==> !is_ws_char(t[lo]),
    ensures
        trim_start_rec(t) == t.skip(lo),
    decreases lo,
{
    if lo == 0 {
        assert(t.skip(0) =~= t);
    } else {
        lemma_trim_start_at(t.skip(1), lo - 1);
        assert(t.skip(1).skip(lo - 1) =~= t.skip(lo));
    }
}

pub proof fn lemma_trim_end_at(t: Seq<char>, hi: int)
    requires
        0 <= hi <= t.len(),
        forall|k: int| hi <= k < t.len() ==> is_ws_char(t[k]),
        hi > 0 ==> !is_ws_char(t[hi - 1]),
    ensures
        trim_end_rec(t) == t.take(hi),
    decreases t.len(),
{
    if hi == t.len() {
        assert(t.take(hi) =~= t);
        if t.len() > 0 {
            assert(!is_ws_char(t.last()));
        }
    } else {
        assert(is_ws_char(t.last()));
        lemma_trim_end_at(t.drop_last(), hi);
        assert(t.drop_last().take(hi) =~= t.take(hi));
    }
}

/// A text that is empty or bordered by non-whitespace is its own trim.
pub proof fn lemma_trim_of_trimmed(t: Seq<char>)
    requires
        t.len() == 0 || (!is_ws_char(t[0]) && !is_ws_char(t.last())),
    ensures
        trim_spec(t) == t,
{
    lemma_trim_start_at(t, 0);
    lemma_trim_end_at(t, t.len() as int);
}

/// The trim of any text is empty or bordered by non-whitespace.
pub proof fn lemma_trim_borders(t: Seq<char>)
    ensures
        trim_spec(t).len() == 0 || (!is_ws_char(trim_spec(t)[0]) && !is_ws_char(
            trim_spec(t).last(),
        )),
        trim_spec(trim_spec(t)) == trim_spec(t),
    decreases t.len(),
{
    lemma_trim_start_borders(t);
    lemma_trim_end_borders(trim_start_rec(t));
    if trim_spec(t).len() > 0 {
        lemma_trim_end_keeps_first(trim_start_rec(t));
    }
    lemma_trim_of_trimmed(trim_spec(t));
}

proof fn lemma_trim_start_borders(t: Seq<char>)
    ensures
        trim_start_rec(t).len() > 0 ==> !is_ws_char(trim_start_rec(t)[0]),
    decreases t.len(),
{
    if t.len() > 0 && is_ws_char(t[0]) {
        lemma_trim_start_borders(t.skip(1));
    }
}

proof fn lemma_trim_end_borders(t: Seq<char>)
    ensures
        trim_end_rec(t).len() > 0 ==> !is_ws_char(trim_end_rec(t).last()),
    decreases t.len(),
{
    if t.len() > 0 && is_ws_char(t.last()) {
        lemma_trim_end_borders(t.drop_last());
    }
}

/// Trimming the end keeps the first character when anything remains.
proof fn lemma_trim_end_keeps_first(t: Seq<char>)
    ensures
        trim_end_rec(t).len() > 0 ==> trim_end_rec(t)[0] == t[0],
    decreases t.len(),
{
    if t.len() > 0 && is_ws_char(t.last()) {
        lemma_trim_end_keeps_first(t.drop_last());
    }
}

/// Trim a character buffer.
pub fn trim_chars(v: &Vec<char>) -> (out: Vec<char>)
    ensures
        out@ == trim_spec(v@),
{
    let n = v.len();
    let mut lo: usize = 0;
    while lo < n && crate::chars::ws_char(v[lo])
        invariant
            n == v.len(),
            0 <= lo <= n,
            forall|k: int| 0 <= k < lo ==> is_ws_char(v@[k]),
        decreases n - lo,
    {
        lo = lo + 1;
    }
    proof {
        lemma_trim_start_at(v@, lo as int);
    }
    let mut hi: usize = n;
    while hi > lo && crate::chars::ws_char(v[hi - 1])
        invariant
            n == v.len(),
            lo <= hi <= n,
            forall|k: int| hi <= k < n ==> is_ws_char(v@[k]),
        decreases hi,
    {
        hi = hi - 1;
    }
    proof {
        if hi == lo {
            lemma_trim_end_at(v@.skip(lo as int), 0);
        } else {
            lemma_trim_end_at(v@.skip(lo as int), hi - lo);
        }
    }
    let mut out: Vec<char> = Vec::new();
    let mut i = lo;
    while i < hi
        invariant
            lo <= i <= hi <= n,
            n == v.len(),
            out@ =~= v@.subrange(lo as int, i as int),
        decreases hi - i,
    {
        out.push(v[i]);
        assert(v@.subrange(lo as int, i + 1) =~= v@.subrange(lo as int, i as int).push(
            v@[i as int],
        ));
        i = i + 1;
    }
    assert(v@.skip(lo as int).take(hi - lo as int) =~= v@.subrange(lo as int, hi as int));
    out
}

} // verus!
