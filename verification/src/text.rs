//! Text normalizer: cleans raw extracted page text of artifacts, in ten
//! ordered steps — header-line removal (optional), table-of-contents leader
//! removal, low-letter-ratio line removal, hyphenated line-break joining,
//! line merging, control-character stripping, whitespace collapsing,
//! ligature folding, punctuation-run collapsing, and a final trim.

use vstd::prelude::*;

use crate::chars::is_digit_char;
use crate::chars::is_punct_char;
use crate::chars::is_terminal_punct;
use crate::chars::is_ws_char;
use crate::chars::punct_char;
use crate::chars::terminal_punct;
use crate::chars::ws_char;
use crate::header::count_alpha;
use crate::header::count_dots;
use crate::header::is_header_line;
use crate::lines::join_lines;
use crate::lines::join_nl;
use crate::lines::line_views;
use crate::lines::lines_of;
use crate::lines::split_lines;
use crate::lines::trim_chars;
use crate::lines::trim_spec;
use crate::strutil::append_chars;
use crate::strutil::chars_of_str;
use crate::strutil::copy_chars;
use crate::strutil::string_from_chars;

verus! {

// ---------- step 1: header-line removal ----------

/// A line survives header removal when its trim is nonempty and it is not
/// classified as a header.
pub open spec fn hdr_keep(line: Seq<char>) -> bool {
    trim_spec(line).len() > 0 && !is_header_line(line)
}

pub open spec fn keep_header_lines(ls: Seq<Seq<char>>) -> Seq<Seq<char>>
    decreases ls.len(),
{
    if ls.len() == 0 {
        Seq::empty()
    } else {
        let r = keep_header_lines(ls.drop_last());
        if hdr_keep(ls.last()) {
            r.push(ls.last())
        } else {
            r
        }
    }
}

/// Drop empty lines and lines classified as section headers.
pub open spec fn strip_header_lines(t: Seq<char>) -> Seq<char> {
    join_nl(keep_header_lines(lines_of(t)))
}

/// Remove section-header lines (and empty lines) from a text. Lines are
/// recognized on `'\n'` boundaries; a carriage return stays on its line and
/// counts as whitespace there.
pub fn remove_section_headers(text: &str) -> (out: String)
    ensures
        out@ == strip_header_lines(text@),
{
    let v = chars_of_str(text);
    let filtered = strip_header_chars(&v);
    string_from_chars(&filtered)
}

pub(crate) fn strip_header_chars(v: &Vec<char>) -> (out: Vec<char>)
    ensures
        out@ == strip_header_lines(v@),
{
    let ls = split_lines(v);
    let n = ls.len();
    let mut kept: Vec<Vec<char>> = Vec::new();
    for i in 0..n
        invariant
            n == ls.len(),
            line_views(ls@) == lines_of(v@),
            line_views(kept@) =~= keep_header_lines(line_views(ls@).take(i as int)),
    {
        let line = &ls[i];
        let t = trim_chars(line);
        let keep = if t.len() == 0 {
            false
        } else {
            !crate::header::header_line_chars(line)
        };
        assert(line_views(ls@).take(i + 1).drop_last() =~= line_views(ls@).take(i as int));
        assert(line_views(ls@).take(i + 1).last() == ls@[i as int]@);
        if keep {
            kept.push(copy_chars(line));
            assert(line_views(kept@) =~= keep_header_lines(line_views(ls@).take(i + 1)));
        } else {
            assert(line_views(kept@) =~= keep_header_lines(line_views(ls@).take(i + 1)));
        }
    }
    assert(line_views(ls@).take(n as int) =~= line_views(ls@));
    join_lines(&kept)
}

// ---------- step 2: table-of-contents leader removal ----------

pub open spec fn toc_class(c: char) -> bool {
    is_ws_char(c) || is_digit_char(c) || c == '.'
}

/// A table-of-contents leader line: nothing but whitespace, digits and dots,
/// at least five dots, and digits only before the first or after the last
/// dot.
pub open spec fn is_toc_leader(line: Seq<char>) -> bool {
    &&& (forall|i: int| 0 <= i < line.len() ==> toc_class(line[i]))
    &&& count_dots(line) >= 5
    &&& (forall|i: int, k: int, j: int|
        0 <= i < k < j < line.len() && line[i] == '.' && line[j] == '.' ==> (line[k] == '.'
            || is_ws_char(line[k])))
}

fn toc_leader_of(line: &Vec<char>) -> (r: bool)
    ensures
        r == is_toc_leader(line@),
{
    let n = line.len();
    let mut dots: usize = 0;
    let mut first_dot: usize = n;
    let mut last_dot: usize = n;
    for i in 0..n
        invariant
            n == line.len(),
            dots <= i,
            dots == count_dots(line@.take(i as int)),
            forall|k: int| 0 <= k < i ==> toc_class(line@[k]),
            (dots == 0) <==> (first_dot == n),
            dots == 0 ==> (forall|k: int| 0 <= k < i ==> line@[k] != '.'),
            dots > 0 ==> first_dot < i && line@[first_dot as int] == '.',
            dots > 0 ==> last_dot < i && line@[last_dot as int] == '.',
            dots >= 2 ==> first_dot < last_dot,
            dots > 0 ==> (forall|k: int| last_dot < k < i ==> line@[k] != '.'),
            dots > 0 ==> (forall|k: int| 0 <= k < first_dot ==> line@[k] != '.'),
    {
        let c = line[i];
        assert(line@.take(i + 1).drop_last() =~= line@.take(i as int));
        assert(line@.take(i + 1).last() == line@[i as int]);
        if !(ws_char(c) || crate::chars::digit_char(c) || c == '.') {
            assert(!is_toc_leader(line@));
            return false;
        }
        if c == '.' {
            if dots == 0 {
                first_dot = i;
            }
            last_dot = i;
            dots = dots + 1;
        }
    }
    assert(line@.take(n as int) =~= line@);
    if dots < 5 {
        return false;
    }
    // between the first and the last dot only dots and whitespace may stand
    let mut k = first_dot + 1;
    while k < last_dot
        invariant
            n == line.len(),
            first_dot < last_dot && last_dot < n,
            first_dot < k && k <= last_dot,
            line@[first_dot as int] == '.',
            line@[last_dot as int] == '.',
            forall|m: int| 0 <= m < n ==> toc_class(line@[m]),
            forall|m: int| first_dot < m < k ==> (line@[m] == '.' || is_ws_char(line@[m])),
        decreases n - k,
    {
        let c = line[k];
        if !(c == '.' || ws_char(c)) {
            assert(is_digit_char(line@[k as int])) by {
                assert(toc_class(line@[k as int]));
            }
            assert(!is_toc_leader(line@)) by {
                assert((first_dot as int) < (k as int) && (k as int) < (last_dot as int) && (
                last_dot as int) < line@.len() && line@[first_dot as int] == '.'
                    && line@[last_dot as int] == '.');
                assert(!(line@[k as int] == '.' || is_ws_char(line@[k as int])));
            }
            return false;
        }
        k = k + 1;
    }
    assert(is_toc_leader(line@)) by {
        assert forall|i: int, k2: int, j: int|
            0 <= i < k2 < j < line@.len() && line@[i] == '.' && line@[j] == '.' implies (
        line@[k2] == '.' || is_ws_char(line@[k2])) by {
            assert(i >= first_dot);
            assert(j <= last_dot);
        }
    }
    true
}

pub open spec fn blank_toc_lines(ls: Seq<Seq<char>>) -> Seq<Seq<char>>
    decreases ls.len(),
{
    if ls.len() == 0 {
        Seq::empty()
    } else {
        blank_toc_lines(ls.drop_last()).push(
            if is_toc_leader(ls.last()) {
                Seq::empty()
            } else {
                ls.last()
            },
        )
    }
}

/// Empty out leader lines, keeping the line structure.
pub open spec fn strip_toc_lines(t: Seq<char>) -> Seq<char> {
    join_nl(blank_toc_lines(lines_of(t)))
}

pub(crate) fn strip_toc_chars(v: &Vec<char>) -> (out: Vec<char>)
    ensures
        out@ == strip_toc_lines(v@),
{
    let ls = split_lines(v);
    let n = ls.len();
    let mut kept: Vec<Vec<char>> = Vec::new();
    for i in 0..n
        invariant
            n == ls.len(),
            line_views(ls@) == lines_of(v@),
            line_views(kept@) =~= blank_toc_lines(line_views(ls@).take(i as int)),
    {
        let line = &ls[i];
        assert(line_views(ls@).take(i + 1).drop_last() =~= line_views(ls@).take(i as int));
        assert(line_views(ls@).take(i + 1).last() == ls@[i as int]@);
        if toc_leader_of(line) {
            kept.push(Vec::new());
        } else {
            kept.push(copy_chars(line));
        }
        assert(line_views(kept@) =~= blank_toc_lines(line_views(ls@).take(i + 1)));
    }
    assert(line_views(ls@).take(n as int) =~= line_views(ls@));
    join_lines(&kept)
}

// ---------- step 3: low-letter-ratio line removal ----------

/// A line is kept when it is empty or at least a quarter of its characters
/// are alphabetic.
pub open spec fn low_alpha_keep(line: Seq<char>) -> bool {
    line.len() == 0 || 4 * count_alpha(line) >= line.len()
}

pub open spec fn keep_alpha_lines(ls: Seq<Seq<char>>) -> Seq<Seq<char>>
    decreases ls.len(),
{
    if ls.len() == 0 {
        Seq::empty()
    } else {
        let r = keep_alpha_lines(ls.drop_last());
        if low_alpha_keep(ls.last()) {
            r.push(ls.last())
        } else {
            r
        }
    }
}

/// Drop lines whose alphabetic characters are fewer than a quarter of their
/// characters; empty lines are kept.
pub open spec fn keep_alpha_step(t: Seq<char>) -> Seq<char> {
    join_nl(keep_alpha_lines(lines_of(t)))
}

fn count_alpha_of(line: &Vec<char>) -> (r: usize)
    ensures
        r == count_alpha(line@),
{
    let n = line.len();
    let mut cnt: usize = 0;
    for i in 0..n
        invariant
            n == line.len(),
            cnt <= i,
            cnt == count_alpha(line@.take(i as int)),
    {
        assert(line@.take(i + 1).drop_last() =~= line@.take(i as int));
        assert(line@.take(i + 1).last() == line@[i as int]);
        if crate::chars::char_is_alphabetic(line[i]) {
            cnt = cnt + 1;
        }
    }
    assert(line@.take(n as int) =~= line@);
    cnt
}

pub(crate) fn keep_alpha_chars(v: &Vec<char>) -> (out: Vec<char>)
    ensures
        out@ == keep_alpha_step(v@),
{
    let ls = split_lines(v);
    let n = ls.len();
    let mut kept: Vec<Vec<char>> = Vec::new();
    for i in 0..n
        invariant
            n == ls.len(),
            line_views(ls@) == lines_of(v@),
            line_views(kept@) =~= keep_alpha_lines(line_views(ls@).take(i as int)),
    {
        let line = &ls[i];
        assert(line_views(ls@).take(i + 1).drop_last() =~= line_views(ls@).take(i as int));
        assert(line_views(ls@).take(i + 1).last() == ls@[i as int]@);
        let letters = count_alpha_of(line);
        let total = line.len();
        // keep if the line is empty or letters make up at least a quarter;
        // compare via quotient and remainder to avoid overflow
        let quarter = total / 4;
        let rem = total % 4;
        let keep = total == 0 || letters > quarter || (letters == quarter && rem == 0);
        proof {
            vstd::arithmetic::div_mod::lemma_fundamental_div_mod(total as int, 4);
            assert(keep == low_alpha_keep(ls@[i as int]@));
        }
        if keep {
            kept.push(copy_chars(line));
        }
        assert(line_views(kept@) =~= keep_alpha_lines(line_views(ls@).take(i + 1)));
    }
    assert(line_views(ls@).take(n as int) =~= line_views(ls@));
    join_lines(&kept)
}

// ---------- step 4: hyphenated line-break joining ----------

/// Delete every "-\n" pair, scanning left to right: a hyphen at a line break
/// is a mid-word split.
pub open spec fn join_hyphen_spec(t: Seq<char>) -> Seq<char>
    decreases t.len(),
{
    if t.len() >= 2 && t[0] == '-' && t[1] == '\n' {
        join_hyphen_spec(t.skip(2))
    } else if t.len() == 0 {
        Seq::empty()
    } else {
        seq![t[0]] + join_hyphen_spec(t.skip(1))
    }
}

pub(crate) fn join_hyphen_chars(v: &Vec<char>) -> (out: Vec<char>)
    ensures
        out@ == join_hyphen_spec(v@),
{
    let n = v.len();
    let mut out: Vec<char> = Vec::new();
    let mut i: usize = 0;
    assert(v@.skip(0) =~= v@);
    while i < n
        invariant
            n == v.len(),
            i <= n,
            join_hyphen_spec(v@) =~= out@ + join_hyphen_spec(v@.skip(i as int)),
        decreases n - i,
    {
        assert(v@.skip(i as int)[0] == v@[i as int]);
        if v[i] == '-' && i + 1 < n && v[i + 1] == '\n' {
            assert(v@.skip(i as int)[1] == v@[i as int + 1]);
            assert(v@.skip(i as int).skip(2) =~= v@.skip(i as int + 2));
            i = i + 2;
        } else {
            assert(v@.skip(i as int).skip(1) =~= v@.skip(i as int + 1));
            out.push(v[i]);
            i = i + 1;
        }
    }
    assert(v@.skip(n as int) =~= Seq::<char>::empty());
    out
}

// ---------- step 5: line merging ----------

/// Merge the trimmed, nonempty lines into a single stream, inserting a space
/// between two lines unless the earlier text already ends in terminal
/// punctuation.
pub open spec fn merge_lines_rec(ls: Seq<Seq<char>>) -> Seq<char>
    decreases ls.len(),
{
    if ls.len() == 0 {
        Seq::empty()
    } else {
        let acc = merge_lines_rec(ls.drop_last());
        let line = trim_spec(ls.last());
        if line.len() == 0 {
            acc
        } else if acc.len() == 0 {
            line
        } else if is_terminal_punct(acc.last()) {
            acc + line
        } else {
            acc + seq![' '] + line
        }
    }
}

pub open spec fn merge_lines_step(t: Seq<char>) -> Seq<char> {
    merge_lines_rec(lines_of(t))
}

pub(crate) fn merge_lines_chars(v: &Vec<char>) -> (out: Vec<char>)
    ensures
        out@ == merge_lines_step(v@),
{
    let ls = split_lines(v);
    let n = ls.len();
    let mut out: Vec<char> = Vec::new();
    for i in 0..n
        invariant
            n == ls.len(),
            line_views(ls@) == lines_of(v@),
            out@ =~= merge_lines_rec(line_views(ls@).take(i as int)),
    {
        assert(line_views(ls@).take(i + 1).drop_last() =~= line_views(ls@).take(i as int));
        assert(line_views(ls@).take(i + 1).last() == ls@[i as int]@);
        let line = trim_chars(&ls[i]);
        if line.len() > 0 {
            if out.len() > 0 && !terminal_punct(out[out.len() - 1]) {
                out.push(' ');
            }
            append_chars(&mut out, &line);
        }
        assert(out@ =~= merge_lines_rec(line_views(ls@).take(i + 1)));
    }
    assert(line_views(ls@).take(n as int) =~= line_views(ls@));
    out
}

// ---------- step 6: control-character stripping ----------

pub open spec fn ctl_keep(c: char) -> bool {
    !crate::chars::is_control_char(c) || c == '\n' || c == '\t'
}

/// Drop control characters except newline and tab.
pub open spec fn strip_controls_spec(t: Seq<char>) -> Seq<char>
    decreases t.len(),
{
    if t.len() == 0 {
        Seq::empty()
    } else {
        strip_controls_spec(t.drop_last()) + (if ctl_keep(t.last()) {
            seq![t.last()]
        } else {
            Seq::empty()
        })
    }
}

pub(crate) fn strip_controls_chars(v: &Vec<char>) -> (out: Vec<char>)
    ensures
        out@ == strip_controls_spec(v@),
{
    let n = v.len();
    let mut out: Vec<char> = Vec::new();
    for i in 0..n
        invariant
            n == v.len(),
            out@ =~= strip_controls_spec(v@.take(i as int)),
    {
        assert(v@.take(i + 1).drop_last() =~= v@.take(i as int));
        assert(v@.take(i + 1).last() == v@[i as int]);
        let c = v[i];
        if !crate::chars::control_char(c) || c == '\n' || c == '\t' {
            out.push(c);
        }
        assert(out@ =~= strip_controls_spec(v@.take(i + 1)));
    }
    assert(v@.take(n as int) =~= v@);
    out
}

// ---------- step 7: whitespace collapsing ----------

pub open spec fn collapse_ws_rec(t: Seq<char>, prev_ws: bool) -> Seq<char>
    decreases t.len(),
{
    if t.len() == 0 {
        Seq::empty()
    } else if is_ws_char(t[0]) {
        (if prev_ws {
            Seq::<char>::empty()
        } else {
            seq![' ']
        }) + collapse_ws_rec(t.skip(1), true)
    } else {
        seq![t[0]] + collapse_ws_rec(t.skip(1), false)
    }
}

/// Replace every maximal whitespace run by a single space.
pub open spec fn collapse_ws_spec(t: Seq<char>) -> Seq<char> {
    collapse_ws_rec(t, false)
}

pub(crate) fn collapse_ws_chars(v: &Vec<char>) -> (out: Vec<char>)
    ensures
        out@ == collapse_ws_spec(v@),
{
    let n = v.len();
    let mut out: Vec<char> = Vec::new();
    let mut prev_ws = false;
    assert(v@.skip(0) =~= v@);
    for i in 0..n
        invariant
            n == v.len(),
            collapse_ws_spec(v@) =~= out@ + collapse_ws_rec(v@.skip(i as int), prev_ws),
    {
        assert(v@.skip(i as int)[0] == v@[i as int]);
        assert(v@.skip(i as int).skip(1) =~= v@.skip(i + 1));
        let c = v[i];
        if ws_char(c) {
            if !prev_ws {
                out.push(' ');
            }
            prev_ws = true;
        } else {
            out.push(c);
            prev_ws = false;
        }
    }
    assert(v@.skip(n as int) =~= Seq::<char>::empty());
    out
}

// ---------- step 8: ligature and invisible-character folding ----------

/// The plain-text replacement of one character: known typographic ligatures
/// are spelled out, the zero-width space and the byte-order mark vanish, and
/// the no-break space becomes a plain space.
pub open spec fn fold_char(c: char) -> Seq<char> {
    let u = c as u32;
    if u == 0xFB01 {
        seq!['f', 'i']
    } else if u == 0xFB02 {
        seq!['f', 'l']
    } else if u == 0xFB00 {
        seq!['f', 'f']
    } else if u == 0xFB03 {
        seq!['f', 'f', 'i']
    } else if u == 0xFB04 {
        seq!['f', 'f', 'l']
    } else if u == 0x153 {
        seq!['o', 'e']
    } else if u == 0xE6 {
        seq!['a', 'e']
    } else if u == 0xFEFF {
        Seq::<char>::empty()
    } else if u == 0x200B {
        Seq::<char>::empty()
    } else if u == 0xA0 {
        seq![' ']
    } else {
        seq![c]
    }
}

pub open spec fn fold_ligatures_spec(t: Seq<char>) -> Seq<char>
    decreases t.len(),
{
    if t.len() == 0 {
        Seq::<char>::empty()
    } else {
        fold_ligatures_spec(t.drop_last()) + fold_char(t.last())
    }
}

pub(crate) fn fold_ligatures_chars(v: &Vec<char>) -> (out: Vec<char>)
    ensures
        out@ == fold_ligatures_spec(v@),
{
    let n = v.len();
    let mut out: Vec<char> = Vec::new();
    for i in 0..n
        invariant
            n == v.len(),
            out@ =~= fold_ligatures_spec(v@.take(i as int)),
    {
        assert(v@.take(i + 1).drop_last() =~= v@.take(i as int));
        assert(v@.take(i + 1).last() == v@[i as int]);
        let c = v[i];
        let u = c as u32;
        if u == 0xFB01 {
            out.push('f');
            out.push('i');
        } else if u == 0xFB02 {
            out.push('f');
            out.push('l');
        } else if u == 0xFB00 {
            out.push('f');
            out.push('f');
        } else if u == 0xFB03 {
            out.push('f');
            out.push('f');
            out.push('i');
        } else if u == 0xFB04 {
            out.push('f');
            out.push('f');
            out.push('l');
        } else if u == 0x153 {
            out.push('o');
            out.push('e');
        } else if u == 0xE6 {
            out.push('a');
            out.push('e');
        } else if u == 0xFEFF {
        } else if u == 0x200B {
        } else if u == 0xA0 {
            out.push(' ');
        } else {
            out.push(c);
        }
        assert(out@ =~= fold_ligatures_spec(v@.take(i + 1)));
    }
    assert(v@.take(n as int) =~= v@);
    out
}

// ---------- step 9: punctuation-run collapsing ----------

/// Every character in `t[a..b)` is punctuation.
pub open spec fn punct_interval(t: Seq<char>, a: int, b: int) -> bool {
    forall|k: int| a <= k < b ==> is_punct_char(t[k])
}

/// Position `i` lies in a punctuation run of length at least three.
pub open spec fn punct_run3_at(t: Seq<char>, i: int) -> bool {
    exists|a: int, b: int|
        0 <= a <= i < b <= t.len() && b - a >= 3 && #[trigger] punct_interval(t, a, b)
}

/// A character survives punctuation-run collapsing unless it is punctuation
/// inside a run of three or more and another punctuation mark follows it.
pub open spec fn keep_punct(t: Seq<char>, i: int) -> bool {
    !is_punct_char(t[i]) || !punct_run3_at(t, i) || i + 1 == t.len() || !is_punct_char(
        t[i + 1],
    )
}

pub open spec fn collapse_punct_pre(t: Seq<char>, n: int) -> Seq<char>
    decreases n,
{
    if n <= 0 {
        Seq::<char>::empty()
    } else {
        collapse_punct_pre(t, n - 1) + (if keep_punct(t, n - 1) {
            seq![t[n - 1]]
        } else {
            Seq::<char>::empty()
        })
    }
}

/// Collapse every punctuation run of three or more marks to its last mark.
pub open spec fn collapse_punct_spec(t: Seq<char>) -> Seq<char> {
    collapse_punct_pre(t, t.len() as int)
}

/// Whether position `i` lies in a punctuation run of length at least three,
/// computed by scanning to the maximal run around `i`.
fn punct_run3(v: &Vec<char>, i: usize) -> (r: bool)
    requires
        i < v.len(),
        is_punct_char(v@[i as int]),
    ensures
        r == punct_run3_at(v@, i as int),
{
    let n = v.len();
    let mut a: usize = i;
    while a > 0 && punct_char(v[a - 1])
        invariant
            n == v.len(),
            a <= i < n,
            forall|k: int| a <= k <= i ==> is_punct_char(v@[k]),
        decreases a,
    {
        a = a - 1;
    }
    let mut b: usize = i + 1;
    while b < n && punct_char(v[b])
        invariant
            n == v.len(),
            i < b <= n,
            forall|k: int| i < k < b ==> is_punct_char(v@[k]),
        decreases n - b,
    {
        b = b + 1;
    }
    let r = b - a >= 3;
    proof {
        if r {
            assert(punct_run3_at(v@, i as int)) by {
                assert(punct_interval(v@, a as int, b as int));
                assert(0 <= a as int <= i as int && (i as int) < b as int && b as int
                    <= v@.len() && b as int - a as int >= 3);
            }
        } else {
            // the maximal run around i is [a, b); any all-punctuation
            // interval containing i lies within it
            assert forall|a2: int, b2: int|
                !(0 <= a2 <= i as int && (i as int) < b2 && b2 <= v@.len() && b2 - a2 >= 3
                    && #[trigger] punct_interval(v@, a2, b2)) by {
                if 0 <= a2 <= i as int && (i as int) < b2 && b2 <= v@.len() && b2 - a2 >= 3
                    && punct_interval(v@, a2, b2) {
                    if a2 < a as int {
                        assert(is_punct_char(v@[a as int - 1]));
                        assert(false);
                    }
                    if b2 > b as int {
                        assert(is_punct_char(v@[b as int]));
                        assert(false);
                    }
                    assert(false);
                }
            }
        }
    }
    r
}

pub(crate) fn collapse_punct_chars(v: &Vec<char>) -> (out: Vec<char>)
    ensures
        out@ == collapse_punct_spec(v@),
{
    let n = v.len();
    let mut out: Vec<char> = Vec::new();
    for i in 0..n
        invariant
            n == v.len(),
            out@ =~= collapse_punct_pre(v@, i as int),
    {
        let c = v[i];
        let keep = if !punct_char(c) {
            true
        } else if i + 1 == n {
            true
        } else if !punct_char(v[i + 1]) {
            true
        } else {
            !punct_run3(v, i)
        };
        assert(keep == keep_punct(v@, i as int));
        if keep {
            out.push(c);
        }
        assert(out@ =~= collapse_punct_pre(v@, i + 1));
    }
    out
}

// ---------- the normalizer ----------

/// The full normalization pipeline.
pub open spec fn normalize_spec(t: Seq<char>, remove_headers: bool) -> Seq<char> {
    let t1 = if remove_headers {
        strip_header_lines(t)
    } else {
        t
    };
    let t2 = strip_toc_lines(t1);
    let t3 = keep_alpha_step(t2);
    let t4 = join_hyphen_spec(t3);
    let t5 = merge_lines_step(t4);
    let t6 = strip_controls_spec(t5);
    let t7 = collapse_ws_spec(t6);
    let t8 = fold_ligatures_spec(t7);
    let t9 = collapse_punct_spec(t8);
    trim_spec(t9)
}

pub(crate) fn normalize_chars(v: &Vec<char>, remove_headers: bool) -> (out: Vec<char>)
    ensures
        out@ == normalize_spec(v@, remove_headers),
{
    let t1 = if remove_headers {
        strip_header_chars(v)
    } else {
        copy_chars(v)
    };
    let t2 = strip_toc_chars(&t1);
    let t3 = keep_alpha_chars(&t2);
    let t4 = join_hyphen_chars(&t3);
    let t5 = merge_lines_chars(&t4);
    let t6 = strip_controls_chars(&t5);
    let t7 = collapse_ws_chars(&t6);
    let t8 = fold_ligatures_chars(&t7);
    let t9 = collapse_punct_chars(&t8);
    trim_chars(&t9)
}

/// Normalize raw extracted page text: optionally remove header lines, drop
/// leader and low-letter lines, join hyphenated line breaks, merge lines,
/// strip control characters, collapse whitespace, fold ligatures, collapse
/// punctuation runs, and trim. Pure: identical input gives identical output.
pub fn clean_pdf_text_robust(text: &str, remove_headers: bool) -> (out: String)
    ensures
        out@ == normalize_spec(text@, remove_headers),
{
    let v = chars_of_str(text);
    let cleaned = normalize_chars(&v, remove_headers);
    string_from_chars(&cleaned)
}

} // verus!
