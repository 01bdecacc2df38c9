//! Structural filter: stateless heuristics that classify lines as section
//! headers or garbage fragments. False positives and negatives are an
//! accepted precision/recall trade-off of the heuristics, not a bug; the
//! contracts pin down exactly which lines each predicate accepts.

use vstd::prelude::*;

use crate::chars::char_is_uppercase;
use crate::chars::digit_char;
use crate::chars::is_digit_char;
use crate::chars::is_ws_char;
use crate::chars::upper_char;
use crate::chars::ws_char;
use crate::lines::trim_chars;
use crate::lines::trim_spec;
use crate::strutil::chars_of_str;

verus! {

pub open spec fn count_words_rec(t: Seq<char>, prev_ws: bool) -> nat
    decreases t.len(),
{
    if t.len() == 0 {
        0
    } else {
        (if !is_ws_char(t[0]) && prev_ws {
            1nat
        } else {
            0nat
        }) + count_words_rec(t.skip(1), is_ws_char(t[0]))
    }
}

/// The number of maximal non-whitespace runs (words) in a text.
pub open spec fn word_count(t: Seq<char>) -> nat {
    count_words_rec(t, true)
}

fn word_count_of(s: &Vec<char>) -> (r: usize)
    ensures
        r == word_count(s@),
{
    let n = s.len();
    let mut cnt: usize = 0;
    let mut prev_ws = true;
    assert(s@.skip(0) =~= s@);
    for i in 0..n
        invariant
            n == s.len(),
            cnt <= i,
            word_count(s@) == cnt + count_words_rec(s@.skip(i as int), prev_ws),
    {
        let c = s[i];
        assert(s@.skip(i as int)[0] == s@[i as int]);
        assert(s@.skip(i as int).skip(1) =~= s@.skip(i + 1));
        let cw = ws_char(c);
        if !cw && prev_ws {
            cnt = cnt + 1;
        }
        prev_ws = cw;
    }
    assert(s@.skip(n as int) =~= Seq::<char>::empty());
    cnt
}

pub open spec fn starts_with_digit(t: Seq<char>) -> bool {
    t.len() > 0 && is_digit_char(t[0])
}

pub open spec fn has_colon(t: Seq<char>) -> bool {
    exists|i: int| 0 <= i < t.len() && t[i] == ':'
}

fn has_colon_of(s: &Vec<char>) -> (r: bool)
    ensures
        r == has_colon(s@),
{
    let n = s.len();
    for i in 0..n
        invariant
            n == s.len(),
            forall|k: int| 0 <= k < i ==> s@[k] != ':',
    {
        if s[i] == ':' {
            return true;
        }
    }
    false
}

pub open spec fn all_upper_ws_digit(t: Seq<char>) -> bool {
    forall|i: int|
        0 <= i < t.len() ==> upper_char(t[i]) || is_ws_char(t[i]) || is_digit_char(t[i])
}

fn all_upper_ws_digit_of(s: &Vec<char>) -> (r: bool)
    ensures
        r == all_upper_ws_digit(s@),
{
    let n = s.len();
    for i in 0..n
        invariant
            n == s.len(),
            forall|k: int|
                0 <= k < i ==> upper_char(s@[k]) || is_ws_char(s@[k]) || is_digit_char(s@[k]),
    {
        let c = s[i];
        let up = char_is_uppercase(c);
        if !(up || ws_char(c) || digit_char(c)) {
            assert(!all_upper_ws_digit(s@));
            return false;
        }
    }
    true
}

/// Short-line heading heuristic: a trimmed line of at most 100 characters
/// that starts with a digit and has at most 6 words, consists entirely of
/// uppercase letters, whitespace and digits with at most 5 words, or starts
/// with a digit, contains a colon and has at most 8 words.
pub open spec fn is_likely_header_spec(line: Seq<char>) -> bool {
    let s = trim_spec(line);
    s.len() <= 100 && ((starts_with_digit(s) && word_count(s) <= 6) || (all_upper_ws_digit(s)
        && word_count(s) <= 5) || (starts_with_digit(s) && has_colon(s) && word_count(s) <= 8))
}

pub(crate) fn likely_header_chars(line: &Vec<char>) -> (r: bool)
    ensures
        r == is_likely_header_spec(line@),
{
    let s = trim_chars(line);
    if s.len() > 100 {
        return false;
    }
    let wc = word_count_of(&s);
    let sd = s.len() > 0 && digit_char(s[0]);
    if sd && wc <= 6 {
        return true;
    }
    if all_upper_ws_digit_of(&s) && wc <= 5 {
        return true;
    }
    if sd && has_colon_of(&s) && wc <= 8 {
        return true;
    }
    false
}

/// Heuristic header test on a single line, as used during chunk assembly.
pub fn is_likely_header(line: &str) -> (r: bool)
    ensures
        r == is_likely_header_spec(line@),
{
    let v = chars_of_str(line);
    likely_header_chars(&v)
}

/// One witness decomposition of a numbered heading: `s[0..m)` is a block of
/// digits and dots that starts with a digit, contains a dot, and has every
/// dot preceded by a digit; `s[m..j)` is whitespace; `s[j]` is uppercase.
pub open spec fn numbered_heading_witness(s: Seq<char>, m: int, j: int) -> bool {
    &&& 0 < m <= j < s.len()
    &&& is_digit_char(s[0])
    &&& (forall|k: int| 0 <= k < m ==> is_digit_char(s[k]) || s[k] == '.')
    &&& (exists|k: int| 0 <= k < m && s[k] == '.')
    &&& (forall|k: int| 1 <= k < m && #[trigger] s[k] == '.' ==> is_digit_char(s[k - 1]))
    &&& (forall|k: int| m <= k < j ==> is_ws_char(s[k]))
    &&& upper_char(s[j])
}

/// A numbered heading: one or more "N." groups, optional further digits,
/// optional whitespace, then an uppercase letter ("3.1 Introduction").
pub open spec fn is_numbered_heading(s: Seq<char>) -> bool {
    exists|m: int, j: int| numbered_heading_witness(s, m, j)
}

fn numbered_heading_of(s: &Vec<char>) -> (r: bool)
    ensures
        r == is_numbered_heading(s@),
{
    let n = s.len();
    if n == 0 || !digit_char(s[0]) {
        assert(!is_numbered_heading(s@));
        return false;
    }
    let mut p: usize = 0;
    let mut seen_dot = false;
    while p < n && (digit_char(s[p]) || (p > 0 && s[p] == '.' && digit_char(s[p - 1])))
        invariant
            0 <= p <= n,
            n == s.len(),
            is_digit_char(s@[0]),
            forall|k: int| 0 <= k < p ==> (is_digit_char(s@[k]) || s@[k] == '.'),
            forall|k: int| 0 <= k < p ==> !upper_char(s@[k]),
            forall|k: int| 1 <= k < p && #[trigger] s@[k] == '.' ==> is_digit_char(s@[k - 1]),
            seen_dot <==> (exists|k: int| 0 <= k < p && s@[k] == '.'),
        decreases n - p,
    {
        let c = s[p];
        let up = char_is_uppercase(c);
        assert(!up);
        if c == '.' {
            seen_dot = true;
        }
        p = p + 1;
    }
    let mut q: usize = p;
    while q < n && ws_char(s[q])
        invariant
            p <= q <= n,
            n == s.len(),
            forall|k: int| p <= k < q ==> is_ws_char(s@[k]) && !upper_char(s@[k]),
        decreases n - q,
    {
        let up = char_is_uppercase(s[q]);
        assert(!up);
        q = q + 1;
    }
    let mut up_q = false;
    if q < n {
        up_q = char_is_uppercase(s[q]);
    }
    let r = seen_dot && q < n && up_q;
    proof {
        if r {
            assert(numbered_heading_witness(s@, p as int, q as int));
        } else {
            assert forall|m: int, j: int| !numbered_heading_witness(s@, m, j) by {
                if numbered_heading_witness(s@, m, j) {
                    if m > p {
                        // the scan stopped before m, yet s@[p as int] must lie in the
                        // digit/dot block, so the stop was a dot after a dot
                        assert(p < n);
                        assert(is_digit_char(s@[p as int]) || s@[p as int] == '.');
                        if is_digit_char(s@[p as int]) {
                            assert(false);
                        } else {
                            assert(s@[p as int] == '.');
                            assert(p > 0);
                            assert(!is_digit_char(s@[p as int - 1]));
                            assert(is_digit_char(s@[p as int - 1]) || s@[p as int - 1] == '.');
                            assert(s@[p as int - 1] == '.');
                            assert(false);
                        }
                    } else if m < p {
                        // s@[m] is a digit or a dot, hence neither whitespace
                        // nor uppercase, so neither m < j nor m == j can hold
                        assert(is_digit_char(s@[m]) || s@[m] == '.');
                        if m < j {
                            assert(is_ws_char(s@[m]));
                            assert(false);
                        } else {
                            assert(upper_char(s@[m]));
                            assert(!upper_char(s@[m]));
                            assert(false);
                        }
                    } else {
                        assert(seen_dot);
                        if j < q {
                            assert(is_ws_char(s@[j]) && !upper_char(s@[j]));
                            assert(false);
                        } else if j > q {
                            assert(q < n);
                            assert(is_ws_char(s@[q as int]));
                            assert(false);
                        } else {
                            assert(q < n && upper_char(s@[q as int]));
                            assert(up_q);
                            assert(false);
                        }
                    }
                }
            }
        }
    }
    r
}

/// The length of the heading keyword that prefixes `s`, or 0 if none does.
pub open spec fn kw_prefix_len(s: Seq<char>) -> int {
    if s.len() >= 7 && s[0] == 'C' && s[1] == 'h' && s[2] == 'a' && s[3] == 'p' && s[4] == 't'
        && s[5] == 'e' && s[6] == 'r' {
        7
    } else if s.len() >= 7 && s[0] == 'S' && s[1] == 'e' && s[2] == 'c' && s[3] == 't' && s[4]
        == 'i' && s[5] == 'o' && s[6] == 'n' {
        7
    } else if s.len() >= 4 && s[0] == 'P' && s[1] == 'a' && s[2] == 'r' && s[3] == 't' {
        4
    } else if s.len() >= 8 && s[0] == 'A' && s[1] == 'p' && s[2] == 'p' && s[3] == 'e' && s[4]
        == 'n' && s[5] == 'd' && s[6] == 'i' && s[7] == 'x' {
        8
    } else {
        0
    }
}

/// After the keyword: at least one whitespace character, then a digit or an
/// uppercase letter.
pub open spec fn keyword_tail_at(s: Seq<char>, k: int) -> bool {
    exists|j: int|
        k < j < s.len() && (forall|i: int| k <= i < j ==> is_ws_char(s[i])) && (is_digit_char(
            s[j],
        ) || upper_char(s[j]))
}

/// A keyword heading: "Chapter", "Section", "Part" or "Appendix", then
/// whitespace, then a chapter number or letter.
pub open spec fn is_keyword_heading(s: Seq<char>) -> bool {
    kw_prefix_len(s) > 0 && keyword_tail_at(s, kw_prefix_len(s))
}

fn keyword_heading_of(s: &Vec<char>) -> (r: bool)
    ensures
        r == is_keyword_heading(s@),
{
    let n = s.len();
    let mut k: usize = 0;
    if n >= 7 && s[0] == 'C' && s[1] == 'h' && s[2] == 'a' && s[3] == 'p' && s[4] == 't' && s[5]
        == 'e' && s[6] == 'r' {
        k = 7;
    } else if n >= 7 && s[0] == 'S' && s[1] == 'e' && s[2] == 'c' && s[3] == 't' && s[4] == 'i'
        && s[5] == 'o' && s[6] == 'n' {
        k = 7;
    } else if n >= 4 && s[0] == 'P' && s[1] == 'a' && s[2] == 'r' && s[3] == 't' {
        k = 4;
    } else if n >= 8 && s[0] == 'A' && s[1] == 'p' && s[2] == 'p' && s[3] == 'e' && s[4] == 'n'
        && s[5] == 'd' && s[6] == 'i' && s[7] == 'x' {
        k = 8;
    } else {
        assert(kw_prefix_len(s@) == 0);
        return false;
    }
    assert(k as int == kw_prefix_len(s@));
    let mut q: usize = k;
    while q < n && ws_char(s[q])
        invariant
            k <= q <= n,
            n == s.len(),
            forall|i: int| k <= i < q ==> is_ws_char(s@[i]) && !upper_char(s@[i]),
        decreases n - q,
    {
        let up = char_is_uppercase(s[q]);
        assert(!up);
        q = q + 1;
    }
    let mut class_q = false;
    if q < n {
        let c = s[q];
        let up = char_is_uppercase(c);
        class_q = digit_char(c) || up;
    }
    let r = q > k && q < n && class_q;
    proof {
        if r {
            assert(keyword_tail_at(s@, k as int));
        } else {
            assert forall|j: int|
                !(k < j < s@.len() && (forall|i: int| k <= i < j ==> is_ws_char(s@[i])) && (
                is_digit_char(s@[j]) || upper_char(s@[j]))) by {
                if k < j < s@.len() && (forall|i: int| k <= i < j ==> is_ws_char(s@[i])) && (
                is_digit_char(s@[j]) || upper_char(s@[j])) {
                    if j < q {
                        assert(is_ws_char(s@[j]) && !upper_char(s@[j]));
                        assert(false);
                    } else if j > q {
                        assert(q < n);
                        assert(is_ws_char(s@[q as int]));
                        assert(false);
                    } else {
                        assert(q > k && q < n);
                        assert(class_q);
                        assert(false);
                    }
                }
            }
            assert(!keyword_tail_at(s@, k as int));
        }
    }
    r
}

/// Whether a line is classified as a section header: a numbered or keyword
/// heading on the trimmed line, or the short-line heuristic.
pub open spec fn is_header_line(line: Seq<char>) -> bool {
    is_numbered_heading(trim_spec(line)) || is_keyword_heading(trim_spec(line))
        || is_likely_header_spec(line)
}

pub(crate) fn header_line_chars(line: &Vec<char>) -> (r: bool)
    ensures
        r == is_header_line(line@),
{
    let t = trim_chars(line);
    if numbered_heading_of(&t) {
        return true;
    }
    if keyword_heading_of(&t) {
        return true;
    }
    likely_header_chars(line)
}

/// Whether a line is classified as a section header.
pub fn is_section_header(line: &str) -> (r: bool)
    ensures
        r == is_header_line(line@),
{
    let v = chars_of_str(line);
    header_line_chars(&v)
}

pub open spec fn count_alpha(t: Seq<char>) -> nat
    decreases t.len(),
{
    if t.len() == 0 {
        0
    } else {
        count_alpha(t.drop_last()) + (if crate::chars::alpha_char(t.last()) {
            1nat
        } else {
            0nat
        })
    }
}

pub open spec fn count_digits(t: Seq<char>) -> nat
    decreases t.len(),
{
    if t.len() == 0 {
        0
    } else {
        count_digits(t.drop_last()) + (if is_digit_char(t.last()) {
            1nat
        } else {
            0nat
        })
    }
}

pub open spec fn count_dots(t: Seq<char>) -> nat
    decreases t.len(),
{
    if t.len() == 0 {
        0
    } else {
        count_dots(t.drop_last()) + (if t.last() == '.' {
            1nat
        } else {
            0nat
        })
    }
}

/// A garbage fragment: more than 10 dots, fewer than 5 letters, and at
/// least one digit — stray page-number and leader debris.
pub open spec fn is_garbage_spec(t: Seq<char>) -> bool {
    count_dots(t) > 10 && count_alpha(t) < 5 && count_digits(t) >= 1
}

pub(crate) fn garbage_chars(v: &Vec<char>) -> (r: bool)
    ensures
        r == is_garbage_spec(v@),
{
    let n = v.len();
    let mut alphas: usize = 0;
    let mut digits: usize = 0;
    let mut dots: usize = 0;
    for i in 0..n
        invariant
            n == v.len(),
            alphas <= i && digits <= i && dots <= i,
            alphas == count_alpha(v@.take(i as int)),
            digits == count_digits(v@.take(i as int)),
            dots == count_dots(v@.take(i as int)),
    {
        let c = v[i];
        assert(v@.take(i + 1).drop_last() =~= v@.take(i as int));
        assert(v@.take(i + 1).last() == v@[i as int]);
        if crate::chars::char_is_alphabetic(c) {
            alphas = alphas + 1;
        }
        if digit_char(c) {
            digits = digits + 1;
        }
        if c == '.' {
            dots = dots + 1;
        }
    }
    assert(v@.take(n as int) =~= v@);
    dots > 10 && alphas < 5 && digits >= 1
}

/// Whether a fragment is classified as garbage.
pub fn is_garbage_fragment(text: &str) -> (r: bool)
    ensures
        r == is_garbage_spec(text@),
{
    let v = chars_of_str(text);
    garbage_chars(&v)
}

} // verus!
